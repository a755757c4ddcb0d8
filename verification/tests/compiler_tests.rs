use pickup_lang::ast::AstNode;
use pickup_lang::compiler::{is_free, Compiler, Instruction};
use pickup_lang::parser::{parse_to_ast, tokenize};

use pickup_lang::compiler::Instruction::{
    Add, And, Break, Call, Concat, Continue, DeclareLocal, Div, EnterScope, Equal, ExitScope,
    Greater, GreaterEqual, Import, Jump, JumpIfFalse, Less, LessEqual, LoadGlobal, LoadLocal,
    LoadMember, MakeClosure, MakeDictionary, MakeTable, Mod, Mul, NativeCall, Nop, NotEqual, Or,
    Pop, PopHandler, Print, PushBoolean, PushHandler, PushNil, PushNumber, PushString, Return,
    StoreGlobal, StoreIndex, StoreLocal, StoreMember, Sub, Throw,
};

fn compile(source: &str) -> Vec<Instruction> {
    let ast = parse_to_ast(tokenize(source).expect("Tokenization failed")).expect("Parsing failed");
    Compiler::compile(&ast)
}

fn s(text: &str) -> String {
    text.to_string()
}

#[test]
fn a_global_assignment() {
    assert_eq!(compile("x = 1"), vec![PushNumber(s("1")), StoreGlobal(s("x"))]);
}

#[test]
fn a_local_is_found_in_its_scope_and_after_it() {
    assert_eq!(
        compile("local x = 1\nprint(x)\nx = 2\ny = x"),
        vec![
            PushNumber(s("1")),
            DeclareLocal(s("x")),
            LoadLocal(s("x")),
            Print,
            PushNumber(s("2")),
            StoreLocal(s("x")),
            LoadLocal(s("x")),
            StoreGlobal(s("y")),
        ]
    );
}

#[test]
fn a_local_of_a_block_is_unknown_after_it() {
    assert_eq!(
        compile("do local x = 1 end\nprint(x)"),
        vec![
            EnterScope,
            PushNumber(s("1")),
            DeclareLocal(s("x")),
            ExitScope,
            LoadGlobal(s("x")),
            Print,
        ]
    );
}

#[test]
fn every_operator_has_its_instruction() {
    let cases = [
        ("+", Add),
        ("-", Sub),
        ("*", Mul),
        ("/", Div),
        ("%", Mod),
        ("..", Concat),
        ("==", Equal),
        ("~=", NotEqual),
        ("<", Less),
        (">", Greater),
        ("<=", LessEqual),
        (">=", GreaterEqual),
        ("and", And),
        ("or", Or),
    ];
    for (symbol, instruction) in cases {
        let code = compile(&format!("a {} b", symbol));
        assert_eq!(code, vec![LoadGlobal(s("a")), LoadGlobal(s("b")), instruction]);
    }
    let odd = AstNode::BinaryOp(
        Box::new(AstNode::Nil),
        s("??"),
        Box::new(AstNode::Nil),
    );
    assert_eq!(Compiler::compile(&odd), vec![PushNil, PushNil, Pop, Pop, PushNil]);
}

#[test]
fn an_expression_statement_is_dropped_inside_a_block_and_kept_at_top_level() {
    assert_eq!(compile("f()"), vec![LoadGlobal(s("f")), Call(0)]);
    assert_eq!(
        compile("do f() end"),
        vec![EnterScope, LoadGlobal(s("f")), Call(0), Pop, ExitScope]
    );
}

#[test]
fn while_with_break_and_continue() {
    assert_eq!(
        compile("while x do break end"),
        vec![
            LoadGlobal(s("x")),
            JumpIfFalse(7),
            EnterScope,
            ExitScope,
            Jump(7),
            ExitScope,
            Jump(0),
        ]
    );
    assert_eq!(
        compile("y = 1\nwhile x do if y then continue end end"),
        vec![
            PushNumber(s("1")),
            StoreGlobal(s("y")),
            LoadGlobal(s("x")),
            JumpIfFalse(15),
            EnterScope,
            LoadGlobal(s("y")),
            JumpIfFalse(13),
            EnterScope,
            ExitScope,
            ExitScope,
            Jump(2),
            ExitScope,
            Jump(13),
            ExitScope,
            Jump(2),
        ]
    );
}

#[test]
fn break_outside_a_loop_does_nothing() {
    assert_eq!(compile("break"), vec![Nop]);
    assert_eq!(
        compile("while x do f = function() continue end end"),
        vec![
            LoadGlobal(s("x")),
            JumpIfFalse(11),
            EnterScope,
            Jump(7),
            Nop,
            PushNil,
            Return,
            MakeClosure(vec![], 4, vec![]),
            StoreGlobal(s("f")),
            ExitScope,
            Jump(0),
        ]
    );
}

#[test]
fn if_with_clauses() {
    assert_eq!(
        compile("if a then print(1) elseif b then print(2) else print(3) end"),
        vec![
            LoadGlobal(s("a")),
            JumpIfFalse(7),
            EnterScope,
            PushNumber(s("1")),
            Print,
            ExitScope,
            Jump(18),
            LoadGlobal(s("b")),
            JumpIfFalse(14),
            EnterScope,
            PushNumber(s("2")),
            Print,
            ExitScope,
            Jump(18),
            EnterScope,
            PushNumber(s("3")),
            Print,
            ExitScope,
        ]
    );
    assert_eq!(
        compile("if a then end"),
        vec![LoadGlobal(s("a")), JumpIfFalse(5), EnterScope, ExitScope, Jump(5)]
    );
}

#[test]
fn a_counting_loop() {
    assert_eq!(
        compile("for i = 1, 2 do print(i) end"),
        vec![
            EnterScope,
            PushNumber(s("1")),
            DeclareLocal(s("i")),
            PushNumber(s("2")),
            DeclareLocal(s("(end)")),
            PushNumber(s("1")),
            DeclareLocal(s("(step)")),
            LoadLocal(s("i")),
            LoadLocal(s("(end)")),
            LessEqual,
            JumpIfFalse(20),
            EnterScope,
            LoadLocal(s("i")),
            Print,
            ExitScope,
            LoadLocal(s("i")),
            LoadLocal(s("(step)")),
            Add,
            StoreLocal(s("i")),
            Jump(7),
            ExitScope,
        ]
    );
}

#[test]
fn a_function_and_its_closure() {
    assert_eq!(
        compile("f = function(a) return a end"),
        vec![
            Jump(5),
            LoadLocal(s("a")),
            Return,
            PushNil,
            Return,
            MakeClosure(vec![s("a")], 1, vec![]),
            StoreGlobal(s("f")),
        ]
    );
    assert_eq!(
        compile("local k = 1\nlocal unused = 2\nfunction g(a) local m = 3 return a + k + m + z end"),
        vec![
            PushNumber(s("1")),
            DeclareLocal(s("k")),
            PushNumber(s("2")),
            DeclareLocal(s("unused")),
            Jump(17),
            PushNumber(s("3")),
            DeclareLocal(s("m")),
            LoadLocal(s("a")),
            LoadLocal(s("k")),
            Add,
            LoadLocal(s("m")),
            Add,
            LoadGlobal(s("z")),
            Add,
            Return,
            PushNil,
            Return,
            MakeClosure(vec![s("a")], 5, vec![s("k")]),
            StoreGlobal(s("g")),
        ]
    );
}

#[test]
fn try_and_catch() {
    assert_eq!(
        compile("try throw 1 catch e print(e) end"),
        vec![
            PushHandler(7),
            EnterScope,
            PushNumber(s("1")),
            Throw,
            ExitScope,
            PopHandler,
            Jump(12),
            EnterScope,
            DeclareLocal(s("e")),
            LoadLocal(s("e")),
            Print,
            ExitScope,
        ]
    );
    assert_eq!(
        compile("try catch end"),
        vec![
            PushHandler(5),
            EnterScope,
            ExitScope,
            PopHandler,
            Jump(8),
            EnterScope,
            Pop,
            ExitScope,
        ]
    );
}

#[test]
fn a_call_on_an_imported_module_goes_to_the_native_function() {
    assert_eq!(
        compile("import \"math\"\nprint(math.floor(3.7))\nx = math.pi\nother.f()"),
        vec![
            Import(s("math")),
            PushNumber(s("3.7")),
            NativeCall(s("math"), s("floor"), 1),
            Print,
            LoadGlobal(s("math")),
            LoadMember(s("pi")),
            StoreGlobal(s("x")),
            LoadGlobal(s("other")),
            LoadMember(s("f")),
            Call(0),
        ]
    );
    assert_eq!(
        compile("import \"math\"\nlocal math = 1\nmath.floor(2)"),
        vec![
            Import(s("math")),
            PushNumber(s("1")),
            DeclareLocal(s("math")),
            LoadLocal(s("math")),
            LoadMember(s("floor")),
            PushNumber(s("2")),
            Call(1),
        ]
    );
}

#[test]
fn stores_into_containers() {
    assert_eq!(
        compile("t[0] = 1"),
        vec![
            LoadGlobal(s("t")),
            PushNumber(s("0")),
            PushNumber(s("1")),
            StoreIndex,
            StoreGlobal(s("t")),
        ]
    );
    assert_eq!(
        compile("o.a = 1"),
        vec![LoadGlobal(s("o")), PushNumber(s("1")), StoreMember(s("a")), StoreGlobal(s("o"))]
    );
    assert_eq!(
        compile("o.a.b = 1"),
        vec![
            LoadGlobal(s("o")),
            LoadMember(s("a")),
            PushNumber(s("1")),
            StoreMember(s("b")),
            Pop,
        ]
    );
}

#[test]
fn literals_of_tables_and_dictionaries() {
    assert_eq!(
        compile("t = [1, \"a\", true, nil]"),
        vec![
            PushNumber(s("1")),
            PushString(s("a")),
            PushBoolean(true),
            PushNil,
            MakeTable(4),
            StoreGlobal(s("t")),
        ]
    );
    assert_eq!(
        compile("d = {a = 1, \"b\" = x}"),
        vec![
            PushString(s("a")),
            PushNumber(s("1")),
            PushString(s("b")),
            LoadGlobal(s("x")),
            MakeDictionary(2),
            StoreGlobal(s("d")),
        ]
    );
}

#[test]
fn no_pending_jump_is_left_and_every_target_lies_in_the_code() {
    let source = r#"
        for i = 1, 10 do
            while i < 5 do
                try
                    if i == 2 then break elseif i == 3 then continue else throw i end
                catch e
                    f = function(n) for j = 1, n do if j then break end end end
                end
            end
        end
    "#;
    let code = compile(source);
    for instruction in &code {
        match instruction {
            Break | Continue => panic!("pending jump left"),
            Jump(t) | JumpIfFalse(t) | PushHandler(t) | MakeClosure(_, t, _) => {
                assert!(*t <= code.len())
            }
            _ => {}
        }
    }
}

#[test]
fn free_names() {
    let ast = parse_to_ast(
        tokenize("local a = b\nprint(a + c)\nfunction f(p) return p + q end\nfor i = 1, n do i = m end")
            .expect("Tokenization failed"),
    )
    .expect("Parsing failed");
    for name in ["b", "c", "q", "n", "m", "f"] {
        assert!(is_free(&ast, name), "{}", name);
    }
    for name in ["a", "p", "i", "print", "zzz"] {
        assert!(!is_free(&ast, name), "{}", name);
    }
}
