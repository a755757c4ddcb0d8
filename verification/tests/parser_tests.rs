use pickup_lang::ast::AstNode;
use pickup_lang::parser::{
    get_precedence, is_number, parse_expression, parse_expression_with_precedence,
    parse_statement, parse_term, parse_to_ast, tokenize, ParseError,
};
use pickup_lang::tree::{ParseNode, Rule};

fn ident(name: &str) -> ParseNode {
    ParseNode::leaf(Rule::Identifier, name)
}

fn num(text: &str) -> ParseNode {
    ParseNode::leaf(Rule::Number, text)
}

fn op(rule: Rule, text: &str) -> ParseNode {
    ParseNode::leaf(rule, text)
}

fn expr(children: Vec<ParseNode>) -> ParseNode {
    ParseNode::branch(Rule::Expression, "", children)
}

fn id(name: &str) -> Box<AstNode> {
    Box::new(AstNode::Identifier(name.to_string()))
}

fn bin(left: AstNode, op: &str, right: AstNode) -> AstNode {
    AstNode::BinaryOp(Box::new(left), op.to_string(), Box::new(right))
}

fn shape(expected: Rule, message: &str) -> ParseError {
    ParseError::Shape { expected, message: message.to_string() }
}

fn parse(source: &str) -> AstNode {
    parse_to_ast(tokenize(source).expect("Tokenization failed")).expect("Parsing failed")
}

fn statements(source: &str) -> Vec<AstNode> {
    match parse(source) {
        AstNode::Program(body) => body,
        other => panic!("no program: {:?}", other),
    }
}

#[test]
fn precedence_levels() {
    assert_eq!(get_precedence("or"), 1);
    assert_eq!(get_precedence("and"), 2);
    assert_eq!(get_precedence("=="), 3);
    assert_eq!(get_precedence("~="), 3);
    assert_eq!(get_precedence("<"), 4);
    assert_eq!(get_precedence(">"), 4);
    assert_eq!(get_precedence("<="), 4);
    assert_eq!(get_precedence(">="), 4);
    assert_eq!(get_precedence(".."), 5);
    assert_eq!(get_precedence("+"), 6);
    assert_eq!(get_precedence("-"), 6);
    assert_eq!(get_precedence("*"), 7);
    assert_eq!(get_precedence("/"), 7);
    assert_eq!(get_precedence("%"), 7);
    assert_eq!(get_precedence("**"), 0);
    assert_eq!(get_precedence(""), 0);
}

#[test]
fn numeric_literals() {
    for good in ["0", "42", "3.14", "-5", "-0.5", "007"] {
        assert!(is_number(good), "{}", good);
    }
    for bad in ["", "-", ".5", "5.", "1e5", "1.2.3", "12a", "+3", "١٢"] {
        assert!(!is_number(bad), "{}", bad);
    }
}

#[test]
fn a_term_after_a_tighter_operator_does_not_end_the_expression() {
    let tree = expr(vec![
        ident("a"),
        op(Rule::OpAdd, "+"),
        ident("b"),
        op(Rule::OpMul, "*"),
        ident("c"),
        op(Rule::OpSub, "-"),
        ident("d"),
    ]);
    let expected = bin(
        bin(*id("a"), "+", bin(*id("b"), "*", *id("c"))),
        "-",
        *id("d"),
    );
    assert_eq!(parse_expression(&tree), Ok(expected));
}

#[test]
fn equal_precedence_folds_to_the_left() {
    let tree = expr(vec![
        num("10"),
        op(Rule::OpSub, "-"),
        num("3"),
        op(Rule::OpSub, "-"),
        num("2"),
    ]);
    let n = |t: &str| AstNode::Number(t.to_string());
    assert_eq!(parse_expression(&tree), Ok(bin(bin(n("10"), "-", n("3")), "-", n("2"))));
}

#[test]
fn looser_operators_end_up_at_the_root() {
    let a = statements("r = a or b and c == d < e .. f + g * h");
    let value = match &a[0] {
        AstNode::Assignment(_, value) => value,
        other => panic!("{:?}", other),
    };
    let expected = bin(
        *id("a"),
        "or",
        bin(
            *id("b"),
            "and",
            bin(
                *id("c"),
                "==",
                bin(
                    *id("d"),
                    "<",
                    bin(*id("e"), "..", bin(*id("f"), "+", bin(*id("g"), "*", *id("h")))),
                ),
            ),
        ),
    );
    assert_eq!(**value, expected);
}

#[test]
fn a_dangling_operator_is_left_out() {
    let tree = expr(vec![ident("a"), op(Rule::OpAdd, "+")]);
    assert_eq!(parse_expression(&tree), Ok(*id("a")));
    let tree = expr(vec![ident("a"), op(Rule::OpAdd, "+"), ident("b"), op(Rule::OpAdd, "+")]);
    assert_eq!(parse_expression(&tree), Ok(bin(*id("a"), "+", *id("b"))));
}

#[test]
fn an_unknown_operator_binds_loosest() {
    let tree = expr(vec![
        ident("a"),
        op(Rule::OpAdd, "+"),
        ident("b"),
        op(Rule::OpAdd, "??"),
        ident("c"),
        op(Rule::OpAdd, "+"),
        ident("d"),
    ]);
    let expected = bin(bin(*id("a"), "+", *id("b")), "??", bin(*id("c"), "+", *id("d")));
    assert_eq!(parse_expression(&tree), Ok(expected));
}

#[test]
fn shape_errors_name_the_missing_child() {
    let missing = |rule: Rule| ParseNode::branch(rule, "", vec![]);
    assert_eq!(
        parse_statement(&missing(Rule::ImportStmt)),
        Err(shape(Rule::String, "Missing module path in import statement"))
    );
    assert_eq!(
        parse_statement(&ParseNode::branch(Rule::Assignment, "", vec![ident("x")])),
        Err(shape(Rule::Expression, "Missing value in assignment"))
    );
    assert_eq!(
        parse_statement(&missing(Rule::PrintStmt)),
        Err(shape(Rule::Expression, "Missing expression in print statement"))
    );
    assert_eq!(
        parse_statement(&missing(Rule::ThrowStmt)),
        Err(shape(Rule::Expression, "Missing expression in throw statement"))
    );
    assert_eq!(
        parse_statement(&missing(Rule::IfStmt)),
        Err(shape(Rule::Expression, "Missing condition in if statement"))
    );
    assert_eq!(
        parse_statement(&missing(Rule::ForStmt)),
        Err(shape(Rule::Expression, "Missing bounds in for statement"))
    );
    assert_eq!(parse_expression(&expr(vec![])), Err(shape(Rule::Term, "Empty expression")));
    assert_eq!(
        parse_term(&missing(Rule::FunctionCall)),
        Err(shape(Rule::Identifier, "Empty function call"))
    );
    assert_eq!(
        parse_term(&missing(Rule::MethodCall)),
        Err(shape(Rule::MemberAccess, "Empty method call"))
    );
    assert_eq!(
        parse_term(&missing(Rule::MemberAccess)),
        Err(shape(Rule::Term, "Empty member access"))
    );
    assert_eq!(
        parse_term(&missing(Rule::NotExpr)),
        Err(shape(Rule::Term, "Missing operand for not expression"))
    );
    assert_eq!(
        parse_term(&ParseNode::branch(Rule::IndexAccess, "", vec![ident("a")])),
        Err(shape(Rule::Expression, "Invalid index access"))
    );
    assert_eq!(
        parse_term(&op(Rule::OpAdd, "+")),
        Err(shape(Rule::Term, "Unexpected operator rule"))
    );
    assert_eq!(parse_term(&missing(Rule::Term)), Err(shape(Rule::Term, "Unexpected term rule")));
    assert_eq!(parse_term(&num("1e5")), Err(shape(Rule::Number, "Failed to parse number")));
    assert_eq!(
        parse_term(&ParseNode::leaf(Rule::String, "\"")),
        Err(shape(Rule::String, "String literal without quotes"))
    );
}

#[test]
fn an_assignment_target_must_be_a_place() {
    let tree = ParseNode::branch(Rule::Assignment, "", vec![num("1"), expr(vec![num("2")])]);
    assert_eq!(
        parse_statement(&tree),
        Err(shape(Rule::Identifier, "Invalid assignment target"))
    );
    let tree = ParseNode::branch(Rule::Assignment, "", vec![ident("x"), expr(vec![num("2")])]);
    assert_eq!(
        parse_statement(&tree),
        Ok(Some(AstNode::Assignment(id("x"), Box::new(AstNode::Number("2".to_string())))))
    );
}

#[test]
fn the_first_failure_wins() {
    let bad_number = num("x1");
    let bad_string = ParseNode::leaf(Rule::String, "");
    let tree = expr(vec![bad_number, op(Rule::OpAdd, "+"), bad_string]);
    assert_eq!(parse_expression(&tree), Err(shape(Rule::Number, "Failed to parse number")));
}

#[test]
fn a_node_that_is_no_statement_is_passed_over() {
    assert_eq!(parse_statement(&ident("x")), Ok(None));
    let program = ParseNode::branch(
        Rule::Program,
        "",
        vec![ident("x"), ParseNode::leaf(Rule::BreakStmt, "break")],
    );
    assert_eq!(parse_to_ast(vec![program]), Ok(AstNode::Program(vec![AstNode::Break])));
    assert_eq!(parse_to_ast(vec![ident("x")]), Ok(AstNode::Program(vec![])));
}

#[test]
fn print_with_an_argument_is_the_print_statement() {
    let body = statements("print(x)\nprint()\nshow(x)\nprint(a, b)");
    assert_eq!(body[0], AstNode::Print(id("x")));
    assert_eq!(body[1], AstNode::FunctionCall("print".to_string(), vec![]));
    assert_eq!(body[2], AstNode::FunctionCall("show".to_string(), vec![*id("x")]));
    assert_eq!(body[3], AstNode::Print(id("a")));
    let joined = ParseNode::branch(
        Rule::FunctionCall,
        "",
        vec![ident("print"), ident("a"), op(Rule::OpConcat, ".."), ident("b")],
    );
    assert_eq!(parse_term(&joined), Ok(AstNode::Print(Box::new(bin(*id("a"), "..", *id("b"))))));
}

#[test]
fn string_literals_lose_only_their_quotes() {
    let body = statements("s = \"a b\"\nt = \"\"\nd = {\"k 1\" = 1, k2 = \"v\"}");
    let value = |node: &AstNode| match node {
        AstNode::Assignment(_, v) => (**v).clone_for_test(),
        other => panic!("{:?}", other),
    };
    assert_eq!(value(&body[0]), AstNode::String("a b".to_string()));
    assert_eq!(value(&body[1]), AstNode::String(String::new()));
    assert_eq!(
        value(&body[2]),
        AstNode::Dictionary(vec![
            ("k 1".to_string(), AstNode::Number("1".to_string())),
            ("k2".to_string(), AstNode::String("v".to_string())),
        ])
    );
}

trait CloneForTest {
    fn clone_for_test(&self) -> AstNode;
}

impl CloneForTest for AstNode {
    fn clone_for_test(&self) -> AstNode {
        match self {
            AstNode::String(s) => AstNode::String(s.clone()),
            AstNode::Number(s) => AstNode::Number(s.clone()),
            AstNode::Dictionary(entries) => AstNode::Dictionary(
                entries.iter().map(|(k, v)| (k.clone(), v.clone_for_test())).collect(),
            ),
            other => panic!("not copied in this test: {:?}", other),
        }
    }
}

#[test]
fn statements_of_every_kind() {
    let n = |t: &str| AstNode::Number(t.to_string());
    let body = statements(
        r#"
        import "math"
        local a = 1
        t = [1, x]
        t[0] = 2
        o.p.q = 3
        o.f(1, 2)
        if a then b() elseif c then d() else e() end
        while a do break continue end
        for i = 1, 2 do end
        for i = 1, 2, 3 do f() end
        function g(x, y) return x end
        h = function() return end
        try throw "e" catch err print(err) end
        try f() catch f() end
        do local z = not true end
        x = (1 + 2) * nil
        "#,
    );
    let expected = vec![
        AstNode::Import("math".to_string()),
        AstNode::LocalAssignment("a".to_string(), Box::new(n("1"))),
        AstNode::Assignment(id("t"), Box::new(AstNode::Table(vec![n("1"), *id("x")]))),
        AstNode::Assignment(
            Box::new(AstNode::Index(id("t"), Box::new(n("0")))),
            Box::new(n("2")),
        ),
        AstNode::Assignment(
            Box::new(AstNode::MemberAccess(id("o"), vec!["p".to_string(), "q".to_string()])),
            Box::new(n("3")),
        ),
        AstNode::MethodCall(id("o"), vec!["f".to_string()], vec![n("1"), n("2")]),
        AstNode::If(
            id("a"),
            vec![AstNode::FunctionCall("b".to_string(), vec![])],
            vec![(*id("c"), vec![AstNode::FunctionCall("d".to_string(), vec![])])],
            Some(vec![AstNode::FunctionCall("e".to_string(), vec![])]),
        ),
        AstNode::While(id("a"), vec![AstNode::Break, AstNode::Continue]),
        AstNode::For("i".to_string(), Box::new(n("1")), Box::new(n("2")), None, vec![]),
        AstNode::For(
            "i".to_string(),
            Box::new(n("1")),
            Box::new(n("2")),
            Some(Box::new(n("3"))),
            vec![AstNode::FunctionCall("f".to_string(), vec![])],
        ),
        AstNode::FunctionDef(
            "g".to_string(),
            vec!["x".to_string(), "y".to_string()],
            vec![AstNode::Return(Some(id("x")))],
        ),
        AstNode::Assignment(
            id("h"),
            Box::new(AstNode::Lambda(vec![], vec![AstNode::Return(None)])),
        ),
        AstNode::TryCatch(
            vec![AstNode::Throw(Box::new(AstNode::String("e".to_string())))],
            Some("err".to_string()),
            vec![AstNode::Print(id("err"))],
        ),
        AstNode::TryCatch(
            vec![AstNode::FunctionCall("f".to_string(), vec![])],
            None,
            vec![AstNode::FunctionCall("f".to_string(), vec![])],
        ),
        AstNode::Block(vec![AstNode::LocalAssignment(
            "z".to_string(),
            Box::new(AstNode::Not(Box::new(AstNode::Boolean(true)))),
        )]),
        AstNode::Assignment(
            id("x"),
            Box::new(bin(bin(n("1"), "+", n("2")), "*", AstNode::Nil)),
        ),
    ];
    assert_eq!(body.len(), expected.len());
    for (got, want) in body.iter().zip(expected.iter()) {
        assert_eq!(got, want);
    }
}

#[test]
fn the_tree_of_a_text() {
    let trees = tokenize("x = f(1) + 2").expect("Tokenization failed");
    let expected = ParseNode::branch(
        Rule::Program,
        "x = f(1) + 2",
        vec![ParseNode::branch(
            Rule::Assignment,
            "x = f(1) + 2",
            vec![
                ident("x"),
                ParseNode::branch(
                    Rule::Expression,
                    "f(1) + 2",
                    vec![
                        ParseNode::branch(
                            Rule::FunctionCall,
                            "f(1)",
                            vec![ident("f"), ParseNode::branch(Rule::Expression, "1", vec![num("1")])],
                        ),
                        op(Rule::OpAdd, "+"),
                        num("2"),
                    ],
                ),
            ],
        )],
    );
    assert_eq!(trees, vec![expected]);
}

#[test]
fn texts_that_are_no_programs() {
    let offset = |source: &str| match tokenize(source) {
        Err(ParseError::Syntax { offset, .. }) => offset,
        other => panic!("{:?}", other),
    };
    assert_eq!(offset("x = "), 0);
    assert_eq!(offset("a = 1 b = = 2"), 6);
    assert_eq!(offset("end"), 0);
    assert_eq!(offset("1 = 2"), 0);
    assert_eq!(offset("f(1"), 1);
    assert_eq!(offset("x = 1\nwhile x do"), 6);
    assert_eq!(offset("local if = 1"), 0);
    assert_eq!(offset("   )"), 3);
}

#[test]
fn nesting_has_a_limit() {
    let shallow = format!("x = {}1{}", "(".repeat(20), ")".repeat(20));
    assert!(tokenize(&shallow).is_ok());
    let deep = format!("x = {}1{}", "(".repeat(400), ")".repeat(400));
    assert!(tokenize(&deep).is_err());
}

#[test]
fn text_outside_ascii_is_read_by_characters() {
    let body = statements("s = \"héllo wörld\"\nprint(s)");
    match &body[0] {
        AstNode::Assignment(_, v) => assert_eq!(**v, AstNode::String("héllo wörld".to_string())),
        other => panic!("{:?}", other),
    }
    match tokenize("x = 1 é") {
        Err(ParseError::Syntax { offset, .. }) => assert_eq!(offset, 6),
        other => panic!("{:?}", other),
    }
}

#[test]
fn the_message_of_an_error() {
    assert_eq!(shape(Rule::Term, "Empty expression").message(), "AST construction failed: Empty expression");
    let syntax = ParseError::Syntax { offset: 3, message: "unexpected input".to_string() };
    assert_eq!(syntax.message(), "unexpected input");
}

#[test]
fn climbing_stops_at_a_looser_operator() {
    // a * b + c - d
    let kids = vec![
        ident("a"),
        op(Rule::OpMul, "*"),
        ident("b"),
        op(Rule::OpAdd, "+"),
        ident("c"),
        op(Rule::OpSub, "-"),
        ident("d"),
    ];
    // from the start, taking only what binds as tightly as `*`
    assert_eq!(
        parse_expression_with_precedence(&kids, 0, 7),
        Ok((bin(*id("a"), "*", *id("b")), 1))
    );
    // from the start, taking everything
    assert_eq!(
        parse_expression_with_precedence(&kids, 0, 0),
        Ok((bin(bin(bin(*id("a"), "*", *id("b")), "+", *id("c")), "-", *id("d")), 3))
    );
    // from the second operand on
    assert_eq!(
        parse_expression_with_precedence(&kids, 1, 6),
        Ok((bin(bin(*id("b"), "+", *id("c")), "-", *id("d")), 3))
    );
    assert_eq!(parse_expression_with_precedence(&kids, 1, 7), Ok((*id("b"), 1)));
    assert_eq!(parse_expression_with_precedence(&kids, 3, 0), Ok((*id("d"), 3)));
}

#[test]
fn climbing_fails_only_on_operands_it_reaches() {
    // a * b + (no operand)
    let kids = vec![
        ident("a"),
        op(Rule::OpMul, "*"),
        ident("b"),
        op(Rule::OpAdd, "+"),
        expr(vec![]),
    ];
    assert_eq!(
        parse_expression_with_precedence(&kids, 0, 7),
        Ok((bin(*id("a"), "*", *id("b")), 1))
    );
    assert_eq!(
        parse_expression_with_precedence(&kids, 0, 0),
        Err(shape(Rule::Term, "Unexpected term rule"))
    );
    assert_eq!(
        parse_expression_with_precedence(&kids, 2, 0),
        Err(shape(Rule::Term, "Unexpected term rule"))
    );
}
