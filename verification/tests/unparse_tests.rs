use pickup_lang::ast::AstNode;
use pickup_lang::parser::{parse_expression, parse_statement, parse_to_ast, tokenize};
use pickup_lang::unparse::{tree_of_expression, tree_of_program, tree_of_statement, tree_of_term};

fn parse(source: &str) -> AstNode {
    parse_to_ast(tokenize(source).expect("Tokenization failed")).expect("Parsing failed")
}

fn reads_back(source: &str) {
    let ast = parse(source);
    let again = parse_to_ast(vec![tree_of_program(&ast)]).expect("Parsing the tree failed");
    assert_eq!(again, ast, "{}", source);
}

#[test]
fn literals_and_operators_read_back() {
    for source in [
        "x = 1",
        "x = -2.5",
        "s = \"\"",
        "s = \"a b \\ c\"",
        "b = true",
        "b = false",
        "n = nil",
        "x = 2 + 3 * 4",
        "x = (2 + 3) * 4",
        "x = 10 - 3 - 2",
        "x = 10 - (3 - 2)",
        "s = \"a\" .. \"b\" .. \"c\"",
        "c = a == b or a ~= b and not (a < b) or a <= b or a > b or a >= b",
        "m = a % b / c",
    ] {
        reads_back(source);
    }
}

#[test]
fn statements_of_every_kind_read_back() {
    reads_back(
        r#"
        import "math"
        local a = 1
        t = [1, x, [2, []], {k = 1, "two words" = {}}]
        t[0] = 2
        t[i + 1][j] = t[j]
        o.p.q = o.r
        o.f(1, 2).g = 3
        f()
        o.f(1, g(2))
        print(a)
        print()
        print(a, b)
        if a then b() elseif c then d() elseif e then else f() end
        if a then end
        while a do break continue end
        for i = 1, 2 do end
        for i = 1, 2, 3 do f() end
        for i = 1, 2 do f() x = 1 end
        function g(x, y) return x end
        function h() return end
        k = function(a) local b = a return function() return a + b end end
        try throw "e" catch err print(err) end
        try f() catch f() end
        try end
        do local z = not true end
        a + b
        x
        "#,
    );
}

#[test]
fn a_tree_is_built_for_each_position() {
    let ast = parse("x = a + f(b) * 2");
    let body = match &ast {
        AstNode::Program(body) => body,
        other => panic!("{:?}", other),
    };
    let value = match &body[0] {
        AstNode::Assignment(_, value) => value,
        other => panic!("{:?}", other),
    };
    assert_eq!(parse_statement(&tree_of_statement(&body[0])).as_ref(), Ok(&Some(parse_one(&ast))));
    assert_eq!(parse_expression(&tree_of_expression(value)).as_ref().ok(), Some(&**value));
    assert_eq!(parse_expression(&tree_of_term(value)).as_ref().ok(), Some(&**value));
}

fn parse_one(program: &AstNode) -> AstNode {
    match program {
        AstNode::Program(_) => match parse("x = a + f(b) * 2") {
            AstNode::Program(mut body) => body.remove(0),
            other => other,
        },
        _ => AstNode::Nil,
    }
}

#[test]
fn what_cannot_be_told_from_its_tree_does_not_read_back() {
    let lost = |ast: AstNode| {
        let program = AstNode::Program(vec![ast]);
        parse_to_ast(vec![tree_of_program(&program)]) != Ok(program)
    };
    let x = || Box::new(AstNode::Identifier("x".to_string()));
    assert!(lost(AstNode::FunctionCall("print".to_string(), vec![*x()])));
    assert!(lost(AstNode::Assignment(Box::new(AstNode::Number("1e5".to_string())), x())));
    assert!(lost(AstNode::Assignment(Box::new(AstNode::Nil), x())));
    assert!(lost(AstNode::For("i".to_string(), x(), x(), None, vec![*x()])));
    assert!(lost(AstNode::Not(Box::new(AstNode::Break))));
    assert!(!lost(AstNode::For(
        "i".to_string(),
        x(),
        x(),
        None,
        vec![AstNode::FunctionCall("f".to_string(), vec![])]
    )));
}
