use pickup_lang::interpreter::{execute_input, parse_source, Interpreter};
use pickup_lang::repl::{count_open_constructs, trim_text, Repl, ReplAction};
use pickup_lang::value::display;
use pickup_lang::vm::Request;
use pickup_lang::Value;

#[test]
fn open_constructs_are_counted_by_words_and_brackets() {
    assert_eq!(count_open_constructs(""), 0);
    assert_eq!(count_open_constructs("x = 1"), 0);
    assert_eq!(count_open_constructs("if x then"), 1);
    assert_eq!(count_open_constructs("if x then end"), 0);
    assert_eq!(count_open_constructs("while a do for i = 1, 2 do"), 2);
    assert_eq!(count_open_constructs("function f(a)"), 1);
    assert_eq!(count_open_constructs("try\tx\ncatch e"), 1);
    assert_eq!(count_open_constructs("end end end"), 0);
    assert_eq!(count_open_constructs("t = [1, {a = (2"), 3);
    assert_eq!(count_open_constructs("f(x)[1]{}"), 0);
    assert_eq!(count_open_constructs("if( x"), 1);
    assert_eq!(count_open_constructs("iffy endless"), 0);
    assert_eq!(count_open_constructs("if\u{3000}end if"), 1);
    assert_eq!(count_open_constructs(")))) if"), 0);
}

#[test]
fn trimming() {
    assert_eq!(trim_text("  a b \t\n"), "a b");
    assert_eq!(trim_text(""), "");
    assert_eq!(trim_text(" \u{a0}\u{2003} "), "");
    assert_eq!(trim_text("x"), "x");
    assert_eq!(trim_text("\u{feff}x"), "\u{feff}x");
}

#[test]
fn commands_are_words_on_a_line_of_their_own() {
    let mut repl = Repl::new();
    assert_eq!(repl.prompt(), ">>> ");
    assert_eq!(repl.feed("exit"), ReplAction::Exit);
    assert_eq!(repl.feed("  help "), ReplAction::Help);
    assert_eq!(repl.feed("clear"), ReplAction::Clear);
    assert_eq!(repl.feed("vars\t"), ReplAction::Vars);
    assert_eq!(repl.feed("exit now"), ReplAction::Execute("exit now".to_string()));
    assert_eq!(repl.feed(""), ReplAction::Skip);
    assert_eq!(repl.feed("   "), ReplAction::Skip);
}

#[test]
fn an_open_construct_asks_for_more() {
    let mut repl = Repl::new();
    assert_eq!(repl.feed("if x then"), ReplAction::More);
    assert_eq!(repl.prompt(), "... ");
    assert_eq!(repl.feed("exit"), ReplAction::More);
    assert_eq!(repl.feed("while y do"), ReplAction::More);
    assert_eq!(repl.feed("end"), ReplAction::More);
    assert_eq!(
        repl.feed("end"),
        ReplAction::Execute("if x then\nexit\nwhile y do\nend\nend".to_string())
    );
    assert_eq!(repl.prompt(), ">>> ");
    assert_eq!(repl.feed("exit"), ReplAction::Exit);
}

#[test]
fn a_backslash_joins_lines() {
    let mut repl = Repl::new();
    assert_eq!(repl.feed("x = 1 +\\"), ReplAction::More);
    assert_eq!(repl.prompt(), "... ");
    assert_eq!(repl.feed("\\"), ReplAction::More);
    assert_eq!(repl.feed("2"), ReplAction::Execute("x = 1 +\n\n2".to_string()));
    assert_eq!(repl.feed("\\"), ReplAction::More);
    assert_eq!(repl.feed(""), ReplAction::Skip);
}

fn number(x: f64) -> Value {
    Value::Number(x.to_bits(), format!("{}", x))
}

#[test]
fn an_interpreter_runs_inputs_one_after_the_other() {
    let mut interpreter = Interpreter::new();
    match execute_input(&mut interpreter, "x = 20", 100) {
        Ok(Request::Literal(text)) => assert_eq!(text, "20"),
        other => panic!("{:?}", other),
    }
    assert!(matches!(interpreter.resume(Some(number(20.0)), 100), Request::Finished(Value::Nil)));
    assert_eq!(display(&Value::Dictionary(interpreter.globals())), "{x = 20}");
    match execute_input(&mut interpreter, "print(\"x is \" .. x)", 100) {
        Ok(Request::Print(line)) => assert_eq!(line, "x is 20"),
        other => panic!("{:?}", other),
    }
    assert!(matches!(interpreter.resume(None, 100), Request::Finished(Value::Nil)));
    match execute_input(&mut interpreter, "x = = 1", 100) {
        Err(message) => assert_eq!(message, "unexpected input"),
        other => panic!("{:?}", other),
    }
    assert_eq!(display(&Value::Dictionary(interpreter.globals())), "{x = 20}");
    interpreter.clear_globals();
    assert_eq!(display(&Value::Dictionary(interpreter.globals())), "{}");
}

#[test]
fn an_interpreter_with_modules() {
    let modules = vec![("m".to_string(), Value::Module(vec![("k".to_string(), number(7.0))]))];
    let mut interpreter = Interpreter::with_modules(modules);
    let ast = parse_source("import \"m\"\nm.k").expect("Parsing failed");
    match interpreter.run_ast(&ast, 100) {
        Request::Finished(v) => assert_eq!(display(&v), "7"),
        other => panic!("{:?}", other),
    }
    let ast = parse_source("m.k").expect("Parsing failed");
    match interpreter.run_ast(&ast, 100) {
        Request::Finished(v) => assert_eq!(display(&v), "7"),
        other => panic!("{:?}", other),
    }
}
