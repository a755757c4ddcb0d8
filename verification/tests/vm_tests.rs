use pickup_lang::compiler::{Instruction, Value, Vm};
use pickup_lang::machine::{Operation, Order};
use pickup_lang::value::{
    copy_value, display, is_truthy, number_less, numbers_equal, values_equal,
};
use pickup_lang::vm::{
    compare_less, compare_less_equal, find_binding, get_binding, index_from, index_into,
    member_of, put_binding, sort_order, store_into, store_member_into, text_less, Request,
};

fn number(x: f64) -> Value {
    Value::Number(x.to_bits(), format!("{}", x))
}

fn string(text: &str) -> Value {
    Value::String(text.to_string())
}

fn s(text: &str) -> String {
    text.to_string()
}

fn shown(request: &Request) -> String {
    format!("{:?}", request)
}

#[test]
fn numbers_compare_as_doubles() {
    let bits = |x: f64| x.to_bits();
    let samples = [
        f64::NEG_INFINITY,
        -1.0e300,
        -2.5,
        -1.0,
        -f64::MIN_POSITIVE,
        -0.0,
        0.0,
        f64::MIN_POSITIVE,
        0.1,
        1.0,
        2.5,
        1.0e300,
        f64::INFINITY,
        f64::NAN,
        -f64::NAN,
    ];
    for a in samples {
        for b in samples {
            assert_eq!(numbers_equal(bits(a), bits(b)), a == b, "{} == {}", a, b);
            assert_eq!(number_less(bits(a), bits(b)), a < b, "{} < {}", a, b);
        }
    }
}

#[test]
fn strings_compare_by_their_bytes() {
    let samples = ["", "a", "ab", "abc", "abd", "b", "B", "é", "z", "日本"];
    for a in samples {
        for b in samples {
            assert_eq!(text_less(a, b), a < b, "{:?} < {:?}", a, b);
        }
    }
}

#[test]
fn comparison_is_nil_between_unlike_values() {
    assert!(matches!(compare_less(&number(1.0), &number(2.0)), Value::Boolean(true)));
    assert!(matches!(compare_less(&number(2.0), &number(2.0)), Value::Boolean(false)));
    assert!(matches!(compare_less_equal(&number(2.0), &number(2.0)), Value::Boolean(true)));
    assert!(matches!(compare_less_equal(&number(f64::NAN), &number(2.0)), Value::Boolean(false)));
    assert!(matches!(compare_less(&string("a"), &string("b")), Value::Boolean(true)));
    assert!(matches!(compare_less_equal(&string("b"), &string("a")), Value::Boolean(false)));
    assert!(matches!(compare_less(&string("a"), &number(1.0)), Value::Nil));
    assert!(matches!(compare_less_equal(&Value::Nil, &Value::Nil), Value::Nil));
}

#[test]
fn equality_is_structural() {
    let table = |items: Vec<Value>| Value::Table(items);
    assert!(values_equal(&number(0.0), &number(-0.0)));
    assert!(!values_equal(&number(f64::NAN), &number(f64::NAN)));
    assert!(values_equal(&Value::Number(1.0f64.to_bits(), s("1")), &Value::Number(1.0f64.to_bits(), s("1.0"))));
    assert!(values_equal(&string("a"), &string("a")));
    assert!(!values_equal(&string("a"), &string("b")));
    assert!(!values_equal(&string("1"), &number(1.0)));
    assert!(values_equal(&Value::Nil, &Value::Nil));
    assert!(!values_equal(&Value::Nil, &Value::Boolean(false)));
    assert!(values_equal(
        &table(vec![number(1.0), table(vec![string("x")])]),
        &table(vec![number(1.0), table(vec![string("x")])])
    ));
    assert!(!values_equal(&table(vec![number(1.0)]), &table(vec![number(1.0), number(2.0)])));
    assert!(!values_equal(&table(vec![number(1.0)]), &table(vec![number(2.0)])));
    let dict = |k: &str, v: Value| Value::Dictionary(vec![(s(k), v)]);
    assert!(values_equal(&dict("a", number(1.0)), &dict("a", number(1.0))));
    assert!(!values_equal(&dict("a", number(1.0)), &dict("b", number(1.0))));
    assert!(!values_equal(&dict("a", number(1.0)), &Value::Module(vec![(s("a"), number(1.0))])));
    let f = |entry: usize| Value::Function(vec![s("x")], entry, vec![(s("k"), number(1.0))]);
    assert!(values_equal(&f(3), &f(3)));
    assert!(!values_equal(&f(3), &f(4)));
    let native = |name: &str| Value::NativeFunction(s("math"), s(name));
    assert!(values_equal(&native("floor"), &native("floor")));
    assert!(!values_equal(&native("floor"), &native("ceil")));
    let copy = copy_value(&table(vec![number(1.0), dict("a", f(1))]));
    assert!(values_equal(&copy, &table(vec![number(1.0), dict("a", f(1))])));
}

#[test]
fn only_false_and_nil_are_falsy() {
    assert!(!is_truthy(&Value::Nil));
    assert!(!is_truthy(&Value::Boolean(false)));
    assert!(is_truthy(&Value::Boolean(true)));
    assert!(is_truthy(&number(0.0)));
    assert!(is_truthy(&string("")));
    assert!(is_truthy(&Value::Table(vec![])));
    assert!(is_truthy(&Value::Dictionary(vec![])));
}

#[test]
fn display_forms() {
    assert_eq!(display(&number(14.0)), "14");
    assert_eq!(display(&number(0.5)), "0.5");
    assert_eq!(display(&string("a b")), "a b");
    assert_eq!(display(&Value::Boolean(true)), "true");
    assert_eq!(display(&Value::Boolean(false)), "false");
    assert_eq!(display(&Value::Nil), "nil");
    assert_eq!(display(&Value::Table(vec![])), "[]");
    assert_eq!(
        display(&Value::Table(vec![number(1.0), string("x"), Value::Table(vec![Value::Nil])])),
        "[1, x, [nil]]"
    );
    assert_eq!(display(&Value::Dictionary(vec![])), "{}");
    assert_eq!(
        display(&Value::Dictionary(vec![(s("a"), number(1.0)), (s("b"), Value::Boolean(true))])),
        "{a = 1, b = true}"
    );
    assert_eq!(display(&Value::Function(vec![], 0, vec![])), "<function>");
    assert_eq!(display(&Value::NativeFunction(s("math"), s("floor"))), "<native math.floor>");
    assert_eq!(display(&Value::Module(vec![])), "<module>");
}

#[test]
fn bindings() {
    let mut fields = vec![(s("a"), number(1.0)), (s("b"), number(2.0)), (s("a"), number(3.0))];
    assert_eq!(find_binding(&fields, "a"), 0);
    assert_eq!(find_binding(&fields, "b"), 1);
    assert_eq!(find_binding(&fields, "c"), 3);
    assert_eq!(display(&get_binding(&fields, "a")), "1");
    assert_eq!(display(&get_binding(&fields, "c")), "nil");
    put_binding(&mut fields, "b", string("x"));
    put_binding(&mut fields, "c", string("y"));
    assert_eq!(display(&Value::Dictionary(fields)), "{a = 1, b = x, a = 3, c = y}");
}

#[test]
fn an_index_is_a_number_shown_in_digits() {
    assert_eq!(index_from(&number(0.0)), Some(0));
    assert_eq!(index_from(&number(42.0)), Some(42));
    assert_eq!(index_from(&number(1.0e15)), Some(1_000_000_000_000_000));
    assert_eq!(index_from(&number(1.5)), None);
    assert_eq!(index_from(&number(-1.0)), None);
    assert_eq!(index_from(&number(-0.0)), None);
    assert_eq!(index_from(&number(1.0e300)), None);
    assert_eq!(index_from(&number(f64::NAN)), None);
    assert_eq!(index_from(&string("1")), None);
    assert_eq!(index_from(&Value::Number(0, s(""))), None);
}

#[test]
fn reading_and_writing_parts() {
    let table = Value::Table(vec![number(10.0), number(20.0)]);
    assert_eq!(display(&index_into(&table, &number(1.0))), "20");
    assert_eq!(display(&index_into(&table, &number(2.0))), "nil");
    assert_eq!(display(&index_into(&table, &string("0"))), "nil");
    assert_eq!(display(&index_into(&string("abc"), &number(0.0))), "nil");
    let table = store_into(table, &number(0.0), string("x"));
    let table = store_into(table, &number(2.0), string("y"));
    let table = store_into(table, &number(9.0), string("z"));
    assert_eq!(display(&table), "[x, 20, y]");
    let dict = Value::Dictionary(vec![(s("a"), number(1.0))]);
    assert_eq!(display(&index_into(&dict, &string("a"))), "1");
    assert_eq!(display(&index_into(&dict, &string("b"))), "nil");
    assert_eq!(display(&member_of(&dict, "a")), "1");
    assert_eq!(display(&member_of(&number(1.0), "a")), "nil");
    let dict = store_into(dict, &string("b"), number(2.0));
    let dict = store_into(dict, &number(7.0), number(3.0));
    let dict = store_member_into(dict, "a", string("new"));
    assert_eq!(display(&dict), "{a = new, b = 2, 7 = 3}");
    assert_eq!(display(&store_member_into(number(5.0), "a", Value::Nil)), "5");
    assert_eq!(display(&store_into(Value::Nil, &number(0.0), number(1.0))), "nil");
}

#[test]
fn the_machine_asks_for_literals_and_arithmetic() {
    let code = vec![
        Instruction::PushNumber(s("2")),
        Instruction::PushNumber(s("3")),
        Instruction::Add,
    ];
    let mut vm = Vm::new(vec![]);
    assert_eq!(shown(&vm.step(&code, None)), "Literal(\"2\")");
    assert_eq!(shown(&vm.step(&code, Some(number(2.0)))), "Continue");
    assert_eq!(shown(&vm.step(&code, None)), "Literal(\"3\")");
    assert_eq!(shown(&vm.step(&code, Some(number(3.0)))), "Continue");
    match vm.step(&code, None) {
        Request::Arithmetic(Operation::Add, a, b) => {
            assert_eq!(display(&a), "2");
            assert_eq!(display(&b), "3");
        }
        other => panic!("{:?}", other),
    }
    assert_eq!(shown(&vm.step(&code, Some(number(5.0)))), "Continue");
    match vm.step(&code, None) {
        Request::Finished(v) => assert_eq!(display(&v), "5"),
        other => panic!("{:?}", other),
    }
    match vm.step(&code, Some(number(9.0))) {
        Request::Finished(v) => assert_eq!(display(&v), "5"),
        other => panic!("{:?}", other),
    }
}

#[test]
fn a_missing_reply_counts_as_nil() {
    let code = vec![Instruction::PushNumber(s("2"))];
    let mut vm = Vm::new(vec![]);
    assert_eq!(shown(&vm.step(&code, None)), "Literal(\"2\")");
    assert_eq!(shown(&vm.step(&code, None)), "Continue");
    assert_eq!(shown(&vm.step(&code, None)), "Finished(Nil)");
}

#[test]
fn arithmetic_on_anything_but_numbers_is_nil() {
    for op in [
        Instruction::Add,
        Instruction::Sub,
        Instruction::Mul,
        Instruction::Div,
        Instruction::Mod,
    ] {
        let code = vec![Instruction::PushString(s("a")), Instruction::PushNil, op];
        let mut vm = Vm::new(vec![]);
        assert_eq!(shown(&vm.execute(&code, None, 10)), "Finished(Nil)");
    }
    let code = vec![Instruction::PushNil, Instruction::Negate];
    assert_eq!(shown(&Vm::new(vec![]).execute(&code, None, 10)), "Finished(Nil)");
    let code = vec![Instruction::Add];
    assert_eq!(shown(&Vm::new(vec![]).execute(&code, None, 10)), "Finished(Nil)");
}

#[test]
fn negation_is_the_hosts_work() {
    let code = vec![Instruction::PushNumber(s("2")), Instruction::Negate];
    let mut vm = Vm::new(vec![]);
    assert_eq!(shown(&vm.execute(&code, None, 10)), "Literal(\"2\")");
    match vm.execute(&code, Some(number(2.0)), 10) {
        Request::Arithmetic(Operation::Negate, a, Value::Nil) => assert_eq!(display(&a), "2"),
        other => panic!("{:?}", other),
    }
    match vm.execute(&code, Some(number(-2.0)), 10) {
        Request::Finished(v) => assert_eq!(display(&v), "-2"),
        other => panic!("{:?}", other),
    }
}

#[test]
fn the_budget_bounds_the_steps() {
    let code = vec![Instruction::Jump(0)];
    let mut vm = Vm::new(vec![]);
    assert_eq!(shown(&vm.execute(&code, None, 0)), "Continue");
    assert_eq!(shown(&vm.execute(&code, None, 1000)), "Continue");
    let code = vec![Instruction::PushNil, Instruction::PushBoolean(true)];
    let mut vm = Vm::new(vec![]);
    assert_eq!(shown(&vm.execute(&code, None, 2)), "Continue");
    assert_eq!(shown(&vm.execute(&code, None, 1)), "Finished(Boolean(true))");
}

#[test]
fn a_call_of_something_that_is_no_function_is_nil() {
    let code = vec![Instruction::PushNil, Instruction::PushNil, Instruction::Call(1)];
    assert_eq!(shown(&Vm::new(vec![]).execute(&code, None, 10)), "Finished(Nil)");
    let code = vec![Instruction::PushNil, Instruction::Call(3)];
    assert_eq!(shown(&Vm::new(vec![]).execute(&code, None, 10)), "Finished(Nil)");
}

#[test]
fn a_native_function_is_called_through_the_host() {
    let registry = vec![(
        s("m"),
        Value::Module(vec![(s("f"), Value::NativeFunction(s("m"), s("f")))]),
    )];
    let code = vec![
        Instruction::Import(s("m")),
        Instruction::LoadGlobal(s("m")),
        Instruction::LoadMember(s("f")),
        Instruction::PushString(s("a")),
        Instruction::PushString(s("b")),
        Instruction::Call(2),
        Instruction::PushString(s("x")),
        Instruction::NativeCall(s("n"), s("g"), 1),
    ];
    let mut vm = Vm::new(registry);
    match vm.execute(&code, None, 100) {
        Request::Native(module, function, args) => {
            assert_eq!((module.as_str(), function.as_str()), ("m", "f"));
            assert_eq!(display(&Value::Table(args)), "[a, b]");
        }
        other => panic!("{:?}", other),
    }
    match vm.execute(&code, Some(string("r")), 100) {
        Request::Native(module, function, args) => {
            assert_eq!((module.as_str(), function.as_str()), ("n", "g"));
            assert_eq!(display(&Value::Table(args)), "[x]");
        }
        other => panic!("{:?}", other),
    }
    assert_eq!(shown(&vm.execute(&code, Some(Value::Nil), 100)), "Finished(Nil)");
    assert_eq!(display(&Value::Dictionary(vm.globals())), "{m = <module>}");
}

#[test]
fn return_at_top_level_ends_the_program() {
    let code = vec![
        Instruction::PushString(s("a")),
        Instruction::PushString(s("b")),
        Instruction::Return,
        Instruction::PushString(s("c")),
    ];
    assert_eq!(shown(&Vm::new(vec![]).execute(&code, None, 10)), "Finished(String(\"b\"))");
}

#[test]
fn restart_keeps_the_globals() {
    let code = vec![Instruction::PushBoolean(true), Instruction::StoreGlobal(s("g"))];
    let mut vm = Vm::new(vec![]);
    assert_eq!(shown(&vm.execute(&code, None, 10)), "Finished(Nil)");
    vm.restart();
    let code = vec![Instruction::LoadGlobal(s("g"))];
    assert_eq!(shown(&vm.execute(&code, None, 10)), "Finished(Boolean(true))");
    vm.clear_globals();
    vm.restart();
    assert_eq!(shown(&vm.execute(&code, None, 10)), "Finished(Nil)");
}

#[test]
fn stack_instructions_on_an_empty_stack() {
    for instruction in [
        Instruction::Pop,
        Instruction::ExitScope,
        Instruction::PopHandler,
        Instruction::Break,
        Instruction::Continue,
        Instruction::Nop,
    ] {
        assert_eq!(shown(&Vm::new(vec![]).execute(&vec![instruction], None, 10)), "Finished(Nil)");
    }
    for instruction in [
        Instruction::Concat,
        Instruction::MakeTable(2),
        Instruction::MakeDictionary(1),
        Instruction::LoadIndex,
        Instruction::StoreIndex,
        Instruction::NativeCall(s("m"), s("f"), 1),
        Instruction::LoadMember(s("a")),
    ] {
        let code = vec![instruction];
        let mut vm = Vm::new(vec![]);
        let end = vm.execute(&code, None, 10);
        assert!(matches!(end, Request::Finished(_)), "{:?} gave {:?}", code, end);
    }
    let code = vec![Instruction::Throw];
    assert_eq!(shown(&Vm::new(vec![]).execute(&code, None, 10)), "Uncaught(Nil)");
}

#[test]
fn the_order_for_sorting() {
    assert_eq!(sort_order(&number(1.0), &number(2.0)), Order::Less);
    assert_eq!(sort_order(&number(2.0), &number(1.0)), Order::Greater);
    assert_eq!(sort_order(&number(0.0), &number(-0.0)), Order::Equal);
    assert_eq!(sort_order(&number(f64::NAN), &number(1.0)), Order::Equal);
    assert_eq!(sort_order(&string("a"), &string("b")), Order::Less);
    assert_eq!(sort_order(&string("b"), &string("a")), Order::Greater);
    assert_eq!(sort_order(&string("a"), &string("a")), Order::Equal);
    assert_eq!(sort_order(&string("a"), &number(1.0)), Order::Equal);
    assert_eq!(sort_order(&Value::Nil, &Value::Boolean(true)), Order::Equal);
    let mut items = vec![number(3.0), number(1.0), number(2.0)];
    items.sort_by(|a, b| match sort_order(a, b) {
        Order::Less => std::cmp::Ordering::Less,
        Order::Equal => std::cmp::Ordering::Equal,
        Order::Greater => std::cmp::Ordering::Greater,
    });
    assert_eq!(display(&Value::Table(items)), "[1, 2, 3]");
}
