use pickup_lang::compiler;
use pickup_lang::compiler::{Instruction, Value, Vm};
use pickup_lang::machine::Operation;
use pickup_lang::parser;
use pickup_lang::vm::Request;

// The host of these tests: it does for the machine what only a host can do.

fn number(x: f64) -> Value {
    Value::Number(x.to_bits(), format!("{}", x))
}

fn float(value: &Value) -> f64 {
    match value {
        Value::Number(bits, _) => f64::from_bits(*bits),
        _ => f64::NAN,
    }
}

fn text(value: &Value) -> String {
    pickup_lang::value::display(value)
}

fn native(name: &str, function: &str) -> (String, Value) {
    (function.to_string(), Value::NativeFunction(name.to_string(), function.to_string()))
}

fn registry() -> Vec<(String, Value)> {
    let math = Value::Module(vec![
        ("pi".to_string(), number(std::f64::consts::PI)),
        ("e".to_string(), number(std::f64::consts::E)),
        native("math", "floor"),
        native("math", "ceil"),
        native("math", "sqrt"),
        native("math", "abs"),
    ]);
    let mut modules = vec![("math".to_string(), math)];
    for name in ["string", "json", "fs", "array", "type", "os"] {
        modules.push((name.to_string(), Value::Module(Vec::new())));
    }
    modules
}

fn call_native(module: &str, function: &str, args: &Vec<Value>) -> Value {
    let first = args.first();
    match (module, function, first) {
        ("math", "floor", Some(x)) => number(float(x).floor()),
        ("math", "ceil", Some(x)) => number(float(x).ceil()),
        ("math", "sqrt", Some(x)) => number(float(x).sqrt()),
        ("math", "abs", Some(x)) => number(float(x).abs()),
        ("string", "upper", Some(Value::String(s))) => Value::String(s.to_uppercase()),
        ("string", "lower", Some(Value::String(s))) => Value::String(s.to_lowercase()),
        ("string", "length", Some(Value::String(s))) => number(s.chars().count() as f64),
        ("string", "split", Some(Value::String(s))) => match args.get(1) {
            Some(Value::String(by)) => {
                Value::Table(s.split(by.as_str()).map(|p| Value::String(p.to_string())).collect())
            }
            _ => Value::Nil,
        },
        ("string", "contains", Some(Value::String(s))) => match args.get(1) {
            Some(Value::String(part)) => Value::Boolean(s.contains(part.as_str())),
            _ => Value::Nil,
        },
        ("string", "replace", Some(Value::String(s))) => match (args.get(1), args.get(2)) {
            (Some(Value::String(from)), Some(Value::String(to))) => {
                Value::String(s.replace(from.as_str(), to))
            }
            _ => Value::Nil,
        },
        ("array", "length", Some(Value::Table(items))) => number(items.len() as f64),
        ("array", "push", Some(Value::Table(items))) => {
            let mut out: Vec<Value> = items.iter().map(pickup_lang::value::copy_value).collect();
            if let Some(x) = args.get(1) {
                out.push(pickup_lang::value::copy_value(x));
            }
            Value::Table(out)
        }
        ("array", "reverse", Some(Value::Table(items))) => {
            Value::Table(items.iter().rev().map(pickup_lang::value::copy_value).collect())
        }
        ("array", "range", Some(from)) => match args.get(1) {
            Some(to) => {
                let mut out = Vec::new();
                let mut i = float(from);
                while i < float(to) {
                    out.push(number(i));
                    i += 1.0;
                }
                Value::Table(out)
            }
            None => Value::Nil,
        },
        ("array", "sort", Some(Value::Table(items))) => {
            let mut out: Vec<Value> = items.iter().map(pickup_lang::value::copy_value).collect();
            out.sort_by(|a, b| float(a).partial_cmp(&float(b)).unwrap_or(std::cmp::Ordering::Equal));
            Value::Table(out)
        }
        ("type", "typeof", Some(x)) => Value::String(
            match x {
                Value::Number(_, _) => "number",
                Value::String(_) => "string",
                Value::Boolean(_) => "boolean",
                Value::Nil => "nil",
                Value::Table(_) => "table",
                Value::Dictionary(_) => "dictionary",
                Value::Function(_, _, _) => "function",
                Value::NativeFunction(_, _) => "function",
                Value::Module(_) => "module",
            }
            .to_string(),
        ),
        ("type", "tonumber", Some(Value::String(s))) => match s.trim().parse::<f64>() {
            Ok(x) => number(x),
            Err(_) => Value::Nil,
        },
        ("type", "tostring", Some(x)) => Value::String(text(x)),
        ("json", "stringify", Some(x)) => Value::String(text(x)),
        ("os", "time", _) => number(1_700_000_000.0),
        _ => Value::Nil,
    }
}

fn arithmetic(op: Operation, a: &Value, b: &Value) -> Value {
    let (x, y) = (float(a), float(b));
    number(match op {
        Operation::Add => x + y,
        Operation::Sub => x - y,
        Operation::Mul => x * y,
        Operation::Div => x / y,
        Operation::Mod => x % y,
        Operation::Negate => -x,
    })
}

/// Runs a program to its end and gives what it printed and how it ended.
fn run(code: &Vec<Instruction>) -> (Vec<String>, Request) {
    let mut vm = Vm::new(registry());
    let mut printed = Vec::new();
    let mut reply: Option<Value> = None;
    let mut rounds = 0;
    loop {
        rounds += 1;
        assert!(rounds < 1_000_000, "the program does not end");
        match vm.execute(code, reply.take(), 1000) {
            Request::Continue => {}
            Request::Print(line) => {
                println!("{}", line);
                printed.push(line);
            }
            Request::Literal(literal) => reply = Some(number(literal.parse::<f64>().unwrap())),
            Request::Arithmetic(op, a, b) => reply = Some(arithmetic(op, &a, &b)),
            Request::Native(module, function, args) => {
                reply = Some(call_native(&module, &function, &args))
            }
            done => return (printed, done),
        }
    }
}

/// Reads, parses, compiles and runs a source text; gives what it printed.
fn output(source: &str) -> Vec<String> {
    let tokens = parser::tokenize(source).expect("Tokenization failed");
    let ast = parser::parse_to_ast(tokens).expect("Parsing failed");
    let bytecode = compiler::Compiler::compile(&ast);
    let (printed, end) = run(&bytecode);
    assert!(matches!(end, Request::Finished(_)), "ended with {:?}", end);
    printed
}


// ==================== BASIC LANGUAGE FEATURES ====================

#[test]
fn test_arithmetic_operations() {
    let source = r#"
        x = 10
        y = 5
        z = x + y
        print(z)
    "#;

    let tokens = parser::tokenize(source).expect("Tokenization failed");
    let ast = parser::parse_to_ast(tokens).expect("Parsing failed");
    let bytecode = compiler::Compiler::compile(&ast);
    run(&bytecode);
}

#[test]
fn test_modulo_operator() {
    let source = r#"
        x = 10 % 3
        print(x)
    "#;

    let tokens = parser::tokenize(source).expect("Tokenization failed");
    let ast = parser::parse_to_ast(tokens).expect("Parsing failed");
    let bytecode = compiler::Compiler::compile(&ast);
    run(&bytecode);
}

#[test]
fn test_string_concatenation() {
    let source = r#"
        greeting = "Hello"
        name = "World"
        message = greeting .. ", " .. name
        print(message)
    "#;

    let tokens = parser::tokenize(source).expect("Tokenization failed");
    let ast = parser::parse_to_ast(tokens).expect("Parsing failed");
    let bytecode = compiler::Compiler::compile(&ast);
    run(&bytecode);
}

#[test]
fn test_array_operations() {
    let source = r#"
        arr = [1, 2, 3, 4, 5]
        first = arr[0]
        last = arr[4]
        print(first)
        print(last)
    "#;

    let tokens = parser::tokenize(source).expect("Tokenization failed");
    let ast = parser::parse_to_ast(tokens).expect("Parsing failed");
    let bytecode = compiler::Compiler::compile(&ast);
    run(&bytecode);
}

#[test]
fn test_nil_value() {
    let source = r#"
        x = nil
        print(x)
    "#;

    let tokens = parser::tokenize(source).expect("Tokenization failed");
    let ast = parser::parse_to_ast(tokens).expect("Parsing failed");
    let bytecode = compiler::Compiler::compile(&ast);
    run(&bytecode);
}

// ==================== CONTROL FLOW ====================

#[test]
fn test_if_statement() {
    let source = r#"
        x = 10
        if x > 5 then
            print("x is greater than 5")
        end
    "#;

    let tokens = parser::tokenize(source).expect("Tokenization failed");
    let ast = parser::parse_to_ast(tokens).expect("Parsing failed");
    let bytecode = compiler::Compiler::compile(&ast);
    run(&bytecode);
}

#[test]
fn test_if_else_statement() {
    let source = r#"
        x = 3
        if x > 5 then
            print("x is greater than 5")
        else
            print("x is not greater than 5")
        end
    "#;

    let tokens = parser::tokenize(source).expect("Tokenization failed");
    let ast = parser::parse_to_ast(tokens).expect("Parsing failed");
    let bytecode = compiler::Compiler::compile(&ast);
    run(&bytecode);
}

#[test]
fn test_if_elseif_else_statement() {
    let source = r#"
        score = 75
        if score >= 90 then
            print("A")
        elseif score >= 80 then
            print("B")
        elseif score >= 70 then
            print("C")
        else
            print("D")
        end
    "#;

    let tokens = parser::tokenize(source).expect("Tokenization failed");
    let ast = parser::parse_to_ast(tokens).expect("Parsing failed");
    let bytecode = compiler::Compiler::compile(&ast);
    run(&bytecode);
}

// ==================== LOOPS ====================

#[test]
fn test_while_loop() {
    let source = r#"
        i = 1
        while i <= 3 do
            print(i)
            i = i + 1
        end
    "#;

    let tokens = parser::tokenize(source).expect("Tokenization failed");
    let ast = parser::parse_to_ast(tokens).expect("Parsing failed");
    let bytecode = compiler::Compiler::compile(&ast);
    run(&bytecode);
}

#[test]
fn test_for_loop() {
    let source = r#"
        for i = 1, 5 do
            print(i)
        end
    "#;

    let tokens = parser::tokenize(source).expect("Tokenization failed");
    let ast = parser::parse_to_ast(tokens).expect("Parsing failed");
    let bytecode = compiler::Compiler::compile(&ast);
    run(&bytecode);
}

#[test]
fn test_for_loop_with_step() {
    let source = r#"
        for i = 0, 10, 2 do
            print(i)
        end
    "#;

    let tokens = parser::tokenize(source).expect("Tokenization failed");
    let ast = parser::parse_to_ast(tokens).expect("Parsing failed");
    let bytecode = compiler::Compiler::compile(&ast);
    run(&bytecode);
}

#[test]
fn test_break_statement() {
    let source = r#"
        i = 1
        while i <= 10 do
            if i == 5 then
                break
            end
            print(i)
            i = i + 1
        end
    "#;

    let tokens = parser::tokenize(source).expect("Tokenization failed");
    let ast = parser::parse_to_ast(tokens).expect("Parsing failed");
    let bytecode = compiler::Compiler::compile(&ast);
    run(&bytecode);
}

#[test]
fn test_continue_statement() {
    let source = r#"
        for i = 1, 5 do
            if i == 3 then
                continue
            end
            print(i)
        end
    "#;

    let tokens = parser::tokenize(source).expect("Tokenization failed");
    let ast = parser::parse_to_ast(tokens).expect("Parsing failed");
    let bytecode = compiler::Compiler::compile(&ast);
    run(&bytecode);
}

// ==================== OPERATORS ====================

#[test]
fn test_comparison_operators() {
    let source = r#"
        a = 10
        b = 20
        eq = a == b
        neq = a ~= b
        lt = a < b
        gt = a > b
        le = a <= b
        ge = a >= b
    "#;

    let tokens = parser::tokenize(source).expect("Tokenization failed");
    let ast = parser::parse_to_ast(tokens).expect("Parsing failed");
    let bytecode = compiler::Compiler::compile(&ast);
    run(&bytecode);
}

#[test]
fn test_logical_operators() {
    let source = r#"
        t = true
        f = false
        andresult = t and f
        orresult = t or f
        notresult = not f
        print(andresult)
        print(orresult)
        print(notresult)
    "#;

    let tokens = parser::tokenize(source).expect("Tokenization failed");
    let ast = parser::parse_to_ast(tokens).expect("Parsing failed");
    let bytecode = compiler::Compiler::compile(&ast);
    run(&bytecode);
}

#[test]
fn test_operator_precedence() {
    let source = r#"
        x = 15
        in_range = x >= 10 and x <= 20
        age = 25
        is_adult = age >= 18 and age < 65
        result = 2 + 3 * 4
        check = 5 + 5 == 10
        print(result)
    "#;

    let tokens = parser::tokenize(source).expect("Tokenization failed");
    let ast = parser::parse_to_ast(tokens).expect("Parsing failed");
    let bytecode = compiler::Compiler::compile(&ast);
    run(&bytecode);
}

// ==================== FUNCTIONS ====================

#[test]
fn test_function_definition_and_call() {
    let source = r#"
        function add(a, b)
            result = a + b
            return result
        end

        sum = add(5, 3)
        print(sum)
    "#;

    let tokens = parser::tokenize(source).expect("Tokenization failed");
    let ast = parser::parse_to_ast(tokens).expect("Parsing failed");
    let bytecode = compiler::Compiler::compile(&ast);
    run(&bytecode);
}

#[test]
fn test_function_with_string_return() {
    let source = r#"
        function greet(name)
            message = "Hello, " .. name
            return message
        end

        greeting = greet("World")
        print(greeting)
    "#;

    let tokens = parser::tokenize(source).expect("Tokenization failed");
    let ast = parser::parse_to_ast(tokens).expect("Parsing failed");
    let bytecode = compiler::Compiler::compile(&ast);
    run(&bytecode);
}

#[test]
fn test_recursive_function() {
    let source = r#"
        function factorial(n)
            if n <= 1 then
                return 1
            else
                return n * factorial(n - 1)
            end
        end

        result = factorial(5)
        print(result)
    "#;

    let tokens = parser::tokenize(source).expect("Tokenization failed");
    let ast = parser::parse_to_ast(tokens).expect("Parsing failed");
    let bytecode = compiler::Compiler::compile(&ast);
    run(&bytecode);
}

#[test]
fn test_fibonacci() {
    let source = r#"
        function fib(n)
            if n <= 1 then
                return n
            else
                return fib(n - 1) + fib(n - 2)
            end
        end

        result = fib(10)
        print(result)
    "#;

    let tokens = parser::tokenize(source).expect("Tokenization failed");
    let ast = parser::parse_to_ast(tokens).expect("Parsing failed");
    let bytecode = compiler::Compiler::compile(&ast);
    run(&bytecode);
}

// ==================== LOCAL VARIABLES ====================

#[test]
fn test_local_variable() {
    let source = r#"
        local x = 10
        local y = 20
        local z = x + y
        print(z)
    "#;

    let tokens = parser::tokenize(source).expect("Tokenization failed");
    let ast = parser::parse_to_ast(tokens).expect("Parsing failed");
    let bytecode = compiler::Compiler::compile(&ast);
    run(&bytecode);
}

// ==================== DICTIONARIES ====================

#[test]
fn test_dictionary_literal() {
    let source = r#"
        person = {name = "John", age = 30}
        print(person)
    "#;

    let tokens = parser::tokenize(source).expect("Tokenization failed");
    let ast = parser::parse_to_ast(tokens).expect("Parsing failed");
    let bytecode = compiler::Compiler::compile(&ast);
    run(&bytecode);
}

// ==================== MODULES AND DOT NOTATION ====================

#[test]
fn test_module_import() {
    let source = r#"
        import "math"
        import "string"
        import "json"
        import "fs"
        import "array"
        import "type"
        import "os"
    "#;

    let tokens = parser::tokenize(source).expect("Tokenization failed");
    let ast = parser::parse_to_ast(tokens).expect("Parsing failed");
    let bytecode = compiler::Compiler::compile(&ast);
    run(&bytecode);
}

#[test]
fn test_math_module_constants() {
    let source = r#"
        import "math"
        pi = math.pi
        e = math.e
        print(pi)
        print(e)
    "#;

    let tokens = parser::tokenize(source).expect("Tokenization failed");
    let ast = parser::parse_to_ast(tokens).expect("Parsing failed");
    let bytecode = compiler::Compiler::compile(&ast);
    run(&bytecode);
}

#[test]
fn test_math_module_functions() {
    let source = r#"
        import "math"
        result = math.floor(3.7)
        print(result)
        result = math.ceil(3.2)
        print(result)
        result = math.sqrt(16)
        print(result)
        result = math.abs(-5)
        print(result)
    "#;

    let tokens = parser::tokenize(source).expect("Tokenization failed");
    let ast = parser::parse_to_ast(tokens).expect("Parsing failed");
    let bytecode = compiler::Compiler::compile(&ast);
    run(&bytecode);
}

#[test]
fn test_string_module_functions() {
    let source = r#"
        import "string"
        result = string.upper("hello")
        print(result)
        result = string.lower("HELLO")
        print(result)
        result = string.length("hello")
        print(result)
    "#;

    let tokens = parser::tokenize(source).expect("Tokenization failed");
    let ast = parser::parse_to_ast(tokens).expect("Parsing failed");
    let bytecode = compiler::Compiler::compile(&ast);
    run(&bytecode);
}

#[test]
fn test_string_split() {
    let source = r#"
        import "string"
        parts = string.split("a,b,c", ",")
        print(parts)
    "#;

    let tokens = parser::tokenize(source).expect("Tokenization failed");
    let ast = parser::parse_to_ast(tokens).expect("Parsing failed");
    let bytecode = compiler::Compiler::compile(&ast);
    run(&bytecode);
}

#[test]
fn test_string_contains() {
    let source = r#"
        import "string"
        result = string.contains("hello world", "world")
        print(result)
    "#;

    let tokens = parser::tokenize(source).expect("Tokenization failed");
    let ast = parser::parse_to_ast(tokens).expect("Parsing failed");
    let bytecode = compiler::Compiler::compile(&ast);
    run(&bytecode);
}

#[test]
fn test_string_replace() {
    let source = r#"
        import "string"
        result = string.replace("hello world", "world", "Pickup")
        print(result)
    "#;

    let tokens = parser::tokenize(source).expect("Tokenization failed");
    let ast = parser::parse_to_ast(tokens).expect("Parsing failed");
    let bytecode = compiler::Compiler::compile(&ast);
    run(&bytecode);
}

#[test]
fn test_array_module() {
    let source = r#"
        import "array"
        arr = [1, 2, 3]
        length = array.length(arr)
        print(length)
        arr2 = array.push(arr, 4)
        print(arr2)
        arr3 = array.reverse(arr)
        print(arr3)
    "#;

    let tokens = parser::tokenize(source).expect("Tokenization failed");
    let ast = parser::parse_to_ast(tokens).expect("Parsing failed");
    let bytecode = compiler::Compiler::compile(&ast);
    run(&bytecode);
}

#[test]
fn test_array_range() {
    let source = r#"
        import "array"
        nums = array.range(1, 5)
        print(nums)
    "#;

    let tokens = parser::tokenize(source).expect("Tokenization failed");
    let ast = parser::parse_to_ast(tokens).expect("Parsing failed");
    let bytecode = compiler::Compiler::compile(&ast);
    run(&bytecode);
}

#[test]
fn test_array_sort() {
    let source = r#"
        import "array"
        arr = [3, 1, 4, 1, 5, 9, 2, 6]
        sorted = array.sort(arr)
        print(sorted)
    "#;

    let tokens = parser::tokenize(source).expect("Tokenization failed");
    let ast = parser::parse_to_ast(tokens).expect("Parsing failed");
    let bytecode = compiler::Compiler::compile(&ast);
    run(&bytecode);
}

#[test]
fn test_type_module() {
    let source = r#"
        import "type"
        t1 = type.typeof(42)
        t2 = type.typeof("hello")
        t3 = type.typeof(true)
        print(t1)
        print(t2)
        print(t3)
    "#;

    let tokens = parser::tokenize(source).expect("Tokenization failed");
    let ast = parser::parse_to_ast(tokens).expect("Parsing failed");
    let bytecode = compiler::Compiler::compile(&ast);
    run(&bytecode);
}

#[test]
fn test_type_conversions() {
    let source = r#"
        import "type"
        num = type.tonumber("42")
        str = type.tostring(42)
        print(num)
        print(str)
    "#;

    let tokens = parser::tokenize(source).expect("Tokenization failed");
    let ast = parser::parse_to_ast(tokens).expect("Parsing failed");
    let bytecode = compiler::Compiler::compile(&ast);
    run(&bytecode);
}

#[test]
fn test_json_module() {
    let source = r#"
        import "json"
        str = json.stringify([1, 2, 3])
        print(str)
    "#;

    let tokens = parser::tokenize(source).expect("Tokenization failed");
    let ast = parser::parse_to_ast(tokens).expect("Parsing failed");
    let bytecode = compiler::Compiler::compile(&ast);
    run(&bytecode);
}

#[test]
fn test_os_module() {
    let source = r#"
        import "os"
        t = os.time()
        print(t)
    "#;

    let tokens = parser::tokenize(source).expect("Tokenization failed");
    let ast = parser::parse_to_ast(tokens).expect("Parsing failed");
    let bytecode = compiler::Compiler::compile(&ast);
    run(&bytecode);
}

// ==================== ERROR HANDLING ====================

#[test]
fn test_try_catch() {
    let source = r#"
        try
            print("In try block")
            throw "Custom error"
        catch e
            print("Caught error: " .. e)
        end
    "#;

    let tokens = parser::tokenize(source).expect("Tokenization failed");
    let ast = parser::parse_to_ast(tokens).expect("Parsing failed");
    let bytecode = compiler::Compiler::compile(&ast);
    run(&bytecode);
}

#[test]
fn test_try_catch_no_throw() {
    let source = r#"
        try
            x = 10
            print(x)
        catch e
            print("This should not print")
        end
    "#;

    let tokens = parser::tokenize(source).expect("Tokenization failed");
    let ast = parser::parse_to_ast(tokens).expect("Parsing failed");
    let bytecode = compiler::Compiler::compile(&ast);
    run(&bytecode);
}

// ==================== COMPLEX PROGRAMS ====================

#[test]
fn test_prime_checker() {
    let source = r#"
        function isPrime(n)
            if n <= 1 then
                return false
            end
            if n <= 3 then
                return true
            end
            i = 2
            while i * i <= n do
                if n % i == 0 then
                    return false
                end
                i = i + 1
            end
            return true
        end

        print(isPrime(7))
        print(isPrime(10))
        print(isPrime(17))
    "#;

    let tokens = parser::tokenize(source).expect("Tokenization failed");
    let ast = parser::parse_to_ast(tokens).expect("Parsing failed");
    let bytecode = compiler::Compiler::compile(&ast);
    run(&bytecode);
}

#[test]
fn test_complex_expressions() {
    let source = r#"
        result = (5 + 3) * 2 - 4 / 2
        print(result)
        check = ((10 > 5) and (3 < 7)) or false
        print(check)
    "#;

    let tokens = parser::tokenize(source).expect("Tokenization failed");
    let ast = parser::parse_to_ast(tokens).expect("Parsing failed");
    let bytecode = compiler::Compiler::compile(&ast);
    run(&bytecode);
}

#[test]
fn test_nested_function_calls() {
    let source = r#"
        function double(x)
            return x * 2
        end

        function square(x)
            return x * x
        end

        result = double(square(3))
        print(result)
    "#;

    let tokens = parser::tokenize(source).expect("Tokenization failed");
    let ast = parser::parse_to_ast(tokens).expect("Parsing failed");
    let bytecode = compiler::Compiler::compile(&ast);
    run(&bytecode);
}

#[test]
fn test_nested_loops() {
    let source = r#"
        for i = 1, 3 do
            for j = 1, 3 do
                print(i * j)
            end
        end
    "#;

    let tokens = parser::tokenize(source).expect("Tokenization failed");
    let ast = parser::parse_to_ast(tokens).expect("Parsing failed");
    let bytecode = compiler::Compiler::compile(&ast);
    run(&bytecode);
}

#[test]
fn test_array_sum() {
    let source = r#"
        arr = [1, 2, 3, 4, 5]
        sum = 0
        i = 0
        while i < 5 do
            sum = sum + arr[i]
            i = i + 1
        end
        print(sum)
    "#;

    let tokens = parser::tokenize(source).expect("Tokenization failed");
    let ast = parser::parse_to_ast(tokens).expect("Parsing failed");
    let bytecode = compiler::Compiler::compile(&ast);
    run(&bytecode);
}

// ==================== WHAT PROGRAMS PRINT ====================

#[test]
fn multiplication_binds_tighter_than_addition() {
    assert_eq!(output("print(2 + 3 * 4)"), vec!["14"]);
    assert_eq!(output("print(2 * 3 + 4)"), vec!["10"]);
    assert_eq!(output("print((2 + 3) * 4)"), vec!["20"]);
}

#[test]
fn subtraction_associates_to_the_left() {
    assert_eq!(output("print(10 - 3 - 2)"), vec!["5"]);
    assert_eq!(output("print(100 / 10 / 5)"), vec!["2"]);
    assert_eq!(output("print(2 + 3 * 4 - 5)"), vec!["9"]);
}

#[test]
fn concatenation_joins_in_order() {
    assert_eq!(output("print(\"a\" .. \"b\" .. \"c\")"), vec!["abc"]);
    assert_eq!(output("print(\"n = \" .. 1 + 2)"), vec!["n = 3"]);
}

#[test]
fn comparison_and_boolean_operators() {
    assert_eq!(output("print(5 + 5 == 10)"), vec!["true"]);
    assert_eq!(output("print(not false)"), vec!["true"]);
    assert_eq!(output("print(1 < 2 and 2 < 1)"), vec!["false"]);
    assert_eq!(output("print(1 < 2 or 2 < 1)"), vec!["true"]);
    assert_eq!(output("print(\"abc\" < \"abd\")"), vec!["true"]);
    assert_eq!(output("print(3 ~= 3)"), vec!["false"]);
    assert_eq!(output("print(3 >= 3)"), vec!["true"]);
}

#[test]
fn local_does_not_leak_out_of_a_block() {
    let source = r#"
        x = 1
        if true then
            local x = 2
            print(x)
        end
        print(x)
        i = 0
        while i < 1 do
            local y = 5
            i = i + 1
        end
        print(y)
    "#;
    assert_eq!(output(source), vec!["2", "1", "nil"]);
}

#[test]
fn assignment_in_a_block_changes_the_outer_binding() {
    let source = r#"
        x = 1
        local z = 10
        if true then
            x = 2
            z = 20
        end
        print(x)
        print(z)
    "#;
    assert_eq!(output(source), vec!["2", "20"]);
}

#[test]
fn recursion_computes_factorial_and_fibonacci() {
    let source = r#"
        function factorial(n)
            if n <= 1 then
                return 1
            else
                return n * factorial(n - 1)
            end
        end
        function fib(n)
            if n <= 1 then
                return n
            else
                return fib(n - 1) + fib(n - 2)
            end
        end
        print(factorial(5))
        print(fib(10))
    "#;
    assert_eq!(output(source), vec!["120", "55"]);
}

#[test]
fn continue_skips_and_break_leaves() {
    let skip = "for i = 1,5 do if i==3 then continue end print(i) end";
    assert_eq!(output(skip), vec!["1", "2", "4", "5"]);
    let leave = r#"
        i = 1
        while i <= 10 do
            if i == 5 then
                break
            end
            print(i)
            i = i + 1
        end
    "#;
    assert_eq!(output(leave), vec!["1", "2", "3", "4"]);
}

#[test]
fn throw_goes_to_catch_and_execution_goes_on() {
    let source = r#"
        try
            print("before")
            throw "boom"
            print("not reached")
        catch e
            print("caught " .. e)
        end
        print("after")
    "#;
    assert_eq!(output(source), vec!["before", "caught boom", "after"]);
}

#[test]
fn try_without_throw_skips_catch() {
    let source = r#"
        try
            print("fine")
        catch e
            print("never")
        end
        print("after")
    "#;
    assert_eq!(output(source), vec!["fine", "after"]);
}

#[test]
fn throw_in_a_call_is_caught_by_the_caller() {
    let source = r#"
        function fail(x)
            local inside = 1
            throw "bad " .. x
        end
        try
            fail(7)
        catch e
            print(e)
        end
        print(inside)
    "#;
    assert_eq!(output(source), vec!["bad 7", "nil"]);
}

#[test]
fn uncaught_throw_ends_the_program() {
    let tokens = parser::tokenize("print(1)\nthrow \"oops\"\nprint(2)").expect("Tokenization failed");
    let ast = parser::parse_to_ast(tokens).expect("Parsing failed");
    let (printed, end) = run(&compiler::Compiler::compile(&ast));
    assert_eq!(printed, vec!["1"]);
    match end {
        Request::Uncaught(Value::String(s)) => assert_eq!(s, "oops"),
        other => panic!("ended with {:?}", other),
    }
}

#[test]
fn for_with_a_step_visits_every_second_number() {
    let source = "for i = 0,10,2 do print(i) end";
    assert_eq!(output(source), vec!["0", "2", "4", "6", "8", "10"]);
    assert_eq!(output("for i = 1, 3 do print(i) end"), vec!["1", "2", "3"]);
    assert_eq!(output("for i = 5, 1 do print(i) end"), Vec::<String>::new());
}

#[test]
fn break_inside_nested_blocks_unwinds_scopes_and_handlers() {
    let source = r#"
        for i = 1, 3 do
            try
                if i == 2 then
                    local t = i
                    break
                end
                print(i)
            catch e
                print("never")
            end
        end
        try
            throw "x"
        catch e
            print("outer " .. e)
        end
    "#;
    assert_eq!(output(source), vec!["1", "outer x"]);
}

#[test]
fn closures_capture_their_free_variables() {
    let source = r#"
        function counter(start)
            local step = 2
            return function(n)
                return start + step * n
            end
        end
        f = counter(10)
        print(f(3))
        g = function(a, b) return a .. b end
        print(g("x"))
    "#;
    assert_eq!(output(source), vec!["16", "xnil"]);
}

#[test]
fn missing_arguments_are_nil_and_extra_ones_ignored() {
    let source = r#"
        function two(a, b)
            return b
        end
        print(two(1))
        print(two(1, 2, 3))
        print(nothing(1))
    "#;
    assert_eq!(output(source), vec!["nil", "2", "nil"]);
}

#[test]
fn tables_and_dictionaries() {
    let source = r#"
        arr = [1, 2, 3]
        arr[1] = 20
        arr[3] = 4
        print(arr)
        print(arr[0] + arr[1])
        print(arr[9])
        person = {name = "John", "age" = 30}
        person.age = 31
        person["city"] = "Rome"
        print(person)
        print(person.name .. " " .. person["age"])
        copy = arr
        copy[0] = 100
        print(arr[0])
    "#;
    assert_eq!(
        output(source),
        vec![
            "[1, 20, 3, 4]",
            "21",
            "nil",
            "{name = John, age = 31, city = Rome}",
            "John 31",
            "1",
        ]
    );
}

#[test]
fn truthiness_counts_only_false_and_nil_as_false() {
    let source = r#"
        if 0 then print("zero") end
        if "" then print("empty") end
        if [] then print("table") end
        if nil then print("nil") else print("not nil") end
        if false then print("false") elseif true then print("second") else print("third") end
    "#;
    assert_eq!(output(source), vec!["zero", "empty", "table", "not nil", "second"]);
}

#[test]
fn mismatched_operands_give_nil() {
    assert_eq!(output("print(1 + \"a\")"), vec!["nil"]);
    assert_eq!(output("print(undefined)"), vec!["nil"]);
    assert_eq!(output("print(1 < \"a\")"), vec!["nil"]);
    assert_eq!(output("import \"nowhere\"\nprint(nowhere.f(1))"), vec!["nil"]);
}

#[test]
fn modules_give_constants_and_native_functions() {
    let source = r#"
        import "math"
        import "string"
        print(math.floor(3.7))
        print(math.abs(-5))
        print(string.upper("hello"))
        f = math.sqrt
        print(f(16))
        print(math.pi > 3.14)
    "#;
    assert_eq!(output(source), vec!["3", "5", "HELLO", "4", "true"]);
}

#[test]
fn the_value_of_a_program_is_its_last_expression() {
    let tokens = parser::tokenize("x = 20\nx + 1").expect("Tokenization failed");
    let ast = parser::parse_to_ast(tokens).expect("Parsing failed");
    let (_, end) = run(&compiler::Compiler::compile(&ast));
    match end {
        Request::Finished(Value::Number(bits, shown)) => {
            assert_eq!(f64::from_bits(bits), 21.0);
            assert_eq!(shown, "21");
        }
        other => panic!("ended with {:?}", other),
    }
    let tokens = parser::tokenize("x = 20").expect("Tokenization failed");
    let ast = parser::parse_to_ast(tokens).expect("Parsing failed");
    let (_, end) = run(&compiler::Compiler::compile(&ast));
    assert!(matches!(end, Request::Finished(Value::Nil)));
}

#[test]
fn syntax_errors_carry_the_offset() {
    match parser::tokenize("x = 1\ny = = 2") {
        Err(parser::ParseError::Syntax { offset, message }) => {
            assert_eq!(offset, 6);
            assert_eq!(message, "unexpected input");
        }
        other => panic!("got {:?}", other),
    }
    assert!(parser::tokenize("if x then print(1)").is_err());
    assert!(parser::tokenize("print(\"open").is_err());
    assert!(parser::tokenize("").is_ok());
}
