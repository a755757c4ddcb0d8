//! What the virtual machine does, stated over mathematical values: the state
//! of the machine and the step it takes on each instruction.
use vstd::prelude::*;
use vstd::utf8::encode_utf8;
use crate::bytecode::Instr;
use crate::value::{Val, display_spec, number_eq, number_lt, truthy, val_eq};

verus! {

/// Names and what they are bound to, in the order in which they were bound.
pub type Bindings = Seq<(Seq<char>, Val)>;

/// What a call set aside: where to return to, how deep the operand stack
/// was, and the caller's scopes and closure environment.
pub struct FrameView {
    pub return_to: int,
    pub base: int,
    pub scopes: Seq<Bindings>,
    pub env: Bindings,
}

/// An active try region: where its handler stands and how deep the operand
/// stack, the scope stack and the call stack were when it was entered.
pub struct HandlerView {
    pub target: int,
    pub stack_depth: int,
    pub scope_depth: int,
    pub frame_depth: int,
}

/// The state of the machine.
pub struct Machine {
    /// The offset of the next instruction.
    pub ip: int,
    /// The operand stack, top last.
    pub stack: Seq<Val>,
    pub globals: Bindings,
    /// The scopes of the running call, innermost last.
    pub scopes: Seq<Bindings>,
    /// What the running closure captured.
    pub env: Bindings,
    /// The calls that wait for the running one, innermost last.
    pub frames: Seq<FrameView>,
    pub handlers: Seq<HandlerView>,
    /// The modules that `import` can bring in.
    pub registry: Bindings,
    /// Whether the machine has asked the host for a value and waits for it.
    pub awaiting: bool,
}

/// An arithmetic operation that the host performs.
#[derive(Clone, Copy, Debug, PartialEq, Eq, Structural)]
pub enum Operation {
    Add,
    Sub,
    Mul,
    Div,
    Mod,
    Negate,
}

/// What the machine asks of its host after a step.
pub enum Req {
    /// Nothing: take the next step.
    Continue,
    /// Print this line.
    Print(Seq<char>),
    /// Hand in the number that this literal stands for.
    Literal(Seq<char>),
    /// Hand in the result of the operation on these numbers.
    Arithmetic(Operation, Val, Val),
    /// Call this native function and hand in what it returns.
    Native(Seq<char>, Seq<char>, Seq<Val>),
    /// The program has ended with this value.
    Finished(Val),
    /// The program has ended with this value thrown and not caught.
    Uncaught(Val),
}

/// A machine at the start of a program.
pub open spec fn initial_machine(registry: Bindings) -> Machine {
    Machine {
        ip: 0,
        stack: Seq::empty(),
        globals: Seq::empty(),
        scopes: seq![Seq::empty()],
        env: Seq::empty(),
        frames: Seq::empty(),
        handlers: Seq::empty(),
        registry,
        awaiting: false,
    }
}

// ---------------------------------------------------------------------------
// Stacks
// ---------------------------------------------------------------------------

/// The value `k` below the top of the stack; nil where the stack is too
/// short.
pub open spec fn peek(stack: Seq<Val>, k: int) -> Val {
    if 0 <= k < stack.len() {
        stack[stack.len() - 1 - k]
    } else {
        Val::Nil
    }
}

/// A sequence without its last `n` items, or empty where it is too short.
pub open spec fn drop_top<T>(s: Seq<T>, n: int) -> Seq<T> {
    if 0 <= n <= s.len() {
        s.subrange(0, s.len() - n)
    } else {
        Seq::empty()
    }
}

/// The first `n` items of a sequence, or all of it where it is shorter.
pub open spec fn keep<T>(s: Seq<T>, n: int) -> Seq<T> {
    if 0 <= n <= s.len() {
        s.subrange(0, n)
    } else {
        s
    }
}

/// The last `n` items of a sequence.
pub open spec fn top<T>(s: Seq<T>, n: int) -> Seq<T> {
    s.subrange(s.len() - n, s.len() as int)
}

// ---------------------------------------------------------------------------
// Bindings
// ---------------------------------------------------------------------------

/// The first index from `i` on that binds `name`, or the length.
pub open spec fn field_index(fields: Bindings, name: Seq<char>, i: int) -> int
    decreases fields.len() - i,
{
    if 0 <= i < fields.len() && fields[i].0 != name {
        field_index(fields, name, i + 1)
    } else {
        i
    }
}

/// Whether a name is bound.
pub open spec fn has_field(fields: Bindings, name: Seq<char>) -> bool {
    0 <= field_index(fields, name, 0) < fields.len()
}

/// What `name` is bound to; nil where it is not bound.
pub open spec fn get_field(fields: Bindings, name: Seq<char>) -> Val {
    if has_field(fields, name) {
        fields[field_index(fields, name, 0)].1
    } else {
        Val::Nil
    }
}

/// The bindings with `name` bound to `value`: in place where it was bound,
/// at the end where it was not.
pub open spec fn put_field(fields: Bindings, name: Seq<char>, value: Val) -> Bindings {
    if has_field(fields, name) {
        fields.update(field_index(fields, name, 0), (name, value))
    } else {
        fields.push((name, value))
    }
}

/// The innermost of the first `hi` scopes that binds `name`, or -1.
pub open spec fn find_scope(scopes: Seq<Bindings>, hi: int, name: Seq<char>) -> int
    decreases hi,
{
    if hi <= 0 || hi > scopes.len() {
        -1
    } else if has_field(scopes[hi - 1], name) {
        hi - 1
    } else {
        find_scope(scopes, hi - 1, name)
    }
}

/// What a local name stands for: the innermost scope of the running call
/// that binds it, else what the closure captured, else the global, else nil.
pub open spec fn load_local(m: Machine, name: Seq<char>) -> Val {
    let at = find_scope(m.scopes, m.scopes.len() as int, name);
    if 0 <= at < m.scopes.len() {
        get_field(m.scopes[at], name)
    } else if has_field(m.env, name) {
        get_field(m.env, name)
    } else {
        get_field(m.globals, name)
    }
}

/// What a closure captures for a name: its binding in the running call or
/// in the running closure's own captures, if there is one.
pub open spec fn captured(m: Machine, name: Seq<char>) -> Option<Val> {
    let at = find_scope(m.scopes, m.scopes.len() as int, name);
    if 0 <= at < m.scopes.len() {
        Some(get_field(m.scopes[at], name))
    } else if has_field(m.env, name) {
        Some(get_field(m.env, name))
    } else {
        None
    }
}

/// The captured bindings for the first `hi` of the names.
pub open spec fn capture_env(m: Machine, names: Seq<Seq<char>>, hi: int) -> Bindings
    decreases hi,
{
    if hi <= 0 || hi > names.len() {
        Seq::empty()
    } else {
        match captured(m, names[hi - 1]) {
            Some(v) => capture_env(m, names, hi - 1).push((names[hi - 1], v)),
            None => capture_env(m, names, hi - 1),
        }
    }
}

/// Assignment to a local name: into the innermost scope that binds it, else
/// into the closure's captures if they bind it, else into the globals.
pub open spec fn store_local(m: Machine, name: Seq<char>, value: Val) -> Machine {
    let at = find_scope(m.scopes, m.scopes.len() as int, name);
    if 0 <= at < m.scopes.len() {
        Machine { scopes: m.scopes.update(at, put_field(m.scopes[at], name, value)), ..m }
    } else if has_field(m.env, name) {
        Machine { env: put_field(m.env, name, value), ..m }
    } else {
        Machine { globals: put_field(m.globals, name, value), ..m }
    }
}

/// A new binding in the innermost scope.
pub open spec fn declare_local(scopes: Seq<Bindings>, name: Seq<char>, value: Val) -> Seq<
    Bindings,
> {
    if scopes.len() == 0 {
        seq![seq![(name, value)]]
    } else {
        scopes.update(scopes.len() - 1, put_field(scopes.last(), name, value))
    }
}

/// The scope of a call: each parameter bound to its argument, or to nil
/// where the arguments run out.
pub open spec fn bind_params(params: Seq<Seq<char>>, args: Seq<Val>) -> Bindings {
    Seq::new(
        params.len(),
        |i: int|
            (
                params[i],
                if i < args.len() {
                    args[i]
                } else {
                    Val::Nil
                },
            ),
    )
}

// ---------------------------------------------------------------------------
// Operators
// ---------------------------------------------------------------------------

/// Whether one byte string comes before another, byte by byte from `i` on.
pub open spec fn bytes_lt(a: Seq<u8>, b: Seq<u8>, i: int) -> bool
    decreases b.len() - i,
{
    if !(0 <= i < b.len()) {
        false
    } else if i >= a.len() {
        true
    } else if a[i] != b[i] {
        a[i] < b[i]
    } else {
        bytes_lt(a, b, i + 1)
    }
}

/// The order of strings: that of their UTF-8 bytes.
pub open spec fn text_lt(a: Seq<char>, b: Seq<char>) -> bool {
    bytes_lt(encode_utf8(a), encode_utf8(b), 0)
}

/// `a < b`: defined between two numbers and between two strings, nil
/// otherwise.
pub open spec fn less(a: Val, b: Val) -> Val {
    match (a, b) {
        (Val::Number(x, _), Val::Number(y, _)) => Val::Boolean(number_lt(x, y)),
        (Val::String(x), Val::String(y)) => Val::Boolean(text_lt(x, y)),
        _ => Val::Nil,
    }
}

/// `a <= b`: defined between two numbers and between two strings, nil
/// otherwise.
pub open spec fn less_equal(a: Val, b: Val) -> Val {
    match (a, b) {
        (Val::Number(x, _), Val::Number(y, _)) => Val::Boolean(
            number_lt(x, y) || number_eq(x, y),
        ),
        (Val::String(x), Val::String(y)) => Val::Boolean(!text_lt(y, x)),
        _ => Val::Nil,
    }
}

/// How two values stand to each other in a sorted table.
#[derive(Clone, Copy, Debug, PartialEq, Eq, Structural)]
pub enum Order {
    Less,
    Equal,
    Greater,
}

/// The order used for sorting: defined between two numbers and between two
/// strings; any other two values, and any number and a NaN, count as equal.
pub open spec fn order_spec(a: Val, b: Val) -> Order {
    match (a, b) {
        (Val::Number(x, _), Val::Number(y, _)) => if number_lt(x, y) {
            Order::Less
        } else if number_lt(y, x) {
            Order::Greater
        } else {
            Order::Equal
        },
        (Val::String(x), Val::String(y)) => if text_lt(x, y) {
            Order::Less
        } else if text_lt(y, x) {
            Order::Greater
        } else {
            Order::Equal
        },
        _ => Order::Equal,
    }
}

/// A decimal digit.
pub open spec fn is_digit_char(c: char) -> bool {
    '0' <= c && c <= '9'
}

/// The number that the first `hi` characters spell in decimal, where they
/// are digits and the number is small enough to index with.
pub open spec fn decimal_value(text: Seq<char>, hi: int) -> Option<int>
    decreases hi,
{
    if hi <= 0 || hi > text.len() {
        Some(0)
    } else {
        match decimal_value(text, hi - 1) {
            Some(before) => if is_digit_char(text[hi - 1]) && before <= 1_000_000_000_000_000 {
                Some(before * 10 + (text[hi - 1] as int - '0' as int))
            } else {
                None
            },
            None => None,
        }
    }
}

/// The index that a key stands for: a number whose display text is all
/// digits.
pub open spec fn index_of(key: Val) -> Option<int> {
    match key {
        Val::Number(_, text) => if text.len() > 0 {
            decimal_value(text, text.len() as int)
        } else {
            None
        },
        _ => None,
    }
}

/// The name that a key stands for in a dictionary: its display text.
pub open spec fn key_text(key: Val) -> Seq<char> {
    display_spec(key)
}

/// `container[key]`; nil where there is no such element.
pub open spec fn index_value(container: Val, key: Val) -> Val {
    match container {
        Val::Table(items) => match index_of(key) {
            Some(i) => if i < items.len() {
                items[i]
            } else {
                Val::Nil
            },
            None => Val::Nil,
        },
        Val::Dictionary(fields) => get_field(fields, key_text(key)),
        Val::Module(fields) => get_field(fields, key_text(key)),
        _ => Val::Nil,
    }
}

/// The container with `container[key]` set: a table takes an index up to its
/// length, where it grows by one; any other container stays as it is.
pub open spec fn store_index(container: Val, key: Val, value: Val) -> Val {
    match container {
        Val::Table(items) => match index_of(key) {
            Some(i) => if i < items.len() {
                Val::Table(items.update(i, value))
            } else if i == items.len() {
                Val::Table(items.push(value))
            } else {
                container
            },
            None => container,
        },
        Val::Dictionary(fields) => Val::Dictionary(put_field(fields, key_text(key), value)),
        Val::Module(fields) => Val::Module(put_field(fields, key_text(key), value)),
        _ => container,
    }
}

/// `container.name`; nil where there is no such member.
pub open spec fn member_value(container: Val, name: Seq<char>) -> Val {
    match container {
        Val::Dictionary(fields) => get_field(fields, name),
        Val::Module(fields) => get_field(fields, name),
        _ => Val::Nil,
    }
}

/// The container with `container.name` set.
pub open spec fn store_member(container: Val, name: Seq<char>, value: Val) -> Val {
    match container {
        Val::Dictionary(fields) => Val::Dictionary(put_field(fields, name, value)),
        Val::Module(fields) => Val::Module(put_field(fields, name, value)),
        _ => container,
    }
}

/// The dictionary of the first `count` pairs of `items`, which holds keys
/// and values in turn; a later pair replaces an earlier one of the same key.
pub open spec fn build_fields(items: Seq<Val>, count: int) -> Bindings
    decreases count,
{
    if count <= 0 || 2 * count > items.len() {
        Seq::empty()
    } else {
        put_field(
            build_fields(items, count - 1),
            key_text(items[2 * (count - 1)]),
            items[2 * (count - 1) + 1],
        )
    }
}

// ---------------------------------------------------------------------------
// Steps
// ---------------------------------------------------------------------------

/// The machine at the next instruction.
pub open spec fn advance(m: Machine) -> Machine {
    Machine { ip: m.ip + 1, ..m }
}

/// The machine with another operand stack.
pub open spec fn with_stack(m: Machine, stack: Seq<Val>) -> Machine {
    Machine { stack, ..m }
}

/// Push a value and go on.
pub open spec fn push_next(m: Machine, value: Val) -> (Machine, Req) {
    (advance(with_stack(m, m.stack.push(value))), Req::Continue)
}

/// Go on to the next instruction, waiting for the host's value.
pub open spec fn ask(m: Machine, req: Req) -> (Machine, Req) {
    (Machine { awaiting: true, ip: m.ip + 1, ..m }, req)
}

/// A binary operator on the two top values.
pub open spec fn binary(m: Machine, result: Val) -> (Machine, Req) {
    push_next(with_stack(m, drop_top(m.stack, 2)), result)
}

/// Arithmetic on the two top values: the host's work between two numbers,
/// nil otherwise.
pub open spec fn arithmetic(m: Machine, op: Operation) -> (Machine, Req) {
    let a = peek(m.stack, 1);
    let b = peek(m.stack, 0);
    if a is Number && b is Number {
        ask(with_stack(m, drop_top(m.stack, 2)), Req::Arithmetic(op, a, b))
    } else {
        binary(m, Val::Nil)
    }
}

/// Negation of the top value: the host's work on a number, nil otherwise.
pub open spec fn negate(m: Machine) -> (Machine, Req) {
    let a = peek(m.stack, 0);
    if a is Number {
        ask(with_stack(m, drop_top(m.stack, 1)), Req::Arithmetic(Operation::Negate, a, Val::Nil))
    } else {
        push_next(with_stack(m, drop_top(m.stack, 1)), Val::Nil)
    }
}

/// A call with `n` arguments: a closure runs in a new frame whose one scope
/// binds its parameters; a native function is the host's work; anything else
/// yields nil.
pub open spec fn call(m: Machine, n: int) -> (Machine, Req) {
    if !(0 <= n < m.stack.len()) {
        push_next(m, Val::Nil)
    } else {
        let args = top(m.stack, n);
        let callee = m.stack[m.stack.len() - n - 1];
        let rest = m.stack.subrange(0, m.stack.len() - n - 1);
        match callee {
            Val::Function(params, entry, env) => (
                Machine {
                    ip: entry,
                    stack: rest,
                    scopes: seq![bind_params(params, args)],
                    env,
                    frames: m.frames.push(
                        FrameView {
                            return_to: m.ip + 1,
                            base: rest.len() as int,
                            scopes: m.scopes,
                            env: m.env,
                        },
                    ),
                    ..m
                },
                Req::Continue,
            ),
            Val::NativeFunction(module, name) => ask(
                with_stack(m, rest),
                Req::Native(module, name, args),
            ),
            _ => push_next(with_stack(m, rest), Val::Nil),
        }
    }
}

/// The handlers without those at the top that a call at this depth or
/// deeper entered.
pub open spec fn prune(handlers: Seq<HandlerView>, depth: int) -> Seq<HandlerView>
    decreases handlers.len(),
{
    if handlers.len() > 0 && handlers.last().frame_depth >= depth {
        prune(handlers.drop_last(), depth)
    } else {
        handlers
    }
}

/// Return of a value: it goes to the caller's stack, cut back to where the
/// call found it, and the caller's scopes come back. At top level the
/// program ends with the value.
pub open spec fn ret(m: Machine, value: Val, end: int) -> (Machine, Req) {
    if m.frames.len() == 0 {
        (Machine { ip: end, stack: seq![value], ..m }, Req::Continue)
    } else {
        let f = m.frames.last();
        (
            Machine {
                ip: f.return_to,
                stack: keep(m.stack, f.base).push(value),
                scopes: f.scopes,
                env: f.env,
                frames: m.frames.drop_last(),
                handlers: prune(m.handlers, m.frames.len() as int),
                ..m
            },
            Req::Continue,
        )
    }
}

/// Throw: control goes to the innermost handler. The call stack, the scope
/// stack and the operand stack are cut back to where the handler's try
/// region was entered, and the thrown value is pushed. With no handler the
/// program ends: the machine is back at top level, past the end of the code.
pub open spec fn throw(m: Machine, value: Val, end: int) -> (Machine, Req)
    decreases m.handlers.len(),
{
    if m.handlers.len() == 0 {
        (
            Machine {
                ip: end,
                stack: Seq::empty(),
                scopes: if m.frames.len() > 0 {
                    m.frames[0].scopes
                } else {
                    m.scopes
                },
                env: if m.frames.len() > 0 {
                    m.frames[0].env
                } else {
                    m.env
                },
                frames: Seq::empty(),
                ..m
            },
            Req::Uncaught(value),
        )
    } else {
        let h = m.handlers.last();
        if !(0 <= h.frame_depth <= m.frames.len()) {
            throw(Machine { handlers: m.handlers.drop_last(), ..m }, value, end)
        } else {
            let here = h.frame_depth == m.frames.len();
            (
                Machine {
                    ip: h.target,
                    stack: keep(m.stack, h.stack_depth).push(value),
                    scopes: keep(
                        if here {
                            m.scopes
                        } else {
                            m.frames[h.frame_depth].scopes
                        },
                        h.scope_depth,
                    ),
                    env: if here {
                        m.env
                    } else {
                        m.frames[h.frame_depth].env
                    },
                    frames: m.frames.subrange(0, h.frame_depth),
                    handlers: m.handlers.drop_last(),
                    ..m
                },
                Req::Continue,
            )
        }
    }
}

/// What one instruction does.
pub open spec fn run(m: Machine, ins: Instr, end: int) -> (Machine, Req) {
    let a = peek(m.stack, 1);
    let b = peek(m.stack, 0);
    let popped = with_stack(m, drop_top(m.stack, 1));
    match ins {
        Instr::PushNumber(text) => ask(m, Req::Literal(text)),
        Instr::PushString(text) => push_next(m, Val::String(text)),
        Instr::PushBoolean(value) => push_next(m, Val::Boolean(value)),
        Instr::PushNil => push_next(m, Val::Nil),
        Instr::Pop => (advance(popped), Req::Continue),
        Instr::LoadLocal(name) => push_next(m, load_local(m, name)),
        Instr::LoadGlobal(name) => push_next(m, get_field(m.globals, name)),
        Instr::StoreLocal(name) => (advance(store_local(popped, name, b)), Req::Continue),
        Instr::StoreGlobal(name) => (
            advance(Machine { globals: put_field(m.globals, name, b), ..popped }),
            Req::Continue,
        ),
        Instr::DeclareLocal(name) => (
            advance(Machine { scopes: declare_local(m.scopes, name, b), ..popped }),
            Req::Continue,
        ),
        Instr::Add => arithmetic(m, Operation::Add),
        Instr::Sub => arithmetic(m, Operation::Sub),
        Instr::Mul => arithmetic(m, Operation::Mul),
        Instr::Div => arithmetic(m, Operation::Div),
        Instr::Mod => arithmetic(m, Operation::Mod),
        Instr::Negate => negate(m),
        Instr::Concat => binary(m, Val::String(display_spec(a) + display_spec(b))),
        Instr::Equal => binary(m, Val::Boolean(val_eq(a, b))),
        Instr::NotEqual => binary(m, Val::Boolean(!val_eq(a, b))),
        Instr::Less => binary(m, less(a, b)),
        Instr::Greater => binary(m, less(b, a)),
        Instr::LessEqual => binary(m, less_equal(a, b)),
        Instr::GreaterEqual => binary(m, less_equal(b, a)),
        Instr::And => binary(m, Val::Boolean(truthy(a) && truthy(b))),
        Instr::Or => binary(m, Val::Boolean(truthy(a) || truthy(b))),
        Instr::Not => push_next(popped, Val::Boolean(!truthy(b))),
        Instr::Jump(target) => (Machine { ip: target, ..m }, Req::Continue),
        Instr::JumpIfFalse(target) => (
            Machine {
                ip: if truthy(b) {
                    m.ip + 1
                } else {
                    target
                },
                ..popped
            },
            Req::Continue,
        ),
        Instr::Call(n) => call(m, n),
        Instr::Return => ret(popped, b, end),
        Instr::EnterScope => (
            advance(Machine { scopes: m.scopes.push(Seq::empty()), ..m }),
            Req::Continue,
        ),
        Instr::ExitScope => (
            advance(Machine { scopes: drop_top(m.scopes, 1), ..m }),
            Req::Continue,
        ),
        Instr::MakeClosure(params, entry, names) => push_next(
            m,
            Val::Function(params, entry, capture_env(m, names, names.len() as int)),
        ),
        Instr::MakeTable(n) => if 0 <= n <= m.stack.len() {
            push_next(with_stack(m, drop_top(m.stack, n)), Val::Table(top(m.stack, n)))
        } else {
            push_next(m, Val::Nil)
        },
        Instr::MakeDictionary(n) => if 0 <= n && 2 * n <= m.stack.len() {
            push_next(
                with_stack(m, drop_top(m.stack, 2 * n)),
                Val::Dictionary(build_fields(top(m.stack, 2 * n), n)),
            )
        } else {
            push_next(m, Val::Nil)
        },
        Instr::LoadIndex => binary(m, index_value(a, b)),
        Instr::StoreIndex => push_next(
            with_stack(m, drop_top(m.stack, 3)),
            store_index(peek(m.stack, 2), a, b),
        ),
        Instr::LoadMember(name) => push_next(popped, member_value(b, name)),
        Instr::StoreMember(name) => binary(m, store_member(a, name, b)),
        Instr::PushHandler(target) => (
            advance(
                Machine {
                    handlers: m.handlers.push(
                        HandlerView {
                            target,
                            stack_depth: m.stack.len() as int,
                            scope_depth: m.scopes.len() as int,
                            frame_depth: m.frames.len() as int,
                        },
                    ),
                    ..m
                },
            ),
            Req::Continue,
        ),
        Instr::PopHandler => (
            advance(Machine { handlers: drop_top(m.handlers, 1), ..m }),
            Req::Continue,
        ),
        Instr::Throw => throw(popped, b, end),
        Instr::NativeCall(module, name, n) => if 0 <= n <= m.stack.len() {
            ask(with_stack(m, drop_top(m.stack, n)), Req::Native(module, name, top(m.stack, n)))
        } else {
            push_next(m, Val::Nil)
        },
        Instr::Import(name) => (
            advance(
                Machine { globals: put_field(m.globals, name, get_field(m.registry, name)), ..m },
            ),
            Req::Continue,
        ),
        Instr::Print => (advance(popped), Req::Print(display_spec(b))),
        Instr::Break => (advance(m), Req::Continue),
        Instr::Continue => (advance(m), Req::Continue),
        Instr::Nop => (advance(m), Req::Continue),
    }
}

/// One step of the machine. A machine that waits takes the host's reply as
/// the value of the instruction it asked for, nil where the host gave none;
/// past the end of the code the program has ended, with the top of the stack
/// as its value, or nil; otherwise it runs the instruction at `ip`.
pub open spec fn step_spec(m: Machine, code: Seq<Instr>, reply: Option<Val>) -> (Machine, Req) {
    if m.awaiting {
        (
            Machine {
                awaiting: false,
                stack: m.stack.push(
                    match reply {
                        Some(v) => v,
                        None => Val::Nil,
                    },
                ),
                ..m
            },
            Req::Continue,
        )
    } else if !(0 <= m.ip < code.len()) {
        (m, Req::Finished(peek(m.stack, 0)))
    } else {
        run(m, code[m.ip], code.len() as int)
    }
}

/// Up to `budget` steps: the machine goes on while it asks for nothing. The
/// reply goes to the first step.
pub open spec fn steps_spec(m: Machine, code: Seq<Instr>, reply: Option<Val>, budget: nat) -> (
    Machine,
    Req,
)
    decreases budget,
{
    if budget == 0 {
        (m, Req::Continue)
    } else {
        let (next, req) = step_spec(m, code, reply);
        if req is Continue {
            steps_spec(next, code, None, (budget - 1) as nat)
        } else {
            (next, req)
        }
    }
}

} // verus!
