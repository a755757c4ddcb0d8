//! The virtual machine.
//!
//! The machine runs one instruction per step and never blocks: what only the
//! host can do (printing, arithmetic on doubles, native functions) it hands
//! out as a [`Request`], and takes the host's value with the next step.
use vstd::prelude::*;
use vstd::string::*;
use crate::ast::names_view;
use crate::bytecode::{Instruction, code_view};
use crate::machine::{
    Bindings, FrameView, HandlerView, Machine, Operation, Order, Req, order_spec, advance,
    arithmetic, ask, bind_params, build_fields, bytes_lt, call, capture_env, captured,
    decimal_value, declare_local, drop_top, field_index, find_scope, get_field, has_field,
    index_of, index_value, initial_machine, is_digit_char, keep, less, less_equal, load_local,
    member_value, negate, peek, prune, push_next, put_field, ret, run, step_spec, steps_spec,
    store_index, store_local, store_member, text_lt, throw, top, with_stack,
};
use crate::text::{copy_names, same_text};
use crate::value::{
    Val, Value, copy_fields, copy_value, display, fields_view, is_truthy, lemma_values_push,
    number_less, numbers_equal, values_equal, values_view,
};

verus! {

// ---------------------------------------------------------------------------
// Bindings
// ---------------------------------------------------------------------------

/// The first index that binds a name, or the length.
pub fn find_binding(fields: &Vec<(String, Value)>, name: &str) -> (r: usize)
    ensures
        r == field_index(fields_view(*fields), name@, 0),
        r <= fields.len(),
        r < fields.len() <==> has_field(fields_view(*fields), name@),
{
    let mut i: usize = 0;
    while i < fields.len()
        invariant
            i <= fields.len(),
            field_index(fields_view(*fields), name@, 0) == field_index(
                fields_view(*fields),
                name@,
                i as int,
            ),
        decreases fields.len() - i,
    {
        if same_text(fields[i].0.as_str(), name) {
            return i;
        }
        i += 1;
    }
    i
}

/// A copy of what a name is bound to; nil where it is not bound.
pub fn get_binding(fields: &Vec<(String, Value)>, name: &str) -> (r: Value)
    ensures
        r@ == get_field(fields_view(*fields), name@),
{
    let at = find_binding(fields, name);
    if at < fields.len() {
        copy_value(&fields[at].1)
    } else {
        Value::Nil
    }
}

/// Binds a name: in place where it was bound, at the end where it was not.
pub fn put_binding(fields: &mut Vec<(String, Value)>, name: &str, value: Value)
    ensures
        fields_view(*final(fields)) == put_field(fields_view(*old(fields)), name@, value@),
{
    let at = find_binding(fields, name);
    let ghost before = *fields;
    if at < fields.len() {
        fields.set(at, (String::from_str(name), value));
        assert(fields_view(*fields) =~= put_field(fields_view(before), name@, value@));
    } else {
        fields.push((String::from_str(name), value));
        assert(fields_view(*fields) =~= put_field(fields_view(before), name@, value@));
    }
}

/// The bindings that a stack of scopes stands for.
pub open spec fn scopes_view(scopes: Seq<Vec<(String, Value)>>) -> Seq<Bindings> {
    Seq::new(scopes.len(), |i: int| fields_view(scopes[i]))
}

/// The innermost scope that binds a name.
pub fn find_in_scopes(scopes: &Vec<Vec<(String, Value)>>, name: &str) -> (r: Option<usize>)
    ensures
        match r {
            Some(at) => at < scopes.len() && at == find_scope(
                scopes_view(scopes@),
                scopes.len() as int,
                name@,
            ),
            None => find_scope(scopes_view(scopes@), scopes.len() as int, name@) == -1,
        },
{
    let mut i: usize = scopes.len();
    while i > 0
        invariant
            i <= scopes.len(),
            find_scope(scopes_view(scopes@), scopes.len() as int, name@) == find_scope(
                scopes_view(scopes@),
                i as int,
                name@,
            ),
        decreases i,
    {
        let at = find_binding(&scopes[i - 1], name);
        if at < scopes[i - 1].len() {
            return Some(i - 1);
        }
        i -= 1;
    }
    None
}

// ---------------------------------------------------------------------------
// The operand stack
// ---------------------------------------------------------------------------

fn push_value(stack: &mut Vec<Value>, value: Value)
    ensures
        values_view(*final(stack)) == values_view(*old(stack)).push(value@),
{
    let ghost before = *stack;
    stack.push(value);
    proof {
        lemma_values_push(before, *stack, value);
    }
}

fn pop_value(stack: &mut Vec<Value>) -> (r: Value)
    ensures
        r@ == peek(values_view(*old(stack)), 0),
        values_view(*final(stack)) == drop_top(values_view(*old(stack)), 1),
{
    match stack.pop() {
        Some(value) => {
            assert(values_view(*stack) =~= drop_top(values_view(*old(stack)), 1));
            value
        },
        None => {
            assert(values_view(*stack) =~= drop_top(values_view(*old(stack)), 1));
            Value::Nil
        },
    }
}

fn pop_two(stack: &mut Vec<Value>) -> (r: (Value, Value))
    ensures
        r.0@ == peek(values_view(*old(stack)), 1),
        r.1@ == peek(values_view(*old(stack)), 0),
        values_view(*final(stack)) == drop_top(values_view(*old(stack)), 2),
{
    let b = pop_value(stack);
    let a = pop_value(stack);
    assert(values_view(*stack) =~= drop_top(values_view(*old(stack)), 2));
    (a, b)
}

fn pop_three(stack: &mut Vec<Value>) -> (r: (Value, Value, Value))
    ensures
        r.0@ == peek(values_view(*old(stack)), 2),
        r.1@ == peek(values_view(*old(stack)), 1),
        r.2@ == peek(values_view(*old(stack)), 0),
        values_view(*final(stack)) == drop_top(values_view(*old(stack)), 3),
{
    let c = pop_value(stack);
    let b = pop_value(stack);
    let a = pop_value(stack);
    assert(values_view(*stack) =~= drop_top(values_view(*old(stack)), 3));
    (a, b, c)
}

/// Takes the top `n` values off the stack, in stack order.
fn take_top(stack: &mut Vec<Value>, n: usize) -> (r: Vec<Value>)
    requires
        n <= old(stack).len(),
    ensures
        values_view(r) == top(values_view(*old(stack)), n as int),
        values_view(*final(stack)) == drop_top(values_view(*old(stack)), n as int),
        final(stack).len() == old(stack).len() - n,
        r.len() == n,
{
    let at = stack.len() - n;
    let r = stack.split_off(at);
    assert(values_view(r) =~= top(values_view(*old(stack)), n as int));
    assert(values_view(*stack) =~= drop_top(values_view(*old(stack)), n as int));
    r
}

fn cut_stack(stack: &mut Vec<Value>, depth: usize)
    ensures
        values_view(*final(stack)) == keep(values_view(*old(stack)), depth as int),
{
    stack.truncate(depth);
    assert(values_view(*stack) =~= keep(values_view(*old(stack)), depth as int));
}

// ---------------------------------------------------------------------------
// Operators
// ---------------------------------------------------------------------------

fn bytes_less(a: &[u8], b: &[u8]) -> (r: bool)
    ensures
        r == bytes_lt(a@, b@, 0),
{
    let mut i: usize = 0;
    while i < b.len()
        invariant
            i <= b.len(),
            bytes_lt(a@, b@, 0) == bytes_lt(a@, b@, i as int),
        decreases b.len() - i,
    {
        if i >= a.len() {
            return true;
        }
        if a[i] != b[i] {
            return a[i] < b[i];
        }
        i += 1;
    }
    false
}

/// Whether one string comes before another.
pub fn text_less(a: &str, b: &str) -> (r: bool)
    ensures
        r == text_lt(a@, b@),
{
    bytes_less(a.as_bytes(), b.as_bytes())
}

/// `a < b`, nil where the two are not both numbers or both strings.
pub fn compare_less(a: &Value, b: &Value) -> (r: Value)
    ensures
        r@ == less(a@, b@),
{
    match (a, b) {
        (Value::Number(x, _), Value::Number(y, _)) => Value::Boolean(number_less(*x, *y)),
        (Value::String(x), Value::String(y)) => Value::Boolean(text_less(x.as_str(), y.as_str())),
        _ => Value::Nil,
    }
}

/// `a <= b`, nil where the two are not both numbers or both strings.
pub fn compare_less_equal(a: &Value, b: &Value) -> (r: Value)
    ensures
        r@ == less_equal(a@, b@),
{
    match (a, b) {
        (Value::Number(x, _), Value::Number(y, _)) => Value::Boolean(
            number_less(*x, *y) || numbers_equal(*x, *y),
        ),
        (Value::String(x), Value::String(y)) => Value::Boolean(
            !text_less(y.as_str(), x.as_str()),
        ),
        _ => Value::Nil,
    }
}

/// How two values stand to each other in a sorted table.
pub fn sort_order(a: &Value, b: &Value) -> (r: Order)
    ensures
        r == order_spec(a@, b@),
{
    match (a, b) {
        (Value::Number(x, _), Value::Number(y, _)) => {
            if number_less(*x, *y) {
                Order::Less
            } else if number_less(*y, *x) {
                Order::Greater
            } else {
                Order::Equal
            }
        },
        (Value::String(x), Value::String(y)) => {
            if text_less(x.as_str(), y.as_str()) {
                Order::Less
            } else if text_less(y.as_str(), x.as_str()) {
                Order::Greater
            } else {
                Order::Equal
            }
        },
        _ => Order::Equal,
    }
}

proof fn lemma_decimal_digits(text: Seq<char>, hi: int)
    requires
        0 <= hi <= text.len(),
        decimal_value(text, hi) is Some,
    ensures
        forall|i: int| 0 <= i < hi ==> is_digit_char(#[trigger] text[i]),
        0 <= decimal_value(text, hi)->0 <= 10_000_000_000_000_009,
    decreases hi,
{
    if hi > 0 {
        lemma_decimal_digits(text, hi - 1);
    }
}

proof fn lemma_decimal_stops(text: Seq<char>, mid: int, hi: int)
    requires
        0 <= mid <= hi <= text.len(),
        decimal_value(text, mid) is None,
    ensures
        decimal_value(text, hi) is None,
    decreases hi - mid,
{
    if mid < hi {
        lemma_decimal_stops(text, mid, hi - 1);
    }
}

/// The index that a key stands for.
pub fn index_from(key: &Value) -> (r: Option<u64>)
    ensures
        match r {
            Some(i) => index_of(key@) == Some(i as int),
            None => index_of(key@) is None,
        },
{
    match key {
        Value::Number(_, text) => {
            let s = text.as_str();
            if !s.is_ascii() {
                proof {
                    if s@.len() > 0 && decimal_value(s@, s@.len() as int) is Some {
                        lemma_decimal_digits(s@, s@.len() as int);
                        assert forall|i: int| 0 <= i < s@.len() implies '\0' <= #[trigger] s@[i]
                            <= '\u{7f}' by {
                            assert(is_digit_char(s@[i]));
                        }
                    }
                }
                return None;
            }
            let n = s.unicode_len();
            if n == 0 {
                return None;
            }
            let mut acc: u64 = 0;
            let mut i: usize = 0;
            while i < n
                invariant
                    is_ascii(s),
                    n == s@.len(),
                    n > 0,
                    key@ is Number,
                    key@->Number_1 == s@,
                    i <= n,
                    decimal_value(s@, i as int) == Some(acc as int),
                decreases n - i,
            {
                let b = s.get_ascii(i);
                assert(s@[i as int] <= '\u{7f}');
                if b < 48 || b > 57 || acc > 1_000_000_000_000_000 {
                    proof {
                        assert(decimal_value(s@, i + 1) is None);
                        lemma_decimal_stops(s@, i + 1, n as int);
                    }
                    return None;
                }
                proof {
                    lemma_decimal_digits(s@, i as int);
                }
                acc = acc * 10 + (b - 48) as u64;
                i += 1;
            }
            Some(acc)
        },
        _ => None,
    }
}

proof fn lemma_values_update(before: Vec<Value>, after: Vec<Value>, at: int, value: Value)
    requires
        0 <= at < before.len(),
        after@ == before@.update(at, value),
    ensures
        values_view(after) == values_view(before).update(at, value@),
{
    assert(values_view(after) =~= values_view(before).update(at, value@));
}

/// `container[key]`; nil where there is no such element.
pub fn index_into(container: &Value, key: &Value) -> (r: Value)
    ensures
        r@ == index_value(container@, key@),
{
    match container {
        Value::Table(items) => match index_from(key) {
            Some(i) => {
                if i < items.len() as u64 {
                    copy_value(&items[i as usize])
                } else {
                    Value::Nil
                }
            },
            None => Value::Nil,
        },
        Value::Dictionary(fields) => {
            let name = display(key);
            get_binding(fields, name.as_str())
        },
        Value::Module(fields) => {
            let name = display(key);
            get_binding(fields, name.as_str())
        },
        _ => Value::Nil,
    }
}

/// The container with `container[key]` set.
pub fn store_into(container: Value, key: &Value, value: Value) -> (r: Value)
    ensures
        r@ == store_index(container@, key@, value@),
{
    match container {
        Value::Table(mut items) => {
            let ghost before = items;
            match index_from(key) {
                Some(i) => {
                    if i < items.len() as u64 {
                        items.set(i as usize, value);
                        proof {
                            lemma_values_update(before, items, i as int, value);
                        }
                    } else if i == items.len() as u64 {
                        items.push(value);
                        proof {
                            lemma_values_push(before, items, value);
                        }
                    }
                },
                None => {},
            }
            Value::Table(items)
        },
        Value::Dictionary(mut fields) => {
            let name = display(key);
            put_binding(&mut fields, name.as_str(), value);
            Value::Dictionary(fields)
        },
        Value::Module(mut fields) => {
            let name = display(key);
            put_binding(&mut fields, name.as_str(), value);
            Value::Module(fields)
        },
        other => other,
    }
}

/// `container.name`; nil where there is no such member.
pub fn member_of(container: &Value, name: &str) -> (r: Value)
    ensures
        r@ == member_value(container@, name@),
{
    match container {
        Value::Dictionary(fields) => get_binding(fields, name),
        Value::Module(fields) => get_binding(fields, name),
        _ => Value::Nil,
    }
}

/// The container with `container.name` set.
pub fn store_member_into(container: Value, name: &str, value: Value) -> (r: Value)
    ensures
        r@ == store_member(container@, name@, value@),
{
    match container {
        Value::Dictionary(mut fields) => {
            put_binding(&mut fields, name, value);
            Value::Dictionary(fields)
        },
        Value::Module(mut fields) => {
            put_binding(&mut fields, name, value);
            Value::Module(fields)
        },
        other => other,
    }
}

/// The dictionary of the first `count` pairs of `items`, which holds keys
/// and values in turn.
fn build_dictionary(items: &Vec<Value>, count: usize) -> (r: Vec<(String, Value)>)
    requires
        2 * count <= items.len(),
    ensures
        fields_view(r) == build_fields(values_view(*items), count as int),
{
    let mut out: Vec<(String, Value)> = Vec::new();
    let mut i: usize = 0;
    assert(fields_view(out) =~= Seq::empty());
    while i < count
        invariant
            i <= count,
            2 * count <= items.len(),
            fields_view(out) == build_fields(values_view(*items), i as int),
        decreases count - i,
    {
        let name = display(&items[2 * i]);
        let value = copy_value(&items[2 * i + 1]);
        put_binding(&mut out, name.as_str(), value);
        i += 1;
    }
    out
}

/// The scope of a call: each parameter bound to its argument, or to nil.
fn bind_arguments(params: &Vec<String>, args: Vec<Value>) -> (r: Vec<(String, Value)>)
    ensures
        fields_view(r) == bind_params(names_view(params@), values_view(args)),
{
    let mut out: Vec<(String, Value)> = Vec::new();
    let mut i: usize = 0;
    while i < params.len()
        invariant
            i <= params.len(),
            out.len() == i,
            forall|j: int|
                0 <= j < i ==> (#[trigger] out[j]).0@ == params[j]@ && out[j].1@ == (if j
                    < args.len() {
                    args[j]@
                } else {
                    Val::Nil
                }),
        decreases params.len() - i,
    {
        let value = if i < args.len() {
            copy_value(&args[i])
        } else {
            Value::Nil
        };
        out.push((params[i].clone(), value));
        i += 1;
    }
    assert(fields_view(out) =~= bind_params(names_view(params@), values_view(args)));
    out
}


// ---------------------------------------------------------------------------
// The machine
// ---------------------------------------------------------------------------

/// What a call set aside.
#[derive(Debug)]
pub struct Frame {
    pub return_to: usize,
    pub base: usize,
    pub scopes: Vec<Vec<(String, Value)>>,
    pub env: Vec<(String, Value)>,
}

impl View for Frame {
    type V = FrameView;

    open spec fn view(&self) -> FrameView {
        FrameView {
            return_to: self.return_to as int,
            base: self.base as int,
            scopes: scopes_view(self.scopes@),
            env: fields_view(self.env),
        }
    }
}

/// An active try region.
#[derive(Clone, Copy, Debug)]
pub struct Handler {
    pub target: usize,
    pub stack_depth: usize,
    pub scope_depth: usize,
    pub frame_depth: usize,
}

impl View for Handler {
    type V = HandlerView;

    open spec fn view(&self) -> HandlerView {
        HandlerView {
            target: self.target as int,
            stack_depth: self.stack_depth as int,
            scope_depth: self.scope_depth as int,
            frame_depth: self.frame_depth as int,
        }
    }
}

/// The frames that a call stack stands for.
pub open spec fn frames_view(frames: Seq<Frame>) -> Seq<FrameView> {
    Seq::new(frames.len(), |i: int| frames[i]@)
}

/// The handlers that a handler stack stands for.
pub open spec fn handlers_view(handlers: Seq<Handler>) -> Seq<HandlerView> {
    Seq::new(handlers.len(), |i: int| handlers[i]@)
}

/// What the machine asks of its host after a step.
#[derive(Debug)]
pub enum Request {
    /// Nothing: take the next step.
    Continue,
    /// Print this line.
    Print(String),
    /// Hand in, with the next step, the number that this literal stands for.
    Literal(String),
    /// Hand in the result of the operation on these numbers; for a negation
    /// the second operand is nil.
    Arithmetic(Operation, Value, Value),
    /// Call this native function, module and name, on these arguments, and
    /// hand in what it returns.
    Native(String, String, Vec<Value>),
    /// The program has ended with this value.
    Finished(Value),
    /// The program has ended with this value thrown and not caught.
    Uncaught(Value),
}

impl View for Request {
    type V = Req;

    open spec fn view(&self) -> Req {
        match self {
            Request::Continue => Req::Continue,
            Request::Print(line) => Req::Print(line@),
            Request::Literal(text) => Req::Literal(text@),
            Request::Arithmetic(op, a, b) => Req::Arithmetic(*op, a@, b@),
            Request::Native(module, name, args) => Req::Native(module@, name@, values_view(*args)),
            Request::Finished(value) => Req::Finished(value@),
            Request::Uncaught(value) => Req::Uncaught(value@),
        }
    }
}

/// The host's reply as a mathematical value.
pub open spec fn reply_view(reply: Option<Value>) -> Option<Val> {
    match reply {
        Some(value) => Some(value@),
        None => None,
    }
}

/// The virtual machine.
pub struct Vm {
    ip: usize,
    stack: Vec<Value>,
    globals: Vec<(String, Value)>,
    scopes: Vec<Vec<(String, Value)>>,
    env: Vec<(String, Value)>,
    frames: Vec<Frame>,
    handlers: Vec<Handler>,
    registry: Vec<(String, Value)>,
    awaiting: bool,
}

impl View for Vm {
    type V = Machine;

    closed spec fn view(&self) -> Machine {
        Machine {
            ip: self.ip as int,
            stack: values_view(self.stack),
            globals: fields_view(self.globals),
            scopes: scopes_view(self.scopes@),
            env: fields_view(self.env),
            frames: frames_view(self.frames@),
            handlers: handlers_view(self.handlers@),
            registry: fields_view(self.registry),
            awaiting: self.awaiting,
        }
    }
}

impl Vm {
    /// A machine at the start of a program, with the modules that `import`
    /// can bring in.
    pub fn new(registry: Vec<(String, Value)>) -> (r: Vm)
        ensures
            r@ == initial_machine(fields_view(registry)),
    {
        let mut scopes: Vec<Vec<(String, Value)>> = Vec::new();
        scopes.push(Vec::new());
        let r = Vm {
            ip: 0,
            stack: Vec::new(),
            globals: Vec::new(),
            scopes,
            env: Vec::new(),
            frames: Vec::new(),
            handlers: Vec::new(),
            registry,
            awaiting: false,
        };
        proof {
            let m = initial_machine(fields_view(registry));
            assert(r@.stack =~= m.stack);
            assert(r@.globals =~= m.globals);
            assert(fields_view(r.scopes[0]) =~= Seq::empty());
            assert(r@.scopes =~= m.scopes);
            assert(r@.env =~= m.env);
            assert(r@.frames =~= m.frames);
            assert(r@.handlers =~= m.handlers);
        }
        r
    }

    /// Sets the machine to the start of a program and keeps its globals.
    pub fn restart(&mut self)
        ensures
            final(self)@ == (Machine {
                globals: old(self)@.globals,
                ..initial_machine(old(self)@.registry)
            }),
    {
        self.ip = 0;
        self.stack.truncate(0);
        self.scopes.truncate(0);
        self.scopes.push(Vec::new());
        self.env.truncate(0);
        self.frames.truncate(0);
        self.handlers.truncate(0);
        self.awaiting = false;
        proof {
            let m = initial_machine(old(self)@.registry);
            assert(self@.stack =~= m.stack);
            assert(fields_view(self.scopes[0]) =~= Seq::empty());
            assert(self@.scopes =~= m.scopes);
            assert(self@.env =~= m.env);
            assert(self@.frames =~= m.frames);
            assert(self@.handlers =~= m.handlers);
        }
    }

    /// A copy of the global bindings, in the order in which they were made.
    pub fn globals(&self) -> (r: Vec<(String, Value)>)
        ensures
            fields_view(r) == self@.globals,
    {
        copy_fields(&self.globals)
    }

    /// Forgets every global.
    pub fn clear_globals(&mut self)
        ensures
            final(self)@ == (Machine { globals: Seq::empty(), ..old(self)@ }),
    {
        self.globals.truncate(0);
        assert(self@.globals =~= Seq::empty());
    }

    fn next(&mut self) -> (r: Request)
        requires
            old(self).ip < usize::MAX,
        ensures
            final(self)@ == advance(old(self)@),
            r@ == Req::Continue,
    {
        self.ip = self.ip + 1;
        Request::Continue
    }

    fn push_then_next(&mut self, value: Value) -> (r: Request)
        requires
            old(self).ip < usize::MAX,
        ensures
            (final(self)@, r@) == push_next(old(self)@, value@),
    {
        push_value(&mut self.stack, value);
        self.ip = self.ip + 1;
        Request::Continue
    }

    fn ask_host(&mut self, req: Request) -> (r: Request)
        requires
            old(self).ip < usize::MAX,
        ensures
            (final(self)@, r@) == ask(old(self)@, req@),
    {
        self.awaiting = true;
        self.ip = self.ip + 1;
        req
    }

    fn pop(&mut self) -> (r: Value)
        ensures
            r@ == peek(old(self)@.stack, 0),
            final(self)@ == with_stack(old(self)@, drop_top(old(self)@.stack, 1)),
            final(self).ip == old(self).ip,
    {
        pop_value(&mut self.stack)
    }

    fn pop2(&mut self) -> (r: (Value, Value))
        ensures
            r.0@ == peek(old(self)@.stack, 1),
            r.1@ == peek(old(self)@.stack, 0),
            final(self)@ == with_stack(old(self)@, drop_top(old(self)@.stack, 2)),
            final(self).ip == old(self).ip,
    {
        pop_two(&mut self.stack)
    }

    fn lookup_local(&self, name: &str) -> (r: Value)
        ensures
            r@ == load_local(self@, name@),
    {
        match find_in_scopes(&self.scopes, name) {
            Some(at) => get_binding(&self.scopes[at], name),
            None => {
                if find_binding(&self.env, name) < self.env.len() {
                    get_binding(&self.env, name)
                } else {
                    get_binding(&self.globals, name)
                }
            },
        }
    }

    fn lookup_captured(&self, name: &str) -> (r: Option<Value>)
        ensures
            reply_view(r) == captured(self@, name@),
    {
        match find_in_scopes(&self.scopes, name) {
            Some(at) => Some(get_binding(&self.scopes[at], name)),
            None => {
                if find_binding(&self.env, name) < self.env.len() {
                    Some(get_binding(&self.env, name))
                } else {
                    None
                }
            },
        }
    }

    fn capture(&self, names: &Vec<String>) -> (r: Vec<(String, Value)>)
        ensures
            fields_view(r) == capture_env(self@, names_view(names@), names.len() as int),
    {
        let mut out: Vec<(String, Value)> = Vec::new();
        let mut i: usize = 0;
        assert(fields_view(out) =~= Seq::empty());
        while i < names.len()
            invariant
                i <= names.len(),
                fields_view(out) == capture_env(self@, names_view(names@), i as int),
            decreases names.len() - i,
        {
            match self.lookup_captured(names[i].as_str()) {
                Some(value) => {
                    let ghost before = out;
                    let ghost field = (names[i as int], value);
                    out.push((names[i].clone(), value));
                    proof {
                        assert(fields_view(out) =~= fields_view(before).push(
                            (names[i as int]@, value@),
                        ));
                    }
                },
                None => {},
            }
            i += 1;
        }
        out
    }

    fn assign_local(&mut self, name: &str, value: Value)
        ensures
            final(self)@ == store_local(old(self)@, name@, value@),
            final(self).ip == old(self).ip,
    {
        match find_in_scopes(&self.scopes, name) {
            Some(at) => {
                let ghost before = self.scopes@;
                let mut scope = self.scopes.remove(at);
                put_binding(&mut scope, name, value);
                self.scopes.insert(at, scope);
                assert(scopes_view(self.scopes@) =~= scopes_view(before).update(
                    at as int,
                    put_field(scopes_view(before)[at as int], name@, value@),
                ));
            },
            None => {
                if find_binding(&self.env, name) < self.env.len() {
                    put_binding(&mut self.env, name, value);
                } else {
                    put_binding(&mut self.globals, name, value);
                }
            },
        }
    }

    fn declare(&mut self, name: &str, value: Value)
        ensures
            final(self)@ == (Machine {
                scopes: declare_local(old(self)@.scopes, name@, value@),
                ..old(self)@
            }),
            final(self).ip == old(self).ip,
    {
        let ghost before = self.scopes@;
        match self.scopes.pop() {
            Some(mut scope) => {
                put_binding(&mut scope, name, value);
                self.scopes.push(scope);
                assert(scopes_view(self.scopes@) =~= declare_local(
                    scopes_view(before),
                    name@,
                    value@,
                ));
            },
            None => {
                let mut scope: Vec<(String, Value)> = Vec::new();
                assert(fields_view(scope) =~= Seq::empty());
                put_binding(&mut scope, name, value);
                self.scopes.push(scope);
                assert(scopes_view(self.scopes@) =~= declare_local(
                    scopes_view(before),
                    name@,
                    value@,
                ));
            },
        }
    }

    fn op_arithmetic(&mut self, op: Operation) -> (r: Request)
        requires
            old(self).ip < usize::MAX,
        ensures
            (final(self)@, r@) == arithmetic(old(self)@, op),
    {
        let (a, b) = self.pop2();
        let numbers = match (&a, &b) {
            (Value::Number(_, _), Value::Number(_, _)) => true,
            _ => false,
        };
        if numbers {
            self.ask_host(Request::Arithmetic(op, a, b))
        } else {
            self.push_then_next(Value::Nil)
        }
    }

    fn op_negate(&mut self) -> (r: Request)
        requires
            old(self).ip < usize::MAX,
        ensures
            (final(self)@, r@) == negate(old(self)@),
    {
        let a = self.pop();
        let number = match &a {
            Value::Number(_, _) => true,
            _ => false,
        };
        if number {
            self.ask_host(Request::Arithmetic(Operation::Negate, a, Value::Nil))
        } else {
            self.push_then_next(Value::Nil)
        }
    }

    fn op_call(&mut self, n: usize) -> (r: Request)
        requires
            old(self).ip < usize::MAX,
        ensures
            (final(self)@, r@) == call(old(self)@, n as int),
    {
        if n >= self.stack.len() {
            return self.push_then_next(Value::Nil);
        }
        let ghost m = self@;
        let args = take_top(&mut self.stack, n);
        let callee = pop_value(&mut self.stack);
        proof {
            assert(callee@ == m.stack[m.stack.len() - n - 1]);
            assert(self@.stack =~= m.stack.subrange(0, m.stack.len() - n - 1));
        }
        match callee {
            Value::Function(params, entry, env) => {
                let scope = bind_arguments(&params, args);
                let mut scopes: Vec<Vec<(String, Value)>> = Vec::new();
                scopes.push(scope);
                let mut closed = env;
                core::mem::swap(&mut self.scopes, &mut scopes);
                core::mem::swap(&mut self.env, &mut closed);
                let frame = Frame {
                    return_to: self.ip + 1,
                    base: self.stack.len(),
                    scopes,
                    env: closed,
                };
                let ghost before = self.frames@;
                self.frames.push(frame);
                self.ip = entry;
                proof {
                    assert(frames_view(self.frames@) =~= frames_view(before).push(frame@));
                    assert(scopes_view(self.scopes@) =~= seq![
                        bind_params(names_view(params@), values_view(args)),
                    ]);
                }
                Request::Continue
            },
            Value::NativeFunction(module, name) => self.ask_host(
                Request::Native(module, name, args),
            ),
            _ => self.push_then_next(Value::Nil),
        }
    }

    fn prune_handlers(&mut self, depth: usize)
        ensures
            final(self)@ == (Machine {
                handlers: prune(old(self)@.handlers, depth as int),
                ..old(self)@
            }),
            final(self).ip == old(self).ip,
    {
        let ghost start = self@.handlers;
        while self.handlers.len() > 0 && self.handlers[self.handlers.len() - 1].frame_depth
            >= depth
            invariant
                self@ == (Machine { handlers: self@.handlers, ..old(self)@ }),
                self.ip == old(self).ip,
                prune(start, depth as int) == prune(self@.handlers, depth as int),
            decreases self.handlers.len(),
        {
            let ghost before = self@.handlers;
            self.handlers.pop();
            assert(self@.handlers =~= before.drop_last());
        }
    }

    fn op_return(&mut self, end: usize) -> (r: Request)
        ensures
            (final(self)@, r@) == ret(
                with_stack(old(self)@, drop_top(old(self)@.stack, 1)),
                peek(old(self)@.stack, 0),
                end as int,
            ),
    {
        let value = self.pop();
        let depth = self.frames.len();
        let ghost m = self@;
        match self.frames.pop() {
            None => {
                self.stack.truncate(0);
                push_value(&mut self.stack, value);
                self.ip = end;
                assert(self@.stack =~= seq![value@]);
                assert(self@.frames =~= m.frames);
                Request::Continue
            },
            Some(frame) => {
                cut_stack(&mut self.stack, frame.base);
                push_value(&mut self.stack, value);
                self.scopes = frame.scopes;
                self.env = frame.env;
                self.ip = frame.return_to;
                assert(self@.frames =~= m.frames.drop_last());
                self.prune_handlers(depth);
                Request::Continue
            },
        }
    }

    fn op_throw(&mut self, value: Value, end: usize) -> (r: Request)
        ensures
            (final(self)@, r@) == throw(old(self)@, value@, end as int),
    {
        let ghost start = self@;
        loop
            invariant
                start == old(self)@,
                self@ == (Machine { handlers: self@.handlers, ..start }),
                throw(start, value@, end as int) == throw(self@, value@, end as int),
            decreases self.handlers.len(),
        {
            let ghost m = self@;
            match self.handlers.pop() {
                None => {
                    self.stack.truncate(0);
                    if self.frames.len() > 0 {
                        self.frames.truncate(1);
                        match self.frames.pop() {
                            Some(frame) => {
                                self.scopes = frame.scopes;
                                self.env = frame.env;
                            },
                            None => {},
                        }
                    }
                    self.ip = end;
                    proof {
                        assert(self@.stack =~= Seq::<Val>::empty());
                        assert(self@.frames =~= Seq::<FrameView>::empty());
                        assert(self@.handlers =~= m.handlers);
                    }
                    return Request::Uncaught(value);
                },
                Some(h) => {
                    assert(self@.handlers =~= m.handlers.drop_last());
                    assert(h@ == m.handlers.last());
                    if h.frame_depth <= self.frames.len() {
                        if h.frame_depth < self.frames.len() {
                            self.frames.truncate(h.frame_depth + 1);
                            match self.frames.pop() {
                                Some(frame) => {
                                    self.scopes = frame.scopes;
                                    self.env = frame.env;
                                },
                                None => {},
                            }
                        }
                        assert(self@.frames =~= m.frames.subrange(0, h.frame_depth as int));
                        let ghost held = self.scopes@;
                        self.scopes.truncate(h.scope_depth);
                        assert(scopes_view(self.scopes@) =~= keep(
                            scopes_view(held),
                            h.scope_depth as int,
                        ));
                        cut_stack(&mut self.stack, h.stack_depth);
                        push_value(&mut self.stack, value);
                        self.ip = h.target;
                        return Request::Continue;
                    }
                },
            }
        }
    }
}


impl Vm {
    /// One step of the machine: takes the host's reply where the machine
    /// waits for one, else runs the instruction at the instruction pointer,
    /// and says what the host is to do next.
    pub fn step(&mut self, code: &Vec<Instruction>, reply: Option<Value>) -> (r: Request)
        ensures
            (final(self)@, r@) == step_spec(old(self)@, code_view(code@), reply_view(reply)),
    {
        if self.awaiting {
            self.awaiting = false;
            let value = match reply {
                Some(v) => v,
                None => Value::Nil,
            };
            push_value(&mut self.stack, value);
            return Request::Continue;
        }
        if self.ip >= code.len() {
            let value = if self.stack.len() > 0 {
                copy_value(&self.stack[self.stack.len() - 1])
            } else {
                Value::Nil
            };
            return Request::Finished(value);
        }
        assert(code_view(code@)[self.ip as int] == code[self.ip as int]@);
        self.run(&code[self.ip], code.len())
    }

    /// Runs one instruction.
    fn run(&mut self, ins: &Instruction, end: usize) -> (r: Request)
        requires
            old(self).ip < end,
        ensures
            (final(self)@, r@) == run(old(self)@, ins@, end as int),
    {
        match ins {
            Instruction::PushNumber(text) => self.ask_host(Request::Literal(text.clone())),
            Instruction::PushString(text) => self.push_then_next(Value::String(text.clone())),
            Instruction::PushBoolean(value) => self.push_then_next(Value::Boolean(*value)),
            Instruction::PushNil => self.push_then_next(Value::Nil),
            Instruction::Pop => {
                self.pop();
                self.next()
            },
            Instruction::LoadLocal(name) => {
                let value = self.lookup_local(name.as_str());
                self.push_then_next(value)
            },
            Instruction::LoadGlobal(name) => {
                let value = get_binding(&self.globals, name.as_str());
                self.push_then_next(value)
            },
            Instruction::StoreLocal(name) => {
                let value = self.pop();
                self.assign_local(name.as_str(), value);
                self.next()
            },
            Instruction::StoreGlobal(name) => {
                let value = self.pop();
                put_binding(&mut self.globals, name.as_str(), value);
                self.next()
            },
            Instruction::DeclareLocal(name) => {
                let value = self.pop();
                self.declare(name.as_str(), value);
                self.next()
            },
            Instruction::Add => self.op_arithmetic(Operation::Add),
            Instruction::Sub => self.op_arithmetic(Operation::Sub),
            Instruction::Mul => self.op_arithmetic(Operation::Mul),
            Instruction::Div => self.op_arithmetic(Operation::Div),
            Instruction::Mod => self.op_arithmetic(Operation::Mod),
            Instruction::Negate => self.op_negate(),
            Instruction::Jump(target) => {
                self.ip = *target;
                Request::Continue
            },
            Instruction::JumpIfFalse(target) => {
                let value = self.pop();
                if is_truthy(&value) {
                    self.ip = self.ip + 1;
                } else {
                    self.ip = *target;
                }
                Request::Continue
            },
            Instruction::Call(n) => self.op_call(*n),
            Instruction::Return => self.op_return(end),
            Instruction::Throw => {
                let value = self.pop();
                self.op_throw(value, end)
            },
            Instruction::Print => {
                let value = self.pop();
                self.ip = self.ip + 1;
                Request::Print(display(&value))
            },
            Instruction::Break => self.next(),
            Instruction::Continue => self.next(),
            Instruction::Nop => self.next(),
            Instruction::Concat | Instruction::Equal | Instruction::NotEqual | Instruction::Less
            | Instruction::Greater | Instruction::LessEqual | Instruction::GreaterEqual
            | Instruction::And | Instruction::Or | Instruction::Not => self.run_operator(ins),
            Instruction::MakeClosure(_, _, _) | Instruction::MakeTable(_)
            | Instruction::MakeDictionary(_) | Instruction::LoadIndex | Instruction::StoreIndex
            | Instruction::LoadMember(_) | Instruction::StoreMember(_) => self.run_access(ins),
            Instruction::EnterScope | Instruction::ExitScope | Instruction::PushHandler(_)
            | Instruction::PopHandler | Instruction::NativeCall(_, _, _)
            | Instruction::Import(_) => self.run_region(ins),
        }
    }

    /// Runs an operator on the top values.
    fn run_operator(&mut self, ins: &Instruction) -> (r: Request)
        requires
            old(self).ip < usize::MAX,
            ins@ is Concat || ins@ is Equal || ins@ is NotEqual || ins@ is Less || ins@ is Greater || ins@ is LessEqual || ins@ is GreaterEqual || ins@ is And || ins@ is Or || ins@ is Not,
        ensures
            (final(self)@, r@) == run(old(self)@, ins@, 0),
    {
        match ins {
            Instruction::Concat => {
                let (a, b) = self.pop2();
                let mut text = display(&a);
                let right = display(&b);
                text.append(right.as_str());
                self.push_then_next(Value::String(text))
            },
            Instruction::Equal => {
                let (a, b) = self.pop2();
                self.push_then_next(Value::Boolean(values_equal(&a, &b)))
            },
            Instruction::NotEqual => {
                let (a, b) = self.pop2();
                self.push_then_next(Value::Boolean(!values_equal(&a, &b)))
            },
            Instruction::Less => {
                let (a, b) = self.pop2();
                self.push_then_next(compare_less(&a, &b))
            },
            Instruction::Greater => {
                let (a, b) = self.pop2();
                self.push_then_next(compare_less(&b, &a))
            },
            Instruction::LessEqual => {
                let (a, b) = self.pop2();
                self.push_then_next(compare_less_equal(&a, &b))
            },
            Instruction::GreaterEqual => {
                let (a, b) = self.pop2();
                self.push_then_next(compare_less_equal(&b, &a))
            },
            Instruction::And => {
                let (a, b) = self.pop2();
                self.push_then_next(Value::Boolean(is_truthy(&a) && is_truthy(&b)))
            },
            Instruction::Or => {
                let (a, b) = self.pop2();
                self.push_then_next(Value::Boolean(is_truthy(&a) || is_truthy(&b)))
            },
            Instruction::Not => {
                let value = self.pop();
                self.push_then_next(Value::Boolean(!is_truthy(&value)))
            },
            _ => Request::Continue,
        }
    }

    /// Runs an instruction that builds a value or reads or writes a part of one.
    fn run_access(&mut self, ins: &Instruction) -> (r: Request)
        requires
            old(self).ip < usize::MAX,
            ins@ is MakeClosure || ins@ is MakeTable || ins@ is MakeDictionary || ins@ is LoadIndex || ins@ is StoreIndex || ins@ is LoadMember || ins@ is StoreMember,
        ensures
            (final(self)@, r@) == run(old(self)@, ins@, 0),
    {
        match ins {
            Instruction::MakeClosure(params, entry, names) => {
                let env = self.capture(names);
                self.push_then_next(Value::Function(copy_names(params), *entry, env))
            },
            Instruction::MakeTable(n) => {
                if *n <= self.stack.len() {
                    let items = take_top(&mut self.stack, *n);
                    self.push_then_next(Value::Table(items))
                } else {
                    self.push_then_next(Value::Nil)
                }
            },
            Instruction::MakeDictionary(n) => {
                if *n <= self.stack.len() / 2 {
                    let items = take_top(&mut self.stack, 2 * *n);
                    let fields = build_dictionary(&items, *n);
                    self.push_then_next(Value::Dictionary(fields))
                } else {
                    self.push_then_next(Value::Nil)
                }
            },
            Instruction::LoadIndex => {
                let (a, b) = self.pop2();
                self.push_then_next(index_into(&a, &b))
            },
            Instruction::StoreIndex => {
                let (container, key, value) = pop_three(&mut self.stack);
                self.push_then_next(store_into(container, &key, value))
            },
            Instruction::LoadMember(name) => {
                let container = self.pop();
                self.push_then_next(member_of(&container, name.as_str()))
            },
            Instruction::StoreMember(name) => {
                let (container, value) = self.pop2();
                self.push_then_next(store_member_into(container, name.as_str(), value))
            },
            _ => Request::Continue,
        }
    }

    /// Runs an instruction that keeps the scopes, the handlers or the imports, or calls a native function.
    fn run_region(&mut self, ins: &Instruction) -> (r: Request)
        requires
            old(self).ip < usize::MAX,
            ins@ is EnterScope || ins@ is ExitScope || ins@ is PushHandler || ins@ is PopHandler || ins@ is NativeCall || ins@ is Import,
        ensures
            (final(self)@, r@) == run(old(self)@, ins@, 0),
    {
        match ins {
            Instruction::EnterScope => {
                let ghost before = self.scopes@;
                let scope: Vec<(String, Value)> = Vec::new();
                assert(fields_view(scope) =~= Seq::empty());
                self.scopes.push(scope);
                assert(scopes_view(self.scopes@) =~= scopes_view(before).push(Seq::empty()));
                self.next()
            },
            Instruction::ExitScope => {
                let ghost before = self.scopes@;
                self.scopes.pop();
                assert(scopes_view(self.scopes@) =~= drop_top(scopes_view(before), 1));
                self.next()
            },
            Instruction::PushHandler(target) => {
                let ghost before = self.handlers@;
                let h = Handler {
                    target: *target,
                    stack_depth: self.stack.len(),
                    scope_depth: self.scopes.len(),
                    frame_depth: self.frames.len(),
                };
                self.handlers.push(h);
                assert(handlers_view(self.handlers@) =~= handlers_view(before).push(h@));
                self.next()
            },
            Instruction::PopHandler => {
                let ghost before = self.handlers@;
                self.handlers.pop();
                assert(handlers_view(self.handlers@) =~= drop_top(handlers_view(before), 1));
                self.next()
            },
            Instruction::NativeCall(module, name, n) => {
                if *n <= self.stack.len() {
                    let args = take_top(&mut self.stack, *n);
                    self.ask_host(Request::Native(module.clone(), name.clone(), args))
                } else {
                    self.push_then_next(Value::Nil)
                }
            },
            Instruction::Import(name) => {
                let module = get_binding(&self.registry, name.as_str());
                put_binding(&mut self.globals, name.as_str(), module);
                self.next()
            },
            _ => Request::Continue,
        }
    }

    /// Runs the program for up to `budget` steps: the machine goes on while
    /// it asks nothing of the host, and hands out the first request that it
    /// makes. The reply goes to the first step. `Request::Continue` comes
    /// back where the budget ran out before the machine asked for anything.
    pub fn execute(&mut self, code: &Vec<Instruction>, reply: Option<Value>, budget: usize) -> (r:
        Request)
        ensures
            (final(self)@, r@) == steps_spec(
                old(self)@,
                code_view(code@),
                reply_view(reply),
                budget as nat,
            ),
    {
        if budget == 0 {
            return Request::Continue;
        }
        let ghost start = self@;
        let ghost instrs = code_view(code@);
        let mut request = self.step(code, reply);
        let mut left: usize = budget - 1;
        while left > 0 && matches!(request, Request::Continue)
            invariant
                instrs == code_view(code@),
                steps_spec(start, instrs, reply_view(reply), budget as nat) == if request@
                    is Continue {
                    steps_spec(self@, instrs, None, left as nat)
                } else {
                    (self@, request@)
                },
            decreases left,
        {
            request = self.step(code, None);
            left = left - 1;
        }
        request
    }
}

} // verus!
