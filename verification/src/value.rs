//! Runtime values.
use vstd::prelude::*;
use vstd::string::*;
use crate::ast::names_view;
use crate::text::{copy_names, same_text};

verus! {

/// A runtime value.
///
/// A number is a double, held as its IEEE 754 bit pattern together with its
/// display text. The machine compares numbers by the bit pattern and shows
/// them by the text; arithmetic on them is the host's work, and the host
/// supplies both parts of every number it hands in.
#[derive(Debug)]
pub enum Value {
    /// Bit pattern and display text.
    Number(u64, String),
    String(String),
    Boolean(bool),
    Nil,
    /// An ordered, zero-indexed sequence.
    Table(Vec<Value>),
    /// A string-keyed map in insertion order.
    Dictionary(Vec<(String, Value)>),
    /// A closure: parameters, entry offset, captured bindings.
    Function(Vec<String>, usize, Vec<(String, Value)>),
    /// A reference to a native function: module and name.
    NativeFunction(String, String),
    /// A named bundle of values.
    Module(Vec<(String, Value)>),
}

/// The mathematical value of a [`Value`].
pub enum Val {
    Number(u64, Seq<char>),
    String(Seq<char>),
    Boolean(bool),
    Nil,
    Table(Seq<Val>),
    Dictionary(Seq<(Seq<char>, Val)>),
    Function(Seq<Seq<char>>, int, Seq<(Seq<char>, Val)>),
    NativeFunction(Seq<char>, Seq<char>),
    Module(Seq<(Seq<char>, Val)>),
}

/// The values that a list of values stands for.
pub open spec fn values_view(values: Vec<Value>) -> Seq<Val>
    decreases values, 1nat,
{
    Seq::new(
        values.len() as nat,
        |i: int|
            if 0 <= i < values.len() {
                values[i].model()
            } else {
                Val::Nil
            },
    )
}

/// The bindings that a list of bindings stands for.
pub open spec fn fields_view(fields: Vec<(String, Value)>) -> Seq<(Seq<char>, Val)>
    decreases fields, 1nat,
{
    Seq::new(
        fields.len() as nat,
        |i: int|
            if 0 <= i < fields.len() {
                (fields[i].0@, fields[i].1.model())
            } else {
                (Seq::empty(), Val::Nil)
            },
    )
}

impl Value {
    /// The value that this value stands for.
    pub open spec fn model(self) -> Val
        decreases self, 0nat,
    {
        match self {
            Value::Number(bits, text) => Val::Number(bits, text@),
            Value::String(text) => Val::String(text@),
            Value::Boolean(b) => Val::Boolean(b),
            Value::Nil => Val::Nil,
            Value::Table(items) => Val::Table(values_view(items)),
            Value::Dictionary(fields) => Val::Dictionary(fields_view(fields)),
            Value::Function(params, entry, env) => Val::Function(
                names_view(params@),
                entry as int,
                fields_view(env),
            ),
            Value::NativeFunction(module, name) => Val::NativeFunction(module@, name@),
            Value::Module(fields) => Val::Module(fields_view(fields)),
        }
    }
}

impl View for Value {
    type V = Val;

    open spec fn view(&self) -> Val {
        self.model()
    }
}

/// The view of a list with a value added is the view with its view added.
pub proof fn lemma_values_push(before: Vec<Value>, after: Vec<Value>, value: Value)
    requires
        after@ == before@.push(value),
    ensures
        values_view(after) == values_view(before).push(value@),
{
    assert(values_view(after) =~= values_view(before).push(value@));
}

// ---------------------------------------------------------------------------
// Copies
// ---------------------------------------------------------------------------

/// A copy of a value.
pub fn copy_value(value: &Value) -> (r: Value)
    ensures
        r@ == value@,
    decreases value, 0nat,
{
    match value {
        Value::Number(bits, text) => Value::Number(*bits, text.clone()),
        Value::String(text) => Value::String(text.clone()),
        Value::Boolean(b) => Value::Boolean(*b),
        Value::Nil => Value::Nil,
        Value::Table(items) => Value::Table(copy_values(items)),
        Value::Dictionary(fields) => Value::Dictionary(copy_fields(fields)),
        Value::Function(params, entry, env) => Value::Function(
            copy_names(params),
            *entry,
            copy_fields(env),
        ),
        Value::NativeFunction(module, name) => Value::NativeFunction(module.clone(), name.clone()),
        Value::Module(fields) => Value::Module(copy_fields(fields)),
    }
}

/// A copy of a list of values.
pub fn copy_values(values: &Vec<Value>) -> (r: Vec<Value>)
    ensures
        values_view(r) == values_view(*values),
    decreases values, 1nat,
{
    let mut out: Vec<Value> = Vec::new();
    let mut i: usize = 0;
    while i < values.len()
        invariant
            i <= values.len(),
            out.len() == i,
            forall|j: int| 0 <= j < i ==> out[j]@ == values[j]@,
        decreases values.len() - i,
    {
        out.push(copy_value(&values[i]));
        i += 1;
    }
    assert(values_view(out) =~= values_view(*values));
    out
}

/// A copy of a list of bindings.
pub fn copy_fields(fields: &Vec<(String, Value)>) -> (r: Vec<(String, Value)>)
    ensures
        fields_view(r) == fields_view(*fields),
    decreases fields, 1nat,
{
    let mut out: Vec<(String, Value)> = Vec::new();
    let mut i: usize = 0;
    while i < fields.len()
        invariant
            i <= fields.len(),
            out.len() == i,
            forall|j: int| 0 <= j < i ==> out[j].0@ == fields[j].0@ && out[j].1@ == fields[j].1@,
        decreases fields.len() - i,
    {
        out.push((fields[i].0.clone(), copy_value(&fields[i].1)));
        i += 1;
    }
    assert(fields_view(out) =~= fields_view(*fields));
    out
}

// ---------------------------------------------------------------------------
// Numbers, by their bit patterns
// ---------------------------------------------------------------------------

/// The bit pattern without its sign bit.
pub open spec fn magnitude(bits: u64) -> int {
    if bits >= 0x8000_0000_0000_0000 {
        bits - 0x8000_0000_0000_0000
    } else {
        bits as int
    }
}

/// Not a number: all exponent bits set and a fraction that is not zero.
pub open spec fn is_nan(bits: u64) -> bool {
    magnitude(bits) > 0x7ff0_0000_0000_0000
}

/// Where a number that is no NaN stands on the number line of bit patterns:
/// the magnitude, negated under the sign bit. Both zeros stand at 0.
pub open spec fn number_key(bits: u64) -> int {
    if bits >= 0x8000_0000_0000_0000 {
        -magnitude(bits)
    } else {
        magnitude(bits)
    }
}

/// Equality of doubles: a NaN equals nothing, the two zeros are equal.
pub open spec fn number_eq(a: u64, b: u64) -> bool {
    !is_nan(a) && !is_nan(b) && number_key(a) == number_key(b)
}

/// The order of doubles: a NaN is less than nothing and nothing less than it.
pub open spec fn number_lt(a: u64, b: u64) -> bool {
    !is_nan(a) && !is_nan(b) && number_key(a) < number_key(b)
}

fn key_of(bits: u64) -> (r: i64)
    requires
        !is_nan(bits),
    ensures
        r == number_key(bits),
{
    if bits >= 0x8000_0000_0000_0000 {
        let m: u64 = bits - 0x8000_0000_0000_0000;
        let k: i64 = m as i64;
        -k
    } else {
        bits as i64
    }
}

fn nan(bits: u64) -> (r: bool)
    ensures
        r == is_nan(bits),
{
    let m: u64 = if bits >= 0x8000_0000_0000_0000 {
        bits - 0x8000_0000_0000_0000
    } else {
        bits
    };
    m > 0x7ff0_0000_0000_0000
}

/// Whether two doubles, given by their bit patterns, are equal.
pub fn numbers_equal(a: u64, b: u64) -> (r: bool)
    ensures
        r == number_eq(a, b),
{
    if nan(a) || nan(b) {
        false
    } else {
        key_of(a) == key_of(b)
    }
}

/// Whether one double, given by its bit pattern, is less than another.
pub fn number_less(a: u64, b: u64) -> (r: bool)
    ensures
        r == number_lt(a, b),
{
    if nan(a) || nan(b) {
        false
    } else {
        key_of(a) < key_of(b)
    }
}

// ---------------------------------------------------------------------------
// Truth and equality
// ---------------------------------------------------------------------------

/// Only `false` and nil are falsy.
pub open spec fn truthy(v: Val) -> bool {
    !(v is Nil) && v != Val::Boolean(false)
}

/// Structural equality: numbers as doubles, everything else part by part.
pub open spec fn val_eq(a: Val, b: Val) -> bool
    decreases a, 0nat,
{
    match (a, b) {
        (Val::Number(x, _), Val::Number(y, _)) => number_eq(x, y),
        (Val::String(x), Val::String(y)) => x == y,
        (Val::Boolean(x), Val::Boolean(y)) => x == y,
        (Val::Nil, Val::Nil) => true,
        (Val::Table(x), Val::Table(y)) => x.len() == y.len() && vals_eq(x, y, 0),
        (Val::Dictionary(x), Val::Dictionary(y)) => x.len() == y.len() && fields_eq(x, y, 0),
        (Val::Function(p, e, x), Val::Function(q, f, y)) => p == q && e == f && x.len()
            == y.len() && fields_eq(x, y, 0),
        (Val::NativeFunction(m, f), Val::NativeFunction(n, g)) => m == n && f == g,
        (Val::Module(x), Val::Module(y)) => x.len() == y.len() && fields_eq(x, y, 0),
        _ => false,
    }
}

/// Whether the values from `i` on are equal pair by pair.
pub open spec fn vals_eq(a: Seq<Val>, b: Seq<Val>, i: int) -> bool
    decreases a, (if i < a.len() { a.len() - i } else { 0 }) as nat,
{
    if 0 <= i < a.len() {
        val_eq(a[i], b[i]) && vals_eq(a, b, i + 1)
    } else {
        true
    }
}

/// Whether the bindings from `i` on are equal pair by pair.
pub open spec fn fields_eq(a: Seq<(Seq<char>, Val)>, b: Seq<(Seq<char>, Val)>, i: int) -> bool
    decreases a, (if i < a.len() { a.len() - i } else { 0 }) as nat,
{
    if 0 <= i < a.len() {
        a[i].0 == b[i].0 && val_eq(a[i].1, b[i].1) && fields_eq(a, b, i + 1)
    } else {
        true
    }
}

/// Whether a value counts as true.
pub fn is_truthy(value: &Value) -> (r: bool)
    ensures
        r == truthy(value@),
{
    match value {
        Value::Nil => false,
        Value::Boolean(b) => *b,
        _ => true,
    }
}

fn names_equal(a: &Vec<String>, b: &Vec<String>) -> (r: bool)
    ensures
        r == (names_view(a@) == names_view(b@)),
{
    if a.len() != b.len() {
        assert(names_view(a@).len() != names_view(b@).len());
        return false;
    }
    let mut i: usize = 0;
    while i < a.len()
        invariant
            i <= a.len(),
            a.len() == b.len(),
            forall|j: int| 0 <= j < i ==> a[j]@ == b[j]@,
        decreases a.len() - i,
    {
        if !same_text(a[i].as_str(), b[i].as_str()) {
            assert(names_view(a@)[i as int] != names_view(b@)[i as int]);
            return false;
        }
        i += 1;
    }
    assert(names_view(a@) =~= names_view(b@));
    true
}

/// Whether two values are equal.
pub fn values_equal(a: &Value, b: &Value) -> (r: bool)
    ensures
        r == val_eq(a@, b@),
    decreases a, 0nat,
{
    match (a, b) {
        (Value::Number(x, _), Value::Number(y, _)) => numbers_equal(*x, *y),
        (Value::String(x), Value::String(y)) => same_text(x.as_str(), y.as_str()),
        (Value::Boolean(x), Value::Boolean(y)) => *x == *y,
        (Value::Nil, Value::Nil) => true,
        (Value::Table(x), Value::Table(y)) => x.len() == y.len() && lists_equal(x, y),
        (Value::Dictionary(x), Value::Dictionary(y)) => x.len() == y.len() && bindings_equal(
            x,
            y,
        ),
        (Value::Function(p, e, x), Value::Function(q, f, y)) => names_equal(p, q) && *e == *f
            && x.len() == y.len() && bindings_equal(x, y),
        (Value::NativeFunction(m, f), Value::NativeFunction(n, g)) => same_text(
            m.as_str(),
            n.as_str(),
        ) && same_text(f.as_str(), g.as_str()),
        (Value::Module(x), Value::Module(y)) => x.len() == y.len() && bindings_equal(x, y),
        _ => false,
    }
}

fn lists_equal(a: &Vec<Value>, b: &Vec<Value>) -> (r: bool)
    requires
        a.len() == b.len(),
    ensures
        r == vals_eq(values_view(*a), values_view(*b), 0),
    decreases a, 1nat,
{
    let mut i: usize = 0;
    while i < a.len()
        invariant
            i <= a.len(),
            a.len() == b.len(),
            vals_eq(values_view(*a), values_view(*b), 0) == vals_eq(
                values_view(*a),
                values_view(*b),
                i as int,
            ),
        decreases a.len() - i,
    {
        if !values_equal(&a[i], &b[i]) {
            return false;
        }
        i += 1;
    }
    true
}

fn bindings_equal(a: &Vec<(String, Value)>, b: &Vec<(String, Value)>) -> (r: bool)
    requires
        a.len() == b.len(),
    ensures
        r == fields_eq(fields_view(*a), fields_view(*b), 0),
    decreases a, 1nat,
{
    let mut i: usize = 0;
    while i < a.len()
        invariant
            i <= a.len(),
            a.len() == b.len(),
            fields_eq(fields_view(*a), fields_view(*b), 0) == fields_eq(
                fields_view(*a),
                fields_view(*b),
                i as int,
            ),
        decreases a.len() - i,
    {
        if !same_text(a[i].0.as_str(), b[i].0.as_str()) || !values_equal(&a[i].1, &b[i].1) {
            return false;
        }
        i += 1;
    }
    true
}

// ---------------------------------------------------------------------------
// Display
// ---------------------------------------------------------------------------

/// The display form of a value.
pub open spec fn display_spec(v: Val) -> Seq<char>
    decreases v, 0nat,
{
    match v {
        Val::Number(_, text) => text,
        Val::String(text) => text,
        Val::Boolean(b) => if b {
            "true"@
        } else {
            "false"@
        },
        Val::Nil => "nil"@,
        Val::Table(items) => "["@ + items_text(items, 0) + "]"@,
        Val::Dictionary(fields) => "{"@ + fields_text(fields, 0) + "}"@,
        Val::Function(_, _, _) => "<function>"@,
        Val::NativeFunction(module, name) => "<native "@ + module + "."@ + name + ">"@,
        Val::Module(_) => "<module>"@,
    }
}

/// The display forms of the values from `i` on, separated by commas.
pub open spec fn items_text(items: Seq<Val>, i: int) -> Seq<char>
    decreases items, (if i < items.len() { items.len() - i } else { 0 }) as nat,
{
    if 0 <= i < items.len() {
        display_spec(items[i]) + (if i + 1 < items.len() {
            ", "@
        } else {
            Seq::empty()
        }) + items_text(items, i + 1)
    } else {
        Seq::empty()
    }
}

/// The bindings from `i` on as `key = value`, separated by commas.
pub open spec fn fields_text(fields: Seq<(Seq<char>, Val)>, i: int) -> Seq<char>
    decreases fields, (if i < fields.len() { fields.len() - i } else { 0 }) as nat,
{
    if 0 <= i < fields.len() {
        fields[i].0 + " = "@ + display_spec(fields[i].1) + (if i + 1 < fields.len() {
            ", "@
        } else {
            Seq::empty()
        }) + fields_text(fields, i + 1)
    } else {
        Seq::empty()
    }
}

/// The display form of a value.
pub fn display(value: &Value) -> (r: String)
    ensures
        r@ == display_spec(value@),
    decreases value, 0nat,
{
    match value {
        Value::Number(_, text) => text.clone(),
        Value::String(text) => text.clone(),
        Value::Boolean(b) => if *b {
            String::from_str("true")
        } else {
            String::from_str("false")
        },
        Value::Nil => String::from_str("nil"),
        Value::Table(items) => {
            let mut out = String::from_str("[");
            let inner = display_items(items);
            out.append(inner.as_str());
            out.append("]");
            out
        },
        Value::Dictionary(fields) => {
            let mut out = String::from_str("{");
            let inner = display_fields(fields);
            out.append(inner.as_str());
            out.append("}");
            out
        },
        Value::Function(_, _, _) => String::from_str("<function>"),
        Value::NativeFunction(module, name) => {
            let mut out = String::from_str("<native ");
            out.append(module.as_str());
            out.append(".");
            out.append(name.as_str());
            out.append(">");
            out
        },
        Value::Module(_) => String::from_str("<module>"),
    }
}

fn display_items(items: &Vec<Value>) -> (r: String)
    ensures
        r@ == items_text(values_view(*items), 0),
    decreases items, 1nat,
{
    let ghost list = values_view(*items);
    let mut out = String::new();
    let mut i: usize = 0;
    assert(out@ + items_text(list, 0) =~= items_text(list, 0));
    while i < items.len()
        invariant
            i <= items.len(),
            list == values_view(*items),
            items_text(list, 0) == out@ + items_text(list, i as int),
        decreases items.len() - i,
    {
        let ghost before = out@;
        let one = display(&items[i]);
        out.append(one.as_str());
        if i + 1 < items.len() {
            out.append(", ");
        }
        proof {
            let sep: Seq<char> = if i + 1 < items.len() {
                ", "@
            } else {
                Seq::empty()
            };
            assert(out@ =~= before + (display_spec(list[i as int]) + sep));
            assert(before + (display_spec(list[i as int]) + sep + items_text(list, i + 1))
                =~= before + (display_spec(list[i as int]) + sep) + items_text(list, i + 1));
        }
        i += 1;
    }
    assert(out@ + Seq::<char>::empty() =~= out@);
    out
}

fn display_fields(fields: &Vec<(String, Value)>) -> (r: String)
    ensures
        r@ == fields_text(fields_view(*fields), 0),
    decreases fields, 1nat,
{
    let ghost list = fields_view(*fields);
    let mut out = String::new();
    let mut i: usize = 0;
    assert(out@ + fields_text(list, 0) =~= fields_text(list, 0));
    while i < fields.len()
        invariant
            i <= fields.len(),
            list == fields_view(*fields),
            fields_text(list, 0) == out@ + fields_text(list, i as int),
        decreases fields.len() - i,
    {
        let ghost before = out@;
        out.append(fields[i].0.as_str());
        out.append(" = ");
        let one = display(&fields[i].1);
        out.append(one.as_str());
        if i + 1 < fields.len() {
            out.append(", ");
        }
        proof {
            let sep: Seq<char> = if i + 1 < fields.len() {
                ", "@
            } else {
                Seq::empty()
            };
            let this = list[i as int].0 + " = "@ + display_spec(list[i as int].1) + sep;
            assert(out@ =~= before + this);
            assert(before + (this + fields_text(list, i + 1)) =~= before + this + fields_text(
                list,
                i + 1,
            ));
        }
        i += 1;
    }
    assert(out@ + Seq::<char>::empty() =~= out@);
    out
}

} // verus!
