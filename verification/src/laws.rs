//! Laws of the machine and of the compiler that hold of every program.
use vstd::prelude::*;
use crate::ast::Ast;
use crate::bytecode::Instr;
use crate::lowering::{Scoping, Zone, block_code, enter, is_declared, stmt_code, stmt_scoping};
use crate::machine::{
    Bindings, Machine, Req, declare_local, drop_top, field_index, find_scope, get_field,
    has_field, keep, load_local, peek, put_field, step_spec, store_local, throw,
};
use crate::value::Val;

verus! {

// ---------------------------------------------------------------------------
// Bindings
// ---------------------------------------------------------------------------

/// The first index that binds a name is the one before which nothing binds
/// it.
pub proof fn lemma_first_binding(fields: Bindings, name: Seq<char>, i: int)
    requires
        0 <= i <= fields.len(),
    ensures
        i <= field_index(fields, name, i) <= fields.len(),
        forall|j: int| i <= j < field_index(fields, name, i) ==> (#[trigger] fields[j]).0 != name,
        field_index(fields, name, i) < fields.len() ==> fields[field_index(fields, name, i)].0
            == name,
    decreases fields.len() - i,
{
    if i < fields.len() && fields[i].0 != name {
        lemma_first_binding(fields, name, i + 1);
    }
}

proof fn lemma_binding_found(fields: Bindings, name: Seq<char>, i: int, k: int)
    requires
        0 <= i <= k <= fields.len(),
        forall|j: int| i <= j < k ==> (#[trigger] fields[j]).0 != name,
        k == fields.len() || fields[k].0 == name,
    ensures
        field_index(fields, name, i) == k,
    decreases k - i,
{
    if i < k {
        assert(fields[i].0 != name);
        lemma_binding_found(fields, name, i + 1, k);
    }
}

/// A name is bound to what was put under it.
pub proof fn lemma_put_then_get(fields: Bindings, name: Seq<char>, value: Val)
    ensures
        has_field(put_field(fields, name, value), name),
        get_field(put_field(fields, name, value), name) == value,
{
    lemma_first_binding(fields, name, 0);
    let k = field_index(fields, name, 0);
    let after = put_field(fields, name, value);
    assert forall|j: int| 0 <= j < k implies (#[trigger] after[j]).0 != name by {
        assert(fields[j].0 != name);
    }
    lemma_binding_found(after, name, 0, k);
}

/// Putting a value under one name leaves every other name as it was.
pub proof fn lemma_put_keeps_others(
    fields: Bindings,
    name: Seq<char>,
    value: Val,
    other: Seq<char>,
)
    requires
        other != name,
    ensures
        has_field(put_field(fields, name, value), other) == has_field(fields, other),
        get_field(put_field(fields, name, value), other) == get_field(fields, other),
{
    lemma_first_binding(fields, name, 0);
    lemma_first_binding(fields, other, 0);
    let k = field_index(fields, other, 0);
    let after = put_field(fields, name, value);
    assert forall|j: int| 0 <= j < k implies (#[trigger] after[j]).0 != other by {
        assert(fields[j].0 != other);
    }
    if k < fields.len() {
        assert(after[k] == fields[k]);
        lemma_binding_found(after, other, 0, k);
    } else {
        assert forall|j: int| 0 <= j < after.len() implies (#[trigger] after[j]).0 != other by {
            if j < fields.len() {
                assert(fields[j].0 != other);
            }
        }
        lemma_binding_found(after, other, 0, after.len() as int);
    }
}

// ---------------------------------------------------------------------------
// Scopes
// ---------------------------------------------------------------------------

/// The scope that `find_scope` gives binds the name, and no scope inside it
/// does.
pub proof fn lemma_innermost_scope(scopes: Seq<Bindings>, hi: int, name: Seq<char>)
    requires
        0 <= hi <= scopes.len(),
    ensures
        -1 <= find_scope(scopes, hi, name) < hi,
        find_scope(scopes, hi, name) >= 0 ==> has_field(
            scopes[find_scope(scopes, hi, name)],
            name,
        ),
        forall|k: int|
            find_scope(scopes, hi, name) < k < hi ==> !has_field(#[trigger] scopes[k], name),
    decreases hi,
{
    if hi > 0 && !has_field(scopes[hi - 1], name) {
        lemma_innermost_scope(scopes, hi - 1, name);
    }
}

proof fn lemma_scope_found(scopes: Seq<Bindings>, hi: int, name: Seq<char>, at: int)
    requires
        0 <= at < hi <= scopes.len(),
        has_field(scopes[at], name),
        forall|k: int| at < k < hi ==> !has_field(#[trigger] scopes[k], name),
    ensures
        find_scope(scopes, hi, name) == at,
    decreases hi,
{
    if hi - 1 > at {
        assert(!has_field(scopes[hi - 1], name));
        lemma_scope_found(scopes, hi - 1, name, at);
    }
}

proof fn lemma_scope_missing(scopes: Seq<Bindings>, hi: int, name: Seq<char>)
    requires
        0 <= hi <= scopes.len(),
        forall|k: int| 0 <= k < hi ==> !has_field(#[trigger] scopes[k], name),
    ensures
        find_scope(scopes, hi, name) == -1,
    decreases hi,
{
    if hi > 0 {
        assert(!has_field(scopes[hi - 1], name));
        lemma_scope_missing(scopes, hi - 1, name);
    }
}

/// What a block declares is gone when the block ends: entering a scope,
/// declaring a local in it and leaving it gives the scopes back as they
/// were.
pub proof fn lemma_local_does_not_leak(scopes: Seq<Bindings>, name: Seq<char>, value: Val)
    ensures
        drop_top(declare_local(scopes.push(Seq::empty()), name, value), 1) == scopes,
{
    assert(drop_top(declare_local(scopes.push(Seq::empty()), name, value), 1) =~= scopes);
}

/// A declaration touches the innermost scope only.
pub proof fn lemma_declaration_is_innermost(scopes: Seq<Bindings>, name: Seq<char>, value: Val)
    requires
        scopes.len() > 0,
    ensures
        declare_local(scopes, name, value).len() == scopes.len(),
        declare_local(scopes, name, value).drop_last() == scopes.drop_last(),
{
    assert(declare_local(scopes, name, value).drop_last() =~= scopes.drop_last());
}

/// Inside the scope of its declaration a local stands for what it was
/// declared as, whatever an outer scope binds the name to.
pub proof fn lemma_declared_local_is_seen(m: Machine, name: Seq<char>, value: Val)
    ensures
        load_local(Machine { scopes: declare_local(m.scopes, name, value), ..m }, name) == value,
{
    let scopes = declare_local(m.scopes, name, value);
    let last = scopes.len() - 1;
    if m.scopes.len() == 0 {
        lemma_put_then_get(Seq::empty(), name, value);
        assert(scopes[0] =~= put_field(Seq::empty(), name, value));
    } else {
        lemma_put_then_get(m.scopes.last(), name, value);
    }
    assert(has_field(scopes[last], name));
    lemma_scope_found(scopes, scopes.len() as int, name, last);
}

/// A variable stands for what was last stored into it.
pub proof fn lemma_store_then_load(m: Machine, name: Seq<char>, value: Val)
    ensures
        load_local(store_local(m, name, value), name) == value,
{
    let after = store_local(m, name, value);
    lemma_innermost_scope(m.scopes, m.scopes.len() as int, name);
    let at = find_scope(m.scopes, m.scopes.len() as int, name);
    if 0 <= at {
        lemma_put_then_get(m.scopes[at], name, value);
        assert forall|k: int| at < k < after.scopes.len() implies !has_field(
            #[trigger] after.scopes[k],
            name,
        ) by {
            assert(after.scopes[k] == m.scopes[k]);
        }
        lemma_scope_found(after.scopes, after.scopes.len() as int, name, at);
    } else {
        assert forall|k: int| 0 <= k < after.scopes.len() implies !has_field(
            #[trigger] after.scopes[k],
            name,
        ) by {
            assert(after.scopes[k] == m.scopes[k]);
        }
        lemma_scope_missing(after.scopes, after.scopes.len() as int, name);
        if has_field(m.env, name) {
            lemma_put_then_get(m.env, name, value);
        } else {
            lemma_put_then_get(m.globals, name, value);
        }
    }
}

/// An assignment inside a block to a name that an outer scope binds changes
/// the outer binding: after the block the name stands for the new value.
pub proof fn lemma_store_reaches_outer_binding(m: Machine, name: Seq<char>, value: Val)
    requires
        m.scopes.len() > 0,
        0 <= find_scope(m.scopes, m.scopes.len() as int, name) < m.scopes.len() - 1,
    ensures
        load_local(
            Machine { scopes: drop_top(store_local(m, name, value).scopes, 1), ..store_local(
                m,
                name,
                value,
            ) },
            name,
        ) == value,
{
    let stored = store_local(m, name, value);
    let outer = drop_top(stored.scopes, 1);
    lemma_innermost_scope(m.scopes, m.scopes.len() as int, name);
    let at = find_scope(m.scopes, m.scopes.len() as int, name);
    lemma_put_then_get(m.scopes[at], name, value);
    assert(outer[at] == put_field(m.scopes[at], name, value));
    assert forall|k: int| at < k < outer.len() implies !has_field(#[trigger] outer[k], name) by {
        assert(outer[k] == m.scopes[k]);
    }
    lemma_scope_found(outer, outer.len() as int, name, at);
}

/// What a block declares is unknown to the compiler after the block: a
/// statement that holds a block leaves what is known as it was.
pub proof fn lemma_block_hides_its_locals(s: Ast, cx: Scoping)
    requires
        s is If || s is While || s is For || s is TryCatch || s is Block || s is FunctionDef,
    ensures
        stmt_scoping(s, cx) == cx,
{
}

/// An assignment to a name that the compiler has seen declared is a store
/// into that binding, not a new declaration and not a global.
pub proof fn lemma_assignment_to_local(name: Seq<char>, value: Ast, base: int, cx: Scoping)
    requires
        is_declared(cx, name),
    ensures
        stmt_code(
            Ast::Assignment(Box::new(Ast::Identifier(name)), Box::new(value)),
            base,
            cx,
        ).last() == Instr::StoreLocal(name),
{
}

// ---------------------------------------------------------------------------
// Running
// ---------------------------------------------------------------------------

/// A program that has ended stays ended: a step past the end of the code
/// changes nothing and gives the same value again.
pub proof fn lemma_finished_is_final(m: Machine, code: Seq<Instr>, reply: Option<Val>)
    requires
        !m.awaiting,
        !(0 <= m.ip < code.len()),
    ensures
        step_spec(m, code, reply) == (m, Req::Finished(peek(m.stack, 0))),
{
}

/// The machine takes the host's value as the result of what it asked for.
pub proof fn lemma_reply_is_pushed(m: Machine, code: Seq<Instr>, value: Val)
    requires
        m.awaiting,
    ensures
        step_spec(m, code, Some(value)).0.stack == m.stack.push(value),
        step_spec(m, code, Some(value)).0.ip == m.ip,
        !step_spec(m, code, Some(value)).0.awaiting,
        step_spec(m, code, Some(value)).1 == Req::Continue,
{
}

// ---------------------------------------------------------------------------
// Exceptions
// ---------------------------------------------------------------------------

/// A throw under a handler goes to the handler: the thrown value lies on
/// top of the stack cut back to where the try region began, the scopes and
/// calls entered since then are gone, and the handler is used up.
pub proof fn lemma_throw_reaches_handler(m: Machine, value: Val, end: int)
    requires
        m.handlers.len() > 0,
        0 <= m.handlers.last().frame_depth <= m.frames.len(),
    ensures
        throw(m, value, end).1 == Req::Continue,
        throw(m, value, end).0.ip == m.handlers.last().target,
        throw(m, value, end).0.stack == keep(m.stack, m.handlers.last().stack_depth).push(value),
        throw(m, value, end).0.frames == m.frames.subrange(0, m.handlers.last().frame_depth),
        throw(m, value, end).0.handlers == m.handlers.drop_last(),
        throw(m, value, end).0.scopes.len() <= if m.handlers.last().frame_depth
            == m.frames.len() {
            m.scopes.len()
        } else {
            m.frames[m.handlers.last().frame_depth].scopes.len()
        },
        throw(m, value, end).0.globals == m.globals,
{
}

/// A throw under no handler ends the program with the thrown value.
pub proof fn lemma_uncaught_throw_ends(m: Machine, value: Val, end: int)
    requires
        m.handlers.len() == 0,
    ensures
        throw(m, value, end).1 == Req::Uncaught(value),
        throw(m, value, end).0.ip == end,
        throw(m, value, end).0.frames.len() == 0,
{
}

/// The layout of a try statement. It starts by registering its handler; the
/// handler stands where the catch part starts, which opens a scope and binds
/// the thrown value to the catch variable, or drops it where there is none.
/// The try part ends by dropping the handler and jumping past the whole
/// statement, so that without a throw the catch part never runs.
pub proof fn lemma_try_layout(
    try_body: Seq<Ast>,
    var: Option<Seq<char>>,
    catch_body: Seq<Ast>,
    base: int,
    cx: Scoping,
)
    ensures
        ({
            let code = stmt_code(Ast::TryCatch(try_body, var, catch_body), base, cx);
            let tried = block_code(
                try_body,
                0,
                base + 2,
                enter(enter(cx, Zone::Handler), Zone::Scope(Seq::empty())),
            );
            let handler: int = 2 + tried.len() as int + 3;
            &&& code.len() > handler + 2
            &&& code[0] == Instr::PushHandler(base + handler)
            &&& code[1] == Instr::EnterScope
            &&& code.subrange(2, 2 + tried.len() as int) == tried
            &&& code[handler - 3] == Instr::ExitScope
            &&& code[handler - 2] == Instr::PopHandler
            &&& code[handler - 1] == Instr::Jump(base + code.len())
            &&& code[handler] == Instr::EnterScope
            &&& code[handler + 1] == match var {
                Some(name) => Instr::DeclareLocal(name),
                None => Instr::Pop,
            }
            &&& code.last() == Instr::ExitScope
        }),
{
    let code = stmt_code(Ast::TryCatch(try_body, var, catch_body), base, cx);
    let tried = block_code(
        try_body,
        0,
        base + 2,
        enter(enter(cx, Zone::Handler), Zone::Scope(Seq::empty())),
    );
    assert(code.subrange(2, 2 + tried.len() as int) =~= tried);
}

} // verus!
