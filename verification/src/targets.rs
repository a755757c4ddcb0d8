//! Every jump of compiled code lands inside the code, and no pending jump
//! is left in it.
use vstd::prelude::*;
use crate::ast::Ast;
use crate::bytecode::Instr;
use crate::lowering::{
    Scoping, Zone, block_code, branch_count, branches_code, closure_code, compile_spec,
    counting_scope, declare, enter, entries_code, expr_code, exprs_code, for_loop_code,
    for_setup_code, initial_scoping, is_native_call, is_statement, item_code, leave_code,
    load_instr, members_code, operator_code, program_code, resolve, resolve_instr, scoped_code,
    stmt_code, stmt_scoping, store_back, store_instr, unwind_code,
};

verus! {

/// Where an instruction may send the machine, if anywhere.
pub open spec fn target_of(ins: Instr) -> Option<int> {
    match ins {
        Instr::Jump(t) => Some(t),
        Instr::JumpIfFalse(t) => Some(t),
        Instr::PushHandler(t) => Some(t),
        Instr::MakeClosure(_, entry, _) => Some(entry),
        _ => None,
    }
}

/// A `break` or `continue` that has not been given its target.
pub open spec fn is_pending(ins: Instr) -> bool {
    ins is Break || ins is Continue
}

/// Every target in the code lies between `lo` and `hi`.
pub open spec fn within(code: Seq<Instr>, lo: int, hi: int) -> bool {
    forall|i: int|
        0 <= i < code.len() ==> (target_of(#[trigger] code[i]) matches Some(t) ==> lo <= t <= hi)
}

/// No pending jump is in the code.
pub open spec fn settled(code: Seq<Instr>) -> bool {
    forall|i: int| 0 <= i < code.len() ==> !is_pending(#[trigger] code[i])
}

/// Code that the machine can run: every target lies in the code or at its
/// end, and no pending jump is left.
pub open spec fn well_formed(code: Seq<Instr>) -> bool {
    within(code, 0, code.len() as int) && settled(code)
}

/// Whether the point being compiled lies in a loop of the current function.
pub open spec fn in_loop(zones: Seq<Zone>) -> bool {
    unwind_code(zones, zones.len() as int) is Some
}

/// What holds of a piece of code: its targets lie between `lo` and `hi`,
/// and it is settled where `strict` holds.
pub open spec fn sound(code: Seq<Instr>, lo: int, hi: int, strict: bool) -> bool {
    within(code, lo, hi) && (strict ==> settled(code))
}

proof fn lemma_join(a: Seq<Instr>, b: Seq<Instr>, lo: int, hi: int, strict: bool)
    requires
        sound(a, lo, hi, strict),
        sound(b, lo, hi, strict),
    ensures
        sound(a + b, lo, hi, strict),
{
    let c = a + b;
    assert forall|i: int| 0 <= i < c.len() implies (target_of(#[trigger] c[i]) matches Some(t)
        ==> lo <= t <= hi) by {
        if i < a.len() {
            assert(c[i] == a[i]);
        } else {
            assert(c[i] == b[i - a.len()]);
        }
    }
    if strict {
        assert forall|i: int| 0 <= i < c.len() implies !is_pending(#[trigger] c[i]) by {
            if i < a.len() {
                assert(c[i] == a[i]);
            } else {
                assert(c[i] == b[i - a.len()]);
            }
        }
    }
}

proof fn lemma_push(a: Seq<Instr>, ins: Instr, lo: int, hi: int, strict: bool)
    requires
        sound(a, lo, hi, strict),
        sound(seq![ins], lo, hi, strict),
    ensures
        sound(a.push(ins), lo, hi, strict),
{
    lemma_join(a, seq![ins], lo, hi, strict);
    assert(a.push(ins) =~= a + seq![ins]);
}

proof fn lemma_members(chain: Seq<Seq<char>>, lo: int, hi: int)
    ensures
        sound(members_code(chain), lo, hi, true),
{
}

proof fn lemma_operator(op: Seq<char>, lo: int, hi: int)
    ensures
        sound(operator_code(op), lo, hi, true),
        1 <= operator_code(op).len() <= 3,
{
}

proof fn lemma_resolved(code: Seq<Instr>, break_to: int, continue_to: int, lo: int, hi: int)
    requires
        within(code, lo, hi),
        lo <= break_to <= hi,
        lo <= continue_to <= hi,
    ensures
        sound(resolve(code, break_to, continue_to), lo, hi, true),
        resolve(code, break_to, continue_to).len() == code.len(),
{
    let r = resolve(code, break_to, continue_to);
    assert forall|i: int| 0 <= i < r.len() implies (target_of(#[trigger] r[i]) matches Some(t)
        ==> lo <= t <= hi) && !is_pending(r[i]) by {
        assert(r[i] == resolve_instr(code[i], break_to, continue_to));
    }
}

// ---------------------------------------------------------------------------
// Being in a loop
// ---------------------------------------------------------------------------

proof fn lemma_unwind_prefix(a: Seq<Zone>, b: Seq<Zone>, hi: int)
    requires
        0 <= hi <= a.len(),
        hi <= b.len(),
        forall|i: int| 0 <= i < hi ==> (#[trigger] a[i] is Scope) == (b[i] is Scope) && (a[i]
            is Scope || a[i] == b[i]),
    ensures
        unwind_code(a, hi) == unwind_code(b, hi),
    decreases hi,
{
    if hi > 0 {
        lemma_unwind_prefix(a, b, hi - 1);
        assert((a[hi - 1] is Scope) == (b[hi - 1] is Scope));
    }
}

proof fn lemma_unwind_sound(zones: Seq<Zone>, hi: int, lo: int, top: int)
    requires
        0 <= hi <= zones.len(),
    ensures
        unwind_code(zones, hi) is Some ==> sound(unwind_code(zones, hi)->0, lo, top, true),
    decreases hi,
{
    if hi > 0 {
        lemma_unwind_sound(zones, hi - 1, lo, top);
        match zones[hi - 1] {
            Zone::Scope(_) => {
                if unwind_code(zones, hi - 1) is Some {
                    lemma_join(
                        seq![Instr::ExitScope],
                        unwind_code(zones, hi - 1)->0,
                        lo,
                        top,
                        true,
                    );
                }
            },
            Zone::Handler => {
                if unwind_code(zones, hi - 1) is Some {
                    lemma_join(
                        seq![Instr::PopHandler],
                        unwind_code(zones, hi - 1)->0,
                        lo,
                        top,
                        true,
                    );
                }
            },
            _ => {},
        }
    }
}

proof fn lemma_enter(cx: Scoping, zone: Zone)
    ensures
        zone is Scope || zone is Handler ==> in_loop(enter(cx, zone).zones) == in_loop(cx.zones),
        zone is Loop ==> in_loop(enter(cx, zone).zones),
        zone is Function ==> !in_loop(enter(cx, zone).zones),
{
    let after = enter(cx, zone).zones;
    lemma_unwind_prefix(after, cx.zones, cx.zones.len() as int);
}

proof fn lemma_declare(cx: Scoping, name: Seq<char>)
    ensures
        in_loop(declare(cx, name).zones) == in_loop(cx.zones),
{
    let after = declare(cx, name).zones;
    lemma_unwind_prefix(after, cx.zones, cx.zones.len() as int);
}

proof fn lemma_statement_keeps_loop(s: Ast, cx: Scoping)
    ensures
        in_loop(stmt_scoping(s, cx).zones) == in_loop(cx.zones),
{
    match s {
        Ast::LocalAssignment(name, _) => {
            lemma_declare(cx, name);
        },
        _ => {},
    }
}

proof fn lemma_leave(cx: Scoping, pending: Instr, lo: int, hi: int)
    requires
        pending == Instr::Break || pending == Instr::Continue,
    ensures
        sound(leave_code(cx, pending), lo, hi, !in_loop(cx.zones)),
{
    lemma_unwind_sound(cx.zones, cx.zones.len() as int, lo, hi);
    match unwind_code(cx.zones, cx.zones.len() as int) {
        Some(code) => {
            lemma_push(code, pending, lo, hi, false);
        },
        None => {},
    }
}


// ---------------------------------------------------------------------------
// Expressions
// ---------------------------------------------------------------------------

proof fn lemma_expr(e: Ast, base: int, cx: Scoping, lo: int, hi: int)
    requires
        lo <= base,
        base + expr_code(e, base, cx).len() <= hi,
    ensures
        sound(expr_code(e, base, cx), lo, hi, true),
    decreases e, 0nat,
{
    match e {
        Ast::BinaryOp(left, op, right) => {
            let a = expr_code(*left, base, cx);
            let b = expr_code(*right, base + a.len(), cx);
            lemma_expr(*left, base, cx, lo, hi);
            lemma_expr(*right, base + a.len(), cx, lo, hi);
            lemma_operator(op, lo, hi);
            lemma_join(a, b, lo, hi, true);
            lemma_join(a + b, operator_code(op), lo, hi, true);
        },
        Ast::Not(x) => {
            lemma_expr(*x, base, cx, lo, hi);
            lemma_push(expr_code(*x, base, cx), Instr::Not, lo, hi, true);
        },
        Ast::FunctionCall(name, args) => {
            let rest = exprs_code(args, 0, base + 1, cx);
            lemma_exprs(args, 0, base + 1, cx, lo, hi);
            lemma_join(seq![load_instr(cx, name)], rest, lo, hi, true);
            lemma_join(
                seq![load_instr(cx, name)] + rest,
                seq![Instr::Call(args.len() as int)],
                lo,
                hi,
                true,
            );
        },
        Ast::MethodCall(receiver, chain, args) => {
            if is_native_call(*receiver, chain, cx) {
                lemma_exprs(args, 0, base, cx, lo, hi);
                lemma_push(
                    exprs_code(args, 0, base, cx),
                    Instr::NativeCall(receiver->Identifier_0, chain[0], args.len() as int),
                    lo,
                    hi,
                    true,
                );
            } else {
                let r = expr_code(*receiver, base, cx);
                let m = members_code(chain);
                let rest = exprs_code(args, 0, base + r.len() + m.len(), cx);
                lemma_expr(*receiver, base, cx, lo, hi);
                lemma_members(chain, lo, hi);
                lemma_exprs(args, 0, base + r.len() + m.len(), cx, lo, hi);
                lemma_join(r, m, lo, hi, true);
                lemma_join(r + m, rest, lo, hi, true);
                lemma_join(r + m + rest, seq![Instr::Call(args.len() as int)], lo, hi, true);
            }
        },
        Ast::Print(x) => {
            lemma_expr(*x, base, cx, lo, hi);
            lemma_join(
                expr_code(*x, base, cx),
                seq![Instr::Print, Instr::PushNil],
                lo,
                hi,
                true,
            );
        },
        Ast::Table(elements) => {
            lemma_exprs(elements, 0, base, cx, lo, hi);
            lemma_push(
                exprs_code(elements, 0, base, cx),
                Instr::MakeTable(elements.len() as int),
                lo,
                hi,
                true,
            );
        },
        Ast::Dictionary(entries) => {
            lemma_entries(entries, 0, base, cx, lo, hi);
            lemma_push(
                entries_code(entries, 0, base, cx),
                Instr::MakeDictionary(entries.len() as int),
                lo,
                hi,
                true,
            );
        },
        Ast::Index(b, k) => {
            let a = expr_code(*b, base, cx);
            let key = expr_code(*k, base + a.len(), cx);
            lemma_expr(*b, base, cx, lo, hi);
            lemma_expr(*k, base + a.len(), cx, lo, hi);
            lemma_join(a, key, lo, hi, true);
            lemma_join(a + key, seq![Instr::LoadIndex], lo, hi, true);
        },
        Ast::MemberAccess(b, chain) => {
            lemma_expr(*b, base, cx, lo, hi);
            lemma_members(chain, lo, hi);
            lemma_join(expr_code(*b, base, cx), members_code(chain), lo, hi, true);
        },
        Ast::Lambda(params, body) => {
            lemma_closure(params, body, base, cx, lo, hi);
        },
        _ => {},
    }
}

proof fn lemma_exprs(es: Seq<Ast>, i: int, base: int, cx: Scoping, lo: int, hi: int)
    requires
        lo <= base,
        base + exprs_code(es, i, base, cx).len() <= hi,
    ensures
        sound(exprs_code(es, i, base, cx), lo, hi, true),
    decreases es, (if i < es.len() { es.len() - i } else { 0 }) as nat,
{
    if 0 <= i < es.len() {
        let first = expr_code(es[i], base, cx);
        lemma_expr(es[i], base, cx, lo, hi);
        lemma_exprs(es, i + 1, base + first.len(), cx, lo, hi);
        lemma_join(first, exprs_code(es, i + 1, base + first.len(), cx), lo, hi, true);
    }
}

proof fn lemma_entries(
    entries: Seq<(Seq<char>, Ast)>,
    i: int,
    base: int,
    cx: Scoping,
    lo: int,
    hi: int,
)
    requires
        lo <= base,
        base + entries_code(entries, i, base, cx).len() <= hi,
    ensures
        sound(entries_code(entries, i, base, cx), lo, hi, true),
    decreases entries, (if i < entries.len() { entries.len() - i } else { 0 }) as nat,
{
    if 0 <= i < entries.len() {
        let value = expr_code(entries[i].1, base + 1, cx);
        let first = seq![Instr::PushString(entries[i].0)] + value;
        lemma_expr(entries[i].1, base + 1, cx, lo, hi);
        lemma_join(seq![Instr::PushString(entries[i].0)], value, lo, hi, true);
        lemma_entries(entries, i + 1, base + first.len(), cx, lo, hi);
        lemma_join(first, entries_code(entries, i + 1, base + first.len(), cx), lo, hi, true);
    }
}

proof fn lemma_closure(
    params: Seq<Seq<char>>,
    body: Seq<Ast>,
    base: int,
    cx: Scoping,
    lo: int,
    hi: int,
)
    requires
        lo <= base,
        base + closure_code(params, body, base, cx).len() <= hi,
    ensures
        sound(closure_code(params, body, base, cx), lo, hi, true),
    decreases body, body.len() + 1,
{
    let inner = enter(enter(cx, Zone::Function), Zone::Scope(params));
    let code = block_code(body, 0, base + 1, inner);
    lemma_enter(cx, Zone::Function);
    lemma_enter(enter(cx, Zone::Function), Zone::Scope(params));
    lemma_block(body, 0, base + 1, inner, lo, hi);
    let head = seq![Instr::Jump(base + 1 + code.len() + 2)];
    let tail = seq![
        Instr::PushNil,
        Instr::Return,
        Instr::MakeClosure(
            params,
            base + 1,
            crate::lowering::captures(cx.zones, cx.zones.len() as int, params, body),
        ),
    ];
    lemma_join(head, code, lo, hi, true);
    lemma_join(head + code, tail, lo, hi, true);
}

// ---------------------------------------------------------------------------
// Statements
// ---------------------------------------------------------------------------

proof fn lemma_scoped(body: Seq<Ast>, base: int, cx: Scoping, lo: int, hi: int)
    requires
        lo <= base,
        base + scoped_code(body, base, cx).len() <= hi,
    ensures
        sound(scoped_code(body, base, cx), lo, hi, !in_loop(cx.zones)),
    decreases body, body.len() + 1,
{
    let inner = enter(cx, Zone::Scope(Seq::empty()));
    let code = block_code(body, 0, base + 1, inner);
    let strict = !in_loop(cx.zones);
    lemma_enter(cx, Zone::Scope(Seq::empty()));
    lemma_block(body, 0, base + 1, inner, lo, hi);
    lemma_join(seq![Instr::EnterScope], code, lo, hi, strict);
    lemma_join(seq![Instr::EnterScope] + code, seq![Instr::ExitScope], lo, hi, strict);
}

proof fn lemma_block(stmts: Seq<Ast>, i: int, base: int, cx: Scoping, lo: int, hi: int)
    requires
        lo <= base,
        base + block_code(stmts, i, base, cx).len() <= hi,
    ensures
        sound(block_code(stmts, i, base, cx), lo, hi, !in_loop(cx.zones)),
    decreases stmts, (if i < stmts.len() { stmts.len() - i } else { 0 }) as nat,
{
    if 0 <= i < stmts.len() {
        let first = stmt_code(stmts[i], base, cx);
        let next = stmt_scoping(stmts[i], cx);
        lemma_stmt(stmts[i], base, cx, lo, hi);
        lemma_statement_keeps_loop(stmts[i], cx);
        lemma_block(stmts, i + 1, base + first.len(), next, lo, hi);
        lemma_join(
            first,
            block_code(stmts, i + 1, base + first.len(), next),
            lo,
            hi,
            !in_loop(cx.zones),
        );
    }
}

proof fn lemma_program(stmts: Seq<Ast>, i: int, base: int, cx: Scoping, lo: int, hi: int)
    requires
        lo <= base,
        base + program_code(stmts, i, base, cx).len() <= hi,
    ensures
        sound(program_code(stmts, i, base, cx), lo, hi, !in_loop(cx.zones)),
    decreases stmts, (if i < stmts.len() { stmts.len() - i } else { 0 }) as nat,
{
    if 0 <= i < stmts.len() {
        let first = item_code(stmts[i], base, cx);
        let next = stmt_scoping(stmts[i], cx);
        lemma_item(stmts[i], base, cx, lo, hi);
        lemma_statement_keeps_loop(stmts[i], cx);
        lemma_program(stmts, i + 1, base + first.len(), next, lo, hi);
        lemma_join(
            first,
            program_code(stmts, i + 1, base + first.len(), next),
            lo,
            hi,
            !in_loop(cx.zones),
        );
    }
}

proof fn lemma_item(s: Ast, base: int, cx: Scoping, lo: int, hi: int)
    requires
        lo <= base,
        base + item_code(s, base, cx).len() <= hi,
    ensures
        sound(item_code(s, base, cx), lo, hi, !in_loop(cx.zones)),
    decreases s, branch_count(s) + 3,
{
    if is_statement(s) {
        lemma_stmt(s, base, cx, lo, hi);
    } else {
        lemma_expr(s, base, cx, lo, hi);
    }
}

proof fn lemma_branches(s: Ast, i: int, base: int, cx: Scoping, lo: int, hi: int)
    requires
        lo <= base,
        base + branches_code(s, i, base, cx).len() <= hi,
    ensures
        sound(branches_code(s, i, base, cx), lo, hi, !in_loop(cx.zones)),
    decreases s,
        (if s is If && 0 <= i <= s->If_2.len() {
            s->If_2.len() + 1 - i
        } else {
            0
        }) as nat,
{
    let strict = !in_loop(cx.zones);
    if s is If && 0 <= i <= s->If_2.len() {
        let cond = if i == 0 {
            *s->If_0
        } else {
            s->If_2[i - 1].0
        };
        let body = if i == 0 {
            s->If_1
        } else {
            s->If_2[i - 1].1
        };
        let test = expr_code(cond, base, cx);
        let then = scoped_code(body, base + test.len() + 1, cx);
        let next = base + test.len() + 1 + then.len() + 1;
        let rest = branches_code(s, i + 1, next, cx);
        lemma_expr(cond, base, cx, lo, hi);
        lemma_scoped(body, base + test.len() + 1, cx, lo, hi);
        lemma_branches(s, i + 1, next, cx, lo, hi);
        lemma_join(test, seq![Instr::JumpIfFalse(next)], lo, hi, strict);
        lemma_join(test + seq![Instr::JumpIfFalse(next)], then, lo, hi, strict);
        lemma_join(
            test + seq![Instr::JumpIfFalse(next)] + then,
            seq![Instr::Jump(next + rest.len())],
            lo,
            hi,
            strict,
        );
        lemma_join(
            test + seq![Instr::JumpIfFalse(next)] + then + seq![Instr::Jump(next + rest.len())],
            rest,
            lo,
            hi,
            strict,
        );
    } else if s is If && i == s->If_2.len() + 1 {
        match s->If_3 {
            Some(body) => {
                lemma_scoped(body, base, cx, lo, hi);
            },
            None => {},
        }
    }
}

proof fn lemma_while(s: Ast, base: int, cx: Scoping, lo: int, hi: int)
    requires
        s is While,
        lo <= base,
        base + stmt_code(s, base, cx).len() <= hi,
    ensures
        sound(stmt_code(s, base, cx), lo, hi, true),
    decreases s, 1nat,
{
    match s {
        Ast::While(cond, body) => {
            let test = expr_code(*cond, base, cx);
            let inner = enter(enter(cx, Zone::Loop), Zone::Scope(Seq::empty()));
            let code = block_code(body, 0, base + test.len() + 2, inner);
            let end = base + test.len() + 2 + code.len() + 2;
            let head = seq![Instr::JumpIfFalse(end), Instr::EnterScope];
            let tail = seq![Instr::ExitScope, Instr::Jump(base)];
            lemma_expr(*cond, base, cx, lo, hi);
            lemma_block(body, 0, base + test.len() + 2, inner, lo, hi);
            lemma_resolved(code, end, base, lo, hi);
            lemma_join(test, head, lo, hi, true);
            lemma_join(test + head, resolve(code, end, base), lo, hi, true);
            lemma_join(test + head + resolve(code, end, base), tail, lo, hi, true);
        },
        _ => {},
    }
}

proof fn lemma_for_setup(s: Ast, base: int, cx: Scoping, lo: int, hi: int)
    requires
        s is For,
        lo <= base,
        base + for_setup_code(s, base, cx).len() <= hi,
    ensures
        sound(for_setup_code(s, base, cx), lo, hi, true),
    decreases s, 1nat,
{
    match s {
        Ast::For(var, start, end, step, body) => {
            let outer = enter(cx, Zone::Scope(Seq::empty()));
            let counting = counting_scope(cx, var);
            let from = expr_code(*start, base + 1, outer);
            let to = expr_code(*end, base + 1 + from.len() + 1, counting);
            let by = match step {
                Some(x) => expr_code(*x, base + 1 + from.len() + 1 + to.len() + 1, counting),
                None => seq![Instr::PushNumber("1"@)],
            };
            lemma_expr(*start, base + 1, outer, lo, hi);
            lemma_expr(*end, base + 1 + from.len() + 1, counting, lo, hi);
            match step {
                Some(x) => {
                    lemma_expr(*x, base + 1 + from.len() + 1 + to.len() + 1, counting, lo, hi);
                },
                None => {},
            }
            let opened = seq![Instr::EnterScope] + from;
            let counted = opened + seq![Instr::DeclareLocal(var)];
            let bounded = counted + to;
            let limited = bounded + seq![Instr::DeclareLocal(crate::lowering::bound_name())];
            let stepped = limited + by;
            lemma_join(seq![Instr::EnterScope], from, lo, hi, true);
            lemma_join(opened, seq![Instr::DeclareLocal(var)], lo, hi, true);
            lemma_join(counted, to, lo, hi, true);
            lemma_join(bounded, seq![Instr::DeclareLocal(crate::lowering::bound_name())], lo, hi, true);
            lemma_join(limited, by, lo, hi, true);
            lemma_join(stepped, seq![Instr::DeclareLocal(crate::lowering::step_name())], lo, hi, true);
        },
        _ => {},
    }
}

proof fn lemma_for_loop(s: Ast, test: int, counting: Scoping, lo: int, hi: int)
    requires
        s is For,
        lo <= test,
        test + for_loop_code(s, test, counting).len() <= hi,
    ensures
        sound(for_loop_code(s, test, counting), lo, hi, true),
    decreases s, 1nat,
{
    match s {
        Ast::For(var, start, end, step, body) => {
            let inner = enter(enter(counting, Zone::Loop), Zone::Scope(Seq::empty()));
            let code = block_code(body, 0, test + 5, inner);
            let next = test + 5 + code.len() + 1;
            let done = next + 5;
            let head = seq![
                Instr::LoadLocal(var),
                Instr::LoadLocal(crate::lowering::bound_name()),
                Instr::LessEqual,
                Instr::JumpIfFalse(done),
                Instr::EnterScope,
            ];
            let tail = seq![
                Instr::ExitScope,
                Instr::LoadLocal(var),
                Instr::LoadLocal(crate::lowering::step_name()),
                Instr::Add,
                Instr::StoreLocal(var),
                Instr::Jump(test),
            ];
            lemma_block(body, 0, test + 5, inner, lo, hi);
            lemma_resolved(code, done, next, lo, hi);
            lemma_join(head, resolve(code, done, next), lo, hi, true);
            lemma_join(head + resolve(code, done, next), tail, lo, hi, true);
        },
        _ => {},
    }
}

proof fn lemma_try(s: Ast, base: int, cx: Scoping, lo: int, hi: int)
    requires
        s is TryCatch,
        lo <= base,
        base + stmt_code(s, base, cx).len() <= hi,
    ensures
        sound(stmt_code(s, base, cx), lo, hi, !in_loop(cx.zones)),
    decreases s, 1nat,
{
    let strict = !in_loop(cx.zones);
    match s {
        Ast::TryCatch(try_body, var, catch_body) => {
            let guarded = enter(enter(cx, Zone::Handler), Zone::Scope(Seq::empty()));
            let tried = block_code(try_body, 0, base + 2, guarded);
            let handler = base + 2 + tried.len() + 3;
            let names = match var {
                Some(name) => seq![name],
                None => Seq::empty(),
            };
            let catching = enter(cx, Zone::Scope(names));
            let caught = block_code(catch_body, 0, handler + 2, catching);
            let head = seq![Instr::PushHandler(handler), Instr::EnterScope];
            let middle = seq![
                Instr::ExitScope,
                Instr::PopHandler,
                Instr::Jump(handler + 2 + caught.len() + 1),
                Instr::EnterScope,
                match var {
                    Some(name) => Instr::DeclareLocal(name),
                    None => Instr::Pop,
                },
            ];
            lemma_enter(cx, Zone::Handler);
            lemma_enter(enter(cx, Zone::Handler), Zone::Scope(Seq::empty()));
            lemma_enter(cx, Zone::Scope(names));
            lemma_block(try_body, 0, base + 2, guarded, lo, hi);
            lemma_block(catch_body, 0, handler + 2, catching, lo, hi);
            lemma_join(head, tried, lo, hi, strict);
            lemma_join(head + tried, middle, lo, hi, strict);
            lemma_join(head + tried + middle, caught, lo, hi, strict);
            lemma_join(head + tried + middle + caught, seq![Instr::ExitScope], lo, hi, strict);
        },
        _ => {},
    }
}

proof fn lemma_assignment(s: Ast, base: int, cx: Scoping, lo: int, hi: int)
    requires
        s is Assignment,
        lo <= base,
        base + stmt_code(s, base, cx).len() <= hi,
    ensures
        sound(stmt_code(s, base, cx), lo, hi, true),
    decreases s, 1nat,
{
    match s {
        Ast::Assignment(target, value) => match *target {
            Ast::Identifier(name) => {
                lemma_expr(*value, base, cx, lo, hi);
                lemma_push(expr_code(*value, base, cx), store_instr(cx, name), lo, hi, true);
            },
            Ast::Index(container, key) => {
                let a = expr_code(*container, base, cx);
                let k = expr_code(*key, base + a.len(), cx);
                let v = expr_code(*value, base + a.len() + k.len(), cx);
                lemma_expr(*container, base, cx, lo, hi);
                lemma_expr(*key, base + a.len(), cx, lo, hi);
                lemma_expr(*value, base + a.len() + k.len(), cx, lo, hi);
                lemma_join(a, k, lo, hi, true);
                lemma_join(a + k, v, lo, hi, true);
                lemma_join(
                    a + k + v,
                    seq![Instr::StoreIndex, store_back(*container, cx)],
                    lo,
                    hi,
                    true,
                );
            },
            Ast::MemberAccess(container, chain) => {
                if chain.len() == 0 {
                    lemma_expr(*value, base, cx, lo, hi);
                    lemma_push(expr_code(*value, base, cx), Instr::Pop, lo, hi, true);
                } else {
                    let a = expr_code(*container, base, cx);
                    let m = members_code(chain.drop_last());
                    let v = expr_code(*value, base + a.len() + m.len(), cx);
                    lemma_expr(*container, base, cx, lo, hi);
                    lemma_members(chain.drop_last(), lo, hi);
                    lemma_expr(*value, base + a.len() + m.len(), cx, lo, hi);
                    lemma_join(a, m, lo, hi, true);
                    lemma_join(a + m, v, lo, hi, true);
                    lemma_join(
                        a + m + v,
                        seq![
                            Instr::StoreMember(chain.last()),
                            if chain.len() == 1 {
                                store_back(*container, cx)
                            } else {
                                Instr::Pop
                            },
                        ],
                        lo,
                        hi,
                        true,
                    );
                }
            },
            _ => {
                lemma_expr(*value, base, cx, lo, hi);
                lemma_push(expr_code(*value, base, cx), Instr::Pop, lo, hi, true);
            },
        },
        _ => {},
    }
}

proof fn lemma_stmt(s: Ast, base: int, cx: Scoping, lo: int, hi: int)
    requires
        lo <= base,
        base + stmt_code(s, base, cx).len() <= hi,
    ensures
        sound(stmt_code(s, base, cx), lo, hi, !in_loop(cx.zones)),
    decreases s, branch_count(s) + 2,
{
    let strict = !in_loop(cx.zones);
    match s {
        Ast::Assignment(_, _) => {
            lemma_assignment(s, base, cx, lo, hi);
        },
        Ast::LocalAssignment(name, value) => {
            lemma_expr(*value, base, declare(cx, name), lo, hi);
            lemma_push(
                expr_code(*value, base, declare(cx, name)),
                Instr::DeclareLocal(name),
                lo,
                hi,
                true,
            );
        },
        Ast::Print(x) => {
            lemma_expr(*x, base, cx, lo, hi);
            lemma_push(expr_code(*x, base, cx), Instr::Print, lo, hi, true);
        },
        Ast::Import(_) => {},
        Ast::If(_, _, _, _) => {
            lemma_branches(s, 0, base, cx, lo, hi);
        },
        Ast::While(_, _) => {
            lemma_while(s, base, cx, lo, hi);
        },
        Ast::For(var, _, _, _, _) => {
            let setup = for_setup_code(s, base, cx);
            let looped = for_loop_code(s, base + setup.len(), counting_scope(cx, var));
            lemma_for_setup(s, base, cx, lo, hi);
            lemma_for_loop(s, base + setup.len(), counting_scope(cx, var), lo, hi);
            lemma_join(setup, looped, lo, hi, true);
            lemma_join(setup + looped, seq![Instr::ExitScope], lo, hi, true);
        },
        Ast::FunctionDef(name, params, body) => {
            lemma_closure(params, body, base, cx, lo, hi);
            lemma_push(closure_code(params, body, base, cx), store_instr(cx, name), lo, hi, true);
        },
        Ast::Return(value) => {
            match value {
                Some(x) => {
                    lemma_expr(*x, base, cx, lo, hi);
                    lemma_push(expr_code(*x, base, cx), Instr::Return, lo, hi, true);
                },
                None => {},
            }
        },
        Ast::Break => {
            lemma_leave(cx, Instr::Break, lo, hi);
        },
        Ast::Continue => {
            lemma_leave(cx, Instr::Continue, lo, hi);
        },
        Ast::TryCatch(_, _, _) => {
            lemma_try(s, base, cx, lo, hi);
        },
        Ast::Throw(x) => {
            lemma_expr(*x, base, cx, lo, hi);
            lemma_push(expr_code(*x, base, cx), Instr::Throw, lo, hi, true);
        },
        Ast::Block(body) => {
            lemma_scoped(body, base, cx, lo, hi);
        },
        _ => {
            lemma_expr(s, base, cx, lo, hi);
            lemma_push(expr_code(s, base, cx), Instr::Pop, lo, hi, true);
        },
    }
}

/// Compiled code is well formed: whatever the program, every jump, every
/// handler and every function entry of its code lies in the code or at its
/// end, and no `break` or `continue` is left without its target.
pub proof fn lemma_compiled_code_is_well_formed(ast: Ast)
    ensures
        well_formed(compile_spec(ast)),
{
    let cx = initial_scoping();
    let code = compile_spec(ast);
    assert(!in_loop(cx.zones)) by {
        assert(cx.zones.len() == 1);
        assert(unwind_code(cx.zones, 0) is None);
        assert(unwind_code(cx.zones, 1) is None);
    }
    match ast {
        Ast::Program(body) => {
            lemma_program(body, 0, 0, cx, 0, code.len() as int);
        },
        _ => {
            lemma_item(ast, 0, cx, 0, code.len() as int);
        },
    }
}

} // verus!
