//! What the compiler emits for each node of the syntax tree, stated over
//! mathematical trees and instruction sequences.
//!
//! Every function here takes `base`, the offset at which the code it
//! describes will stand, since jump targets are absolute.
use vstd::prelude::*;
use crate::ast::Ast;
use crate::bytecode::Instr;

verus! {

/// One region that encloses the point being compiled.
pub enum Zone {
    /// A lexical scope and the names declared in it so far.
    Scope(Seq<Seq<char>>),
    /// A try body whose handler is active.
    Handler,
    /// The start of a loop: `break` and `continue` unwind down to here.
    Loop,
    /// The start of a function body.
    Function,
}

/// What the compiler knows at a point of the program: the enclosing regions,
/// innermost last, and the modules imported so far.
pub struct Scoping {
    pub zones: Seq<Zone>,
    pub imports: Seq<Seq<char>>,
}

/// The state at the start of a program: one empty scope, nothing imported.
pub open spec fn initial_scoping() -> Scoping {
    Scoping { zones: seq![Zone::Scope(Seq::empty())], imports: Seq::empty() }
}

/// Whether one of the first `hi` regions is a scope that declares `name`.
pub open spec fn declared_below(zones: Seq<Zone>, hi: int, name: Seq<char>) -> bool
    decreases hi,
{
    if hi <= 0 {
        false
    } else {
        declared_below(zones, hi - 1, name) || match zones[hi - 1] {
            Zone::Scope(names) => names.contains(name),
            _ => false,
        }
    }
}

/// Whether an enclosing scope declares a name.
pub open spec fn is_declared(cx: Scoping, name: Seq<char>) -> bool {
    declared_below(cx.zones, cx.zones.len() as int, name)
}

/// Adds a name to the innermost scope.
pub open spec fn declare(cx: Scoping, name: Seq<char>) -> Scoping {
    if cx.zones.len() > 0 && cx.zones.last() is Scope {
        Scoping {
            zones: cx.zones.drop_last().push(Zone::Scope(cx.zones.last()->Scope_0.push(name))),
            imports: cx.imports,
        }
    } else {
        cx
    }
}

/// What is known inside a region entered at this point.
pub open spec fn enter(cx: Scoping, zone: Zone) -> Scoping {
    Scoping { zones: cx.zones.push(zone), imports: cx.imports }
}

/// The load of a variable: local where an enclosing scope declares the name.
pub open spec fn load_instr(cx: Scoping, name: Seq<char>) -> Instr {
    if is_declared(cx, name) {
        Instr::LoadLocal(name)
    } else {
        Instr::LoadGlobal(name)
    }
}

/// The store into a variable: local where an enclosing scope declares the name.
pub open spec fn store_instr(cx: Scoping, name: Seq<char>) -> Instr {
    if is_declared(cx, name) {
        Instr::StoreLocal(name)
    } else {
        Instr::StoreGlobal(name)
    }
}

/// The code of a binary operator; a symbol that is no operator drops both
/// operands and leaves nil.
pub open spec fn operator_code(op: Seq<char>) -> Seq<Instr> {
    if op == "+"@ {
        seq![Instr::Add]
    } else if op == "-"@ {
        seq![Instr::Sub]
    } else if op == "*"@ {
        seq![Instr::Mul]
    } else if op == "/"@ {
        seq![Instr::Div]
    } else if op == "%"@ {
        seq![Instr::Mod]
    } else if op == ".."@ {
        seq![Instr::Concat]
    } else if op == "=="@ {
        seq![Instr::Equal]
    } else if op == "~="@ {
        seq![Instr::NotEqual]
    } else if op == "<"@ {
        seq![Instr::Less]
    } else if op == ">"@ {
        seq![Instr::Greater]
    } else if op == "<="@ {
        seq![Instr::LessEqual]
    } else if op == ">="@ {
        seq![Instr::GreaterEqual]
    } else if op == "and"@ {
        seq![Instr::And]
    } else if op == "or"@ {
        seq![Instr::Or]
    } else {
        seq![Instr::Pop, Instr::Pop, Instr::PushNil]
    }
}

/// One member load for each name of a chain.
pub open spec fn members_code(chain: Seq<Seq<char>>) -> Seq<Instr> {
    Seq::new(chain.len(), |i: int| Instr::LoadMember(chain[i]))
}

/// The name that the loop bound of a `for` is kept under.
pub open spec fn bound_name() -> Seq<char> {
    "(end)"@
}

/// The name that the step of a `for` is kept under.
pub open spec fn step_name() -> Seq<char> {
    "(step)"@
}

// ---------------------------------------------------------------------------
// Free variables
// ---------------------------------------------------------------------------

/// Whether `name` occurs free in a node: referenced, and bound neither as a
/// parameter nor as a local of the node.
pub open spec fn free_in(e: Ast, name: Seq<char>) -> bool
    decreases e, 0nat,
{
    match e {
        Ast::Program(body) => free_in_block(body, 0, name),
        Ast::Identifier(n) => n == name,
        Ast::Assignment(target, value) => free_in(*target, name) || free_in(*value, name),
        Ast::LocalAssignment(n, value) => free_in(*value, name),
        Ast::BinaryOp(left, op, right) => free_in(*left, name) || free_in(*right, name),
        Ast::Not(x) => free_in(*x, name),
        Ast::FunctionCall(n, args) => n == name || free_in_any(args, 0, name),
        Ast::MethodCall(receiver, chain, args) => free_in(*receiver, name) || free_in_any(
            args,
            0,
            name,
        ),
        Ast::Print(x) => free_in(*x, name),
        Ast::Table(elements) => free_in_any(elements, 0, name),
        Ast::Dictionary(entries) => free_in_entries(entries, 0, name),
        Ast::Index(b, k) => free_in(*b, name) || free_in(*k, name),
        Ast::MemberAccess(b, chain) => free_in(*b, name),
        Ast::If(cond, then_body, clauses, else_body) => free_in(*cond, name) || free_in_block(
            then_body,
            0,
            name,
        ) || free_in_clauses(clauses, 0, name) || match else_body {
            Some(body) => free_in_block(body, 0, name),
            None => false,
        },
        Ast::While(cond, body) => free_in(*cond, name) || free_in_block(body, 0, name),
        Ast::For(var, start, end, step, body) => free_in(*start, name) || free_in(*end, name)
            || match step {
            Some(s) => free_in(*s, name),
            None => false,
        } || (var != name && free_in_block(body, 0, name)),
        Ast::FunctionDef(n, params, body) => n == name || (!params.contains(name)
            && free_in_block(body, 0, name)),
        Ast::Lambda(params, body) => !params.contains(name) && free_in_block(body, 0, name),
        Ast::Return(value) => match value {
            Some(x) => free_in(*x, name),
            None => false,
        },
        Ast::TryCatch(try_body, var, catch_body) => free_in_block(try_body, 0, name) || (var
            != Some(name) && free_in_block(catch_body, 0, name)),
        Ast::Throw(x) => free_in(*x, name),
        Ast::Block(body) => free_in_block(body, 0, name),
        _ => false,
    }
}

/// Whether `name` occurs free in one of the nodes from `i` on.
pub open spec fn free_in_any(es: Seq<Ast>, i: int, name: Seq<char>) -> bool
    decreases es, (if i < es.len() { es.len() - i } else { 0 }) as nat,
{
    if 0 <= i < es.len() {
        free_in(es[i], name) || free_in_any(es, i + 1, name)
    } else {
        false
    }
}

/// Whether `name` occurs free in the statements from `i` on: a `local` of
/// that name hides it from the statements after it.
pub open spec fn free_in_block(stmts: Seq<Ast>, i: int, name: Seq<char>) -> bool
    decreases stmts, (if i < stmts.len() { stmts.len() - i } else { 0 }) as nat,
{
    if 0 <= i < stmts.len() {
        free_in(stmts[i], name) || (!(stmts[i] matches Ast::LocalAssignment(n, _) && n == name)
            && free_in_block(stmts, i + 1, name))
    } else {
        false
    }
}

/// Whether `name` occurs free in a value of the entries from `i` on.
pub open spec fn free_in_entries(entries: Seq<(Seq<char>, Ast)>, i: int, name: Seq<char>) -> bool
    decreases entries, (if i < entries.len() { entries.len() - i } else { 0 }) as nat,
{
    if 0 <= i < entries.len() {
        free_in(entries[i].1, name) || free_in_entries(entries, i + 1, name)
    } else {
        false
    }
}

/// Whether `name` occurs free in the elseif clauses from `i` on.
pub open spec fn free_in_clauses(clauses: Seq<(Ast, Seq<Ast>)>, i: int, name: Seq<char>) -> bool
    decreases clauses, (if i < clauses.len() { clauses.len() - i } else { 0 }) as nat,
{
    if 0 <= i < clauses.len() {
        free_in(clauses[i].0, name) || free_in_block(clauses[i].1, 0, name) || free_in_clauses(
            clauses,
            i + 1,
            name,
        )
    } else {
        false
    }
}

/// Whether `name` occurs free in a function with these parameters and body.
pub open spec fn free_in_function(params: Seq<Seq<char>>, body: Seq<Ast>, name: Seq<char>) -> bool {
    !params.contains(name) && free_in_block(body, 0, name)
}

/// Of the first `hi` names, those free in the function, in order.
pub open spec fn select_free(
    names: Seq<Seq<char>>,
    hi: int,
    params: Seq<Seq<char>>,
    body: Seq<Ast>,
) -> Seq<Seq<char>>
    decreases hi,
{
    if hi <= 0 {
        Seq::empty()
    } else if free_in_function(params, body, names[hi - 1]) {
        select_free(names, hi - 1, params, body).push(names[hi - 1])
    } else {
        select_free(names, hi - 1, params, body)
    }
}

/// What a closure captures: of the names declared in the first `hi` regions,
/// outermost first, those free in the function.
pub open spec fn captures(zones: Seq<Zone>, hi: int, params: Seq<Seq<char>>, body: Seq<Ast>) -> Seq<
    Seq<char>,
>
    decreases hi,
{
    if hi <= 0 {
        Seq::empty()
    } else {
        match zones[hi - 1] {
            Zone::Scope(names) => captures(zones, hi - 1, params, body) + select_free(
                names,
                names.len() as int,
                params,
                body,
            ),
            _ => captures(zones, hi - 1, params, body),
        }
    }
}

// ---------------------------------------------------------------------------
// Leaving a loop
// ---------------------------------------------------------------------------

/// The code that leaves every region above the nearest loop, innermost
/// first, looking at the first `hi` regions; `None` where there is no loop
/// inside the current function.
pub open spec fn unwind_code(zones: Seq<Zone>, hi: int) -> Option<Seq<Instr>>
    decreases hi,
{
    if hi <= 0 {
        None
    } else {
        match zones[hi - 1] {
            Zone::Loop => Some(Seq::empty()),
            Zone::Function => None,
            Zone::Scope(_) => match unwind_code(zones, hi - 1) {
                Some(rest) => Some(seq![Instr::ExitScope] + rest),
                None => None,
            },
            Zone::Handler => match unwind_code(zones, hi - 1) {
                Some(rest) => Some(seq![Instr::PopHandler] + rest),
                None => None,
            },
        }
    }
}

/// The code of `break` or `continue`: leave the regions inside the loop,
/// then the pending jump; outside a loop, nothing.
pub open spec fn leave_code(cx: Scoping, pending: Instr) -> Seq<Instr> {
    match unwind_code(cx.zones, cx.zones.len() as int) {
        Some(code) => code.push(pending),
        None => seq![Instr::Nop],
    }
}

/// An instruction with the target of its loop put in where it is a pending jump.
pub open spec fn resolve_instr(ins: Instr, break_to: int, continue_to: int) -> Instr {
    match ins {
        Instr::Break => Instr::Jump(break_to),
        Instr::Continue => Instr::Jump(continue_to),
        _ => ins,
    }
}

/// A loop body with its pending jumps given their targets.
pub open spec fn resolve(code: Seq<Instr>, break_to: int, continue_to: int) -> Seq<Instr> {
    Seq::new(code.len(), |i: int| resolve_instr(code[i], break_to, continue_to))
}

// ---------------------------------------------------------------------------
// Expressions
// ---------------------------------------------------------------------------

/// A call through a one-name chain on an imported module that no local
/// hides goes straight to the native function.
pub open spec fn is_native_call(receiver: Ast, chain: Seq<Seq<char>>, cx: Scoping) -> bool {
    receiver matches Ast::Identifier(module) && chain.len() == 1 && cx.imports.contains(module)
        && !is_declared(cx, module)
}

/// The code of an expression: it leaves one value on the stack.
pub open spec fn expr_code(e: Ast, base: int, cx: Scoping) -> Seq<Instr>
    decreases e, 0nat,
{
    match e {
        Ast::Number(text) => seq![Instr::PushNumber(text)],
        Ast::String(text) => seq![Instr::PushString(text)],
        Ast::Boolean(b) => seq![Instr::PushBoolean(b)],
        Ast::Nil => seq![Instr::PushNil],
        Ast::Identifier(name) => seq![load_instr(cx, name)],
        Ast::BinaryOp(left, op, right) => {
            let a = expr_code(*left, base, cx);
            let b = expr_code(*right, base + a.len(), cx);
            a + b + operator_code(op)
        },
        Ast::Not(x) => expr_code(*x, base, cx).push(Instr::Not),
        Ast::FunctionCall(name, args) => seq![load_instr(cx, name)] + exprs_code(
            args,
            0,
            base + 1,
            cx,
        ) + seq![Instr::Call(args.len() as int)],
        Ast::MethodCall(receiver, chain, args) => if is_native_call(*receiver, chain, cx) {
            exprs_code(args, 0, base, cx).push(
                Instr::NativeCall(receiver->Identifier_0, chain[0], args.len() as int),
            )
        } else {
            let r = expr_code(*receiver, base, cx);
            let m = members_code(chain);
            r + m + exprs_code(args, 0, base + r.len() + m.len(), cx) + seq![
                Instr::Call(args.len() as int),
            ]
        },
        Ast::Print(x) => expr_code(*x, base, cx) + seq![Instr::Print, Instr::PushNil],
        Ast::Table(elements) => exprs_code(elements, 0, base, cx).push(
            Instr::MakeTable(elements.len() as int),
        ),
        Ast::Dictionary(entries) => entries_code(entries, 0, base, cx).push(
            Instr::MakeDictionary(entries.len() as int),
        ),
        Ast::Index(b, k) => {
            let a = expr_code(*b, base, cx);
            a + expr_code(*k, base + a.len(), cx) + seq![Instr::LoadIndex]
        },
        Ast::MemberAccess(b, chain) => expr_code(*b, base, cx) + members_code(chain),
        Ast::Lambda(params, body) => closure_code(params, body, base, cx),
        _ => seq![Instr::PushNil],
    }
}

/// The code of the expressions from `i` on, one after the other.
pub open spec fn exprs_code(es: Seq<Ast>, i: int, base: int, cx: Scoping) -> Seq<Instr>
    decreases es, (if i < es.len() { es.len() - i } else { 0 }) as nat,
{
    if 0 <= i < es.len() {
        let first = expr_code(es[i], base, cx);
        first + exprs_code(es, i + 1, base + first.len(), cx)
    } else {
        Seq::empty()
    }
}

/// The code of the dictionary entries from `i` on: each pushes its key and
/// its value.
pub open spec fn entries_code(
    entries: Seq<(Seq<char>, Ast)>,
    i: int,
    base: int,
    cx: Scoping,
) -> Seq<Instr>
    decreases entries, (if i < entries.len() { entries.len() - i } else { 0 }) as nat,
{
    if 0 <= i < entries.len() {
        let first = seq![Instr::PushString(entries[i].0)] + expr_code(
            entries[i].1,
            base + 1,
            cx,
        );
        first + entries_code(entries, i + 1, base + first.len(), cx)
    } else {
        Seq::empty()
    }
}

/// The code of a function value: a jump over the body, the body as a block
/// of its own that ends by returning nil, and the closure over it.
pub open spec fn closure_code(
    params: Seq<Seq<char>>,
    body: Seq<Ast>,
    base: int,
    cx: Scoping,
) -> Seq<Instr>
    decreases body, body.len() + 1,
{
    let inner = enter(enter(cx, Zone::Function), Zone::Scope(params));
    let code = block_code(body, 0, base + 1, inner);
    seq![Instr::Jump(base + 1 + code.len() + 2)] + code + seq![
        Instr::PushNil,
        Instr::Return,
        Instr::MakeClosure(
            params,
            base + 1,
            captures(cx.zones, cx.zones.len() as int, params, body),
        ),
    ]
}

// ---------------------------------------------------------------------------
// Statements
// ---------------------------------------------------------------------------

/// Whether a node is compiled as a statement; every other node is an
/// expression.
pub open spec fn is_statement(s: Ast) -> bool {
    s is Assignment || s is LocalAssignment || s is Print || s is Import || s is If
        || s is While || s is For || s is FunctionDef || s is Return || s is Break
        || s is Continue || s is TryCatch || s is Throw || s is Block
}

/// What the compiler knows after a statement.
pub open spec fn stmt_scoping(s: Ast, cx: Scoping) -> Scoping {
    match s {
        Ast::LocalAssignment(name, _) => declare(cx, name),
        Ast::Import(module) => Scoping { zones: cx.zones, imports: cx.imports.push(module) },
        _ => cx,
    }
}

/// After a store into a container: put the new container back where it came
/// from if that is a variable, else drop it.
pub open spec fn store_back(container: Ast, cx: Scoping) -> Instr {
    match container {
        Ast::Identifier(name) => store_instr(cx, name),
        _ => Instr::Pop,
    }
}

/// A statement list in a scope of its own.
pub open spec fn scoped_code(body: Seq<Ast>, base: int, cx: Scoping) -> Seq<Instr>
    decreases body, body.len() + 1,
{
    seq![Instr::EnterScope] + block_code(
        body,
        0,
        base + 1,
        enter(cx, Zone::Scope(Seq::empty())),
    ) + seq![Instr::ExitScope]
}

/// The code of the statements from `i` on; each is compiled with what the
/// ones before it declared.
pub open spec fn block_code(stmts: Seq<Ast>, i: int, base: int, cx: Scoping) -> Seq<Instr>
    decreases stmts, (if i < stmts.len() { stmts.len() - i } else { 0 }) as nat,
{
    if 0 <= i < stmts.len() {
        let first = stmt_code(stmts[i], base, cx);
        first + block_code(stmts, i + 1, base + first.len(), stmt_scoping(stmts[i], cx))
    } else {
        Seq::empty()
    }
}

/// The code of the top-level statements from `i` on: as in a block, but an
/// expression keeps its value on the stack.
pub open spec fn program_code(stmts: Seq<Ast>, i: int, base: int, cx: Scoping) -> Seq<Instr>
    decreases stmts, (if i < stmts.len() { stmts.len() - i } else { 0 }) as nat,
{
    if 0 <= i < stmts.len() {
        let first = item_code(stmts[i], base, cx);
        first + program_code(stmts, i + 1, base + first.len(), stmt_scoping(stmts[i], cx))
    } else {
        Seq::empty()
    }
}

/// The code of a top-level node: a statement as a statement, an expression
/// so that its value stays on the stack.
pub open spec fn item_code(s: Ast, base: int, cx: Scoping) -> Seq<Instr>
    decreases s, branch_count(s) + 3,
{
    if is_statement(s) {
        stmt_code(s, base, cx)
    } else {
        expr_code(s, base, cx)
    }
}

/// The number of branches of an `if`, its else-body counted; 0 for any
/// other node.
pub open spec fn branch_count(s: Ast) -> nat {
    match s {
        Ast::If(_, _, clauses, _) => clauses.len() + 2,
        _ => 0,
    }
}

/// The branches of an `if` from branch `i` on, where branch 0 is the `if`
/// itself and the others its elseif clauses: each tests its condition,
/// jumps to the next branch if it fails, and after its body jumps past the
/// whole statement.
pub open spec fn branches_code(s: Ast, i: int, base: int, cx: Scoping) -> Seq<Instr>
    decreases s,
        (if s is If && 0 <= i <= s->If_2.len() {
            s->If_2.len() + 1 - i
        } else {
            0
        }) as nat,
{
    if s is If && 0 <= i <= s->If_2.len() {
        let cond = if i == 0 {
            *s->If_0
        } else {
            s->If_2[i - 1].0
        };
        let body = if i == 0 {
            s->If_1
        } else {
            s->If_2[i - 1].1
        };
        let test = expr_code(cond, base, cx);
        let then = scoped_code(body, base + test.len() + 1, cx);
        let next = base + test.len() + 1 + then.len() + 1;
        let rest = branches_code(s, i + 1, next, cx);
        test + seq![Instr::JumpIfFalse(next)] + then + seq![Instr::Jump(next + rest.len())]
            + rest
    } else if s is If && i == s->If_2.len() + 1 {
        match s->If_3 {
            Some(body) => scoped_code(body, base, cx),
            None => Seq::empty(),
        }
    } else {
        Seq::empty()
    }
}

/// What is known inside the scope of a counting loop: a scope that declares
/// the loop variable.
pub open spec fn counting_scope(cx: Scoping, var: Seq<char>) -> Scoping {
    declare(enter(cx, Zone::Scope(Seq::empty())), var)
}

/// The start of a counting loop: open its scope and bind the variable, the
/// bound and the step, the step being 1 where none is written.
pub open spec fn for_setup_code(s: Ast, base: int, cx: Scoping) -> Seq<Instr>
    decreases s, 0nat,
{
    match s {
        Ast::For(var, start, end, step, body) => {
            let outer = enter(cx, Zone::Scope(Seq::empty()));
            let counting = counting_scope(cx, var);
            let from = expr_code(*start, base + 1, outer);
            let to = expr_code(*end, base + 1 + from.len() + 1, counting);
            let by = match step {
                Some(x) => expr_code(*x, base + 1 + from.len() + 1 + to.len() + 1, counting),
                None => seq![Instr::PushNumber("1"@)],
            };
            seq![Instr::EnterScope] + from + seq![Instr::DeclareLocal(var)] + to + seq![
                Instr::DeclareLocal(bound_name()),
            ] + by + seq![Instr::DeclareLocal(step_name())]
        },
        _ => Seq::empty(),
    }
}

/// The loop of a counting loop, standing at `test`: while the variable is at
/// most the bound, run the body in a scope of its own, then add the step.
/// `break` leaves to the end, `continue` goes to the increment.
pub open spec fn for_loop_code(s: Ast, test: int, counting: Scoping) -> Seq<Instr>
    decreases s, 0nat,
{
    match s {
        Ast::For(var, start, end, step, body) => {
            let inner = enter(enter(counting, Zone::Loop), Zone::Scope(Seq::empty()));
            let code = block_code(body, 0, test + 5, inner);
            let next = test + 5 + code.len() + 1;
            let done = next + 5;
            seq![
                Instr::LoadLocal(var),
                Instr::LoadLocal(bound_name()),
                Instr::LessEqual,
                Instr::JumpIfFalse(done),
                Instr::EnterScope,
            ] + resolve(code, done, next) + seq![
                Instr::ExitScope,
                Instr::LoadLocal(var),
                Instr::LoadLocal(step_name()),
                Instr::Add,
                Instr::StoreLocal(var),
                Instr::Jump(test),
            ]
        },
        _ => Seq::empty(),
    }
}

/// The code of a statement: it leaves the stack as it found it.
pub open spec fn stmt_code(s: Ast, base: int, cx: Scoping) -> Seq<Instr>
    decreases s, branch_count(s) + 2,
{
    match s {
        Ast::Assignment(target, value) => match *target {
            Ast::Identifier(name) => expr_code(*value, base, cx).push(store_instr(cx, name)),
            Ast::Index(container, key) => {
                let a = expr_code(*container, base, cx);
                let k = expr_code(*key, base + a.len(), cx);
                let v = expr_code(*value, base + a.len() + k.len(), cx);
                a + k + v + seq![Instr::StoreIndex, store_back(*container, cx)]
            },
            Ast::MemberAccess(container, chain) => if chain.len() == 0 {
                expr_code(*value, base, cx).push(Instr::Pop)
            } else {
                let a = expr_code(*container, base, cx);
                let m = members_code(chain.drop_last());
                let v = expr_code(*value, base + a.len() + m.len(), cx);
                a + m + v + seq![
                    Instr::StoreMember(chain.last()),
                    if chain.len() == 1 {
                        store_back(*container, cx)
                    } else {
                        Instr::Pop
                    },
                ]
            },
            _ => expr_code(*value, base, cx).push(Instr::Pop),
        },
        Ast::LocalAssignment(name, value) => expr_code(*value, base, declare(cx, name)).push(
            Instr::DeclareLocal(name),
        ),
        Ast::Print(x) => expr_code(*x, base, cx).push(Instr::Print),
        Ast::Import(module) => seq![Instr::Import(module)],
        Ast::If(_, _, _, _) => branches_code(s, 0, base, cx),
        Ast::While(cond, body) => {
            let test = expr_code(*cond, base, cx);
            let inner = enter(enter(cx, Zone::Loop), Zone::Scope(Seq::empty()));
            let code = block_code(body, 0, base + test.len() + 2, inner);
            let end = base + test.len() + 2 + code.len() + 2;
            test + seq![Instr::JumpIfFalse(end), Instr::EnterScope] + resolve(code, end, base)
                + seq![Instr::ExitScope, Instr::Jump(base)]
        },
        Ast::For(var, _, _, _, _) => {
            let setup = for_setup_code(s, base, cx);
            setup + for_loop_code(s, base + setup.len(), counting_scope(cx, var)) + seq![
                Instr::ExitScope,
            ]
        },
        Ast::FunctionDef(name, params, body) => closure_code(params, body, base, cx).push(
            store_instr(cx, name),
        ),
        Ast::Return(value) => match value {
            Some(x) => expr_code(*x, base, cx).push(Instr::Return),
            None => seq![Instr::PushNil, Instr::Return],
        },
        Ast::Break => leave_code(cx, Instr::Break),
        Ast::Continue => leave_code(cx, Instr::Continue),
        Ast::TryCatch(try_body, var, catch_body) => {
            let guarded = enter(enter(cx, Zone::Handler), Zone::Scope(Seq::empty()));
            let tried = block_code(try_body, 0, base + 2, guarded);
            let handler = base + 2 + tried.len() + 3;
            let catching = enter(
                cx,
                Zone::Scope(
                    match var {
                        Some(name) => seq![name],
                        None => Seq::empty(),
                    },
                ),
            );
            let caught = block_code(catch_body, 0, handler + 2, catching);
            seq![Instr::PushHandler(handler), Instr::EnterScope] + tried + seq![
                Instr::ExitScope,
                Instr::PopHandler,
                Instr::Jump(handler + 2 + caught.len() + 1),
                Instr::EnterScope,
                match var {
                    Some(name) => Instr::DeclareLocal(name),
                    None => Instr::Pop,
                },
            ] + caught + seq![Instr::ExitScope]
        },
        Ast::Throw(x) => expr_code(*x, base, cx).push(Instr::Throw),
        Ast::Block(body) => scoped_code(body, base, cx),
        _ => expr_code(s, base, cx).push(Instr::Pop),
    }
}

/// The code of a whole tree: a program's statements, or the one node.
pub open spec fn compile_spec(ast: Ast) -> Seq<Instr> {
    match ast {
        Ast::Program(body) => program_code(body, 0, 0, initial_scoping()),
        _ => item_code(ast, 0, initial_scoping()),
    }
}

} // verus!
