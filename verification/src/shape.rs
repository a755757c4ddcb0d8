//! Every tree that the grammar gives has the shape that the parser asks
//! for: a text that the grammar reads is a program, and one that can be told
//! from its tree again.
use vstd::prelude::*;
use crate::ast::Ast;
use crate::lexis::{
    is_word_start, number_end, operator_at, quote_at, skip_blank, skip_spaces, word_at, word_end,
};
use crate::parser::{
    ParseFault, assignment_spec, block_end, call_spec, clauses_end, clauses_spec,
    dictionary_spec, digits_end, entries_spec, expr_spec, exprs_spec, first_bad_operand,
    fold_spec, for_stmt_spec, function_def_spec, if_stmt_spec, is_assignable, is_digit,
    is_marker_rule, is_number_text, is_unsigned_number, lambda_spec, lemma_root_in_range,
    member_access_spec, method_call_spec, names_end, operator_count, program_body_spec,
    program_spec, root_operator, stmt_spec, stmts_spec, term_spec, try_stmt_spec,
    while_stmt_spec,
};
use crate::syntax::{
    block_g, branch, catch_var_at, char_at, depth_limit, elseifs_g, entries_g, expression_g,
    for_g, function_g, guarded_g, if_g, items_g, key_g, leaf, local_g, more_items_g, name_at,
    operations_g, params_g, postfix_g, primary_g, program_g, simple_g, starts_print_operand,
    statement_g, string_g, term_g, try_g, while_g,
};
use crate::tree::{ParseTree, Rule};
use crate::unparse::{
    is_call, is_expression, printable_clauses, printable_entries, printable_expr,
    printable_exprs, printable_stmt, printable_stmts,
};

verus! {

// ---------------------------------------------------------------------------
// Tokens
// ---------------------------------------------------------------------------

proof fn lemma_digits_run(s: Seq<char>, i: int)
    requires
        0 <= i <= s.len(),
    ensures
        i <= digits_end(s, i) <= s.len(),
        forall|j: int| i <= j < digits_end(s, i) ==> is_digit(#[trigger] s[j]),
        digits_end(s, i) == s.len() || !is_digit(s[digits_end(s, i)]),
    decreases s.len() - i,
{
    if i < s.len() && is_digit(s[i]) {
        lemma_digits_run(s, i + 1);
    }
}

proof fn lemma_digits_found(s: Seq<char>, i: int, k: int)
    requires
        0 <= i <= k <= s.len(),
        forall|j: int| i <= j < k ==> is_digit(#[trigger] s[j]),
        k == s.len() || !is_digit(s[k]),
    ensures
        digits_end(s, i) == k,
    decreases k - i,
{
    if i < k {
        assert(is_digit(s[i]));
        lemma_digits_found(s, i + 1, k);
    }
}

/// What the grammar reads as a number is a numeric literal.
pub proof fn lemma_number_token(s: Seq<char>, p: int)
    requires
        0 <= p < s.len(),
        is_digit(s[p]) || (s[p] == '-' && p + 1 < s.len() && is_digit(s[p + 1])),
    ensures
        p < number_end(s, p) <= s.len(),
        is_number_text(s.subrange(p, number_end(s, p))),
{
    let start = if s[p] == '-' {
        p + 1
    } else {
        p
    };
    lemma_digits_run(s, start);
    let whole = digits_end(s, start);
    assert(is_digit(s[start]));
    assert(whole > start);
    let e = number_end(s, p);
    if whole + 1 < s.len() && s[whole] == '.' && is_digit(s[whole + 1]) {
        lemma_digits_run(s, whole + 1);
        assert(e == digits_end(s, whole + 1));
    }
    let sub = s.subrange(p, e);
    let sub_start = start - p;
    assert forall|j: int| sub_start <= j < whole - p implies is_digit(#[trigger] sub[j]) by {
        assert(sub[j] == s[p + j]);
    }
    if whole == e {
        lemma_digits_found(sub, sub_start, sub.len() as int);
    } else {
        assert(sub[whole - p] == s[whole]);
        lemma_digits_found(sub, sub_start, whole - p);
        assert forall|j: int| whole - p + 1 <= j < sub.len() implies is_digit(
            #[trigger] sub[j],
        ) by {
            assert(sub[j] == s[p + j]);
        }
        lemma_digits_found(sub, whole - p + 1, sub.len() as int);
    }
    assert(sub[0] == s[p]);
    assert(is_unsigned_number(sub, sub_start));
}

proof fn lemma_quote_at(s: Seq<char>, i: int)
    requires
        0 <= i <= s.len(),
    ensures
        i <= quote_at(s, i) <= s.len(),
    decreases s.len() - i,
{
    if i < s.len() && s[i] != '"' {
        lemma_quote_at(s, i + 1);
    }
}

/// What the grammar reads as a string holds its two quotes.
proof fn lemma_string_token(s: Seq<char>, p: int)
    requires
        string_g(s, p) is Some,
    ensures
        string_g(s, p) matches Some((t, e)) && good_term(t) && t.rule == Rule::String
            && t.text.len() >= 2 && t.children.len() == 0 && p < e <= s.len(),
{
    lemma_quote_at(s, p + 1);
}

// ---------------------------------------------------------------------------
// What the parser makes of a good tree
// ---------------------------------------------------------------------------

/// An operand that parses to a node that can be told from its tree.
pub open spec fn good_term(t: ParseTree) -> bool {
    term_spec(t) matches Ok(a) && printable_expr(a)
}

/// An expression that parses to a node that can be told from its tree.
pub open spec fn good_expr(t: ParseTree) -> bool {
    expr_spec(t) matches Ok(a) && printable_expr(a)
}

/// A node in the place of a statement: it parses, and what it parses to can
/// be told from its tree; a node of the expression rule gives an expression,
/// and of the others only a call does.
pub open spec fn good_stmt(t: ParseTree) -> bool {
    match stmt_spec(t) {
        Ok(Some(a)) => printable_stmt(a) && if t.rule == Rule::Expression {
            printable_expr(a)
        } else {
            !is_expression(a) || is_call(a)
        },
        Ok(None) => true,
        Err(_) => false,
    }
}

proof fn lemma_expression_is_statement(a: Ast)
    requires
        printable_expr(a),
    ensures
        is_expression(a),
        printable_stmt(a),
{
}

// ---------------------------------------------------------------------------
// Runs of siblings
// ---------------------------------------------------------------------------

proof fn lemma_stmts_good(kids: Seq<ParseTree>, lo: int, hi: int)
    requires
        forall|j: int| 0 <= j < kids.len() ==> good_stmt(#[trigger] kids[j]),
    ensures
        stmts_spec(kids, lo, hi) matches Ok(items) && printable_stmts(items),
    decreases (if hi > lo { hi - lo } else { 0 }),
{
    if !(hi <= lo || !(0 <= hi - 1 < kids.len())) {
        lemma_stmts_good(kids, lo, hi - 1);
        assert(good_stmt(kids[hi - 1]));
        let before = stmts_spec(kids, lo, hi - 1)->Ok_0;
        assert(printable_stmts(before));
        match stmt_spec(kids[hi - 1]) {
            Ok(Some(node)) => {
                let items = before.push(node);
                assert forall|i: int| 0 <= i < items.len() implies printable_stmt(
                    #[trigger] items[i],
                ) by {
                    if i < before.len() {
                        assert(items[i] == before[i]);
                    }
                }
            },
            _ => {},
        }
    } else {
        assert(printable_stmts(Seq::<Ast>::empty()));
    }
}

/// The statements of a run start with what its first node parses to.
proof fn lemma_stmts_head(kids: Seq<ParseTree>, lo: int, hi: int)
    requires
        0 <= lo < hi <= kids.len(),
        stmt_spec(kids[lo]) matches Ok(Some(a)),
        stmts_spec(kids, lo, hi) is Ok,
    ensures
        stmts_spec(kids, lo, hi)->Ok_0.len() > 0,
        Some(stmts_spec(kids, lo, hi)->Ok_0[0]) == stmt_spec(kids[lo])->Ok_0,
    decreases hi - lo,
{
    if hi - 1 > lo {
        lemma_stmts_head(kids, lo, hi - 1);
    } else {
        assert(stmts_spec(kids, lo, lo) == Ok::<Seq<Ast>, ParseFault>(Seq::empty()));
    }
}

proof fn lemma_exprs_good(kids: Seq<ParseTree>, lo: int, hi: int)
    requires
        0 <= lo,
        forall|j: int| lo <= j < kids.len() ==> good_expr(#[trigger] kids[j]),
    ensures
        exprs_spec(kids, lo, hi) matches Ok(items) && printable_exprs(items) && items.len() == (
        if lo <= hi <= kids.len() {
            hi - lo
        } else {
            items.len() as int
        }),
    decreases (if hi > lo { hi - lo } else { 0 }),
{
    if !(hi <= lo || !(0 <= hi - 1 < kids.len())) {
        lemma_exprs_good(kids, lo, hi - 1);
        assert(good_expr(kids[hi - 1]));
        let before = exprs_spec(kids, lo, hi - 1)->Ok_0;
        assert(printable_exprs(before));
        let node = expr_spec(kids[hi - 1])->Ok_0;
        let items = before.push(node);
        assert forall|i: int| 0 <= i < items.len() implies printable_expr(#[trigger] items[i]) by {
            if i < before.len() {
                assert(items[i] == before[i]);
            }
        }
    } else {
        assert(printable_exprs(Seq::<Ast>::empty()));
    }
}

proof fn lemma_operands_good(kids: Seq<ParseTree>, count: int)
    requires
        forall|j: int| 0 <= j && 2 * j < kids.len() ==> good_term(#[trigger] kids[2 * j]),
    ensures
        first_bad_operand(kids, 0, count) is None,
    decreases (if count > 0 { count } else { 0 }),
{
    if !(count <= 0 || !(2 * (count - 1) < kids.len())) {
        lemma_operands_good(kids, count - 1);
        assert(good_term(kids[2 * (count - 1)]));
    }
}

proof fn lemma_fold_good(kids: Seq<ParseTree>, lo: int, hi: int)
    requires
        forall|j: int| 0 <= j && 2 * j < kids.len() ==> good_term(#[trigger] kids[2 * j]),
        0 <= lo <= hi,
        2 * hi < kids.len(),
    ensures
        printable_expr(fold_spec(kids, lo, hi)),
    decreases hi - lo,
{
    if hi <= lo {
        assert(good_term(kids[2 * lo]));
    } else {
        lemma_root_in_range(kids, lo, hi);
        let k = root_operator(kids, lo, hi);
        lemma_fold_good(kids, lo, k);
        lemma_fold_good(kids, k + 1, hi);
    }
}

/// An elseif clause as the parser asks for it: a condition and statements.
pub open spec fn clause_good(t: ParseTree) -> bool {
    &&& t.children.len() >= 1
    &&& good_expr(t.children[0])
    &&& forall|j: int| 0 <= j < t.children.len() ==> good_stmt(#[trigger] t.children[j])
}

proof fn lemma_clauses_run(kids: Seq<ParseTree>, i: int)
    requires
        0 <= i <= kids.len(),
    ensures
        i <= clauses_end(kids, i) <= kids.len(),
        forall|j: int|
            i <= j < clauses_end(kids, i) ==> (#[trigger] kids[j]).rule == Rule::ElseifClause,
    decreases kids.len() - i,
{
    if i < kids.len() && kids[i].rule == Rule::ElseifClause {
        lemma_clauses_run(kids, i + 1);
    }
}

proof fn lemma_block_run(kids: Seq<ParseTree>, i: int)
    requires
        0 <= i <= kids.len(),
    ensures
        i <= block_end(kids, i) <= kids.len(),
    decreases kids.len() - i,
{
    if i < kids.len() && !is_marker_rule(kids[i].rule) {
        lemma_block_run(kids, i + 1);
    }
}

proof fn lemma_clauses_good(kids: Seq<ParseTree>, lo: int, hi: int)
    requires
        0 <= lo,
        forall|j: int| lo <= j < hi && j < kids.len() ==> clause_good(#[trigger] kids[j]),
    ensures
        clauses_spec(kids, lo, hi) matches Ok(clauses) && printable_clauses(clauses),
    decreases (if hi > lo { hi - lo } else { 0 }),
{
    if !(hi <= lo || !(0 <= hi - 1 < kids.len())) {
        lemma_clauses_good(kids, lo, hi - 1);
        assert(clause_good(kids[hi - 1]));
        let k = kids[hi - 1].children;
        lemma_stmts_good(k, 1, k.len() as int);
        let before = clauses_spec(kids, lo, hi - 1)->Ok_0;
        assert(printable_clauses(before));
        let clause = (expr_spec(k[0])->Ok_0, stmts_spec(k, 1, k.len() as int)->Ok_0);
        let all = before.push(clause);
        assert forall|i: int| 0 <= i < all.len() implies printable_expr((#[trigger] all[i]).0)
            && printable_stmts(all[i].1) by {
            if i < before.len() {
                assert(all[i] == before[i]);
            }
        }
    } else {
        assert(printable_clauses(Seq::<(Ast, Seq<Ast>)>::empty()));
    }
}

/// A dictionary entry as the parser asks for it.
pub open spec fn entry_good(t: ParseTree) -> bool {
    (t.rule == Rule::DictEntry && t.children.len() >= 2) ==> {
        &&& (t.children[0].rule == Rule::String ==> t.children[0].text.len() >= 2)
        &&& good_expr(t.children[1])
    }
}

proof fn lemma_entries_good(kids: Seq<ParseTree>, hi: int)
    requires
        forall|j: int| 0 <= j < kids.len() ==> entry_good(#[trigger] kids[j]),
    ensures
        entries_spec(kids, hi) matches Ok(entries) && printable_entries(entries),
    decreases (if hi > 0 { hi } else { 0 }),
{
    if !(hi <= 0 || !(hi - 1 < kids.len())) {
        lemma_entries_good(kids, hi - 1);
        assert(entry_good(kids[hi - 1]));
        let before = entries_spec(kids, hi - 1)->Ok_0;
        assert(printable_entries(before));
        let k = kids[hi - 1].children;
        if kids[hi - 1].rule == Rule::DictEntry && k.len() >= 2 {
            assert(good_expr(k[1]));
            let all = entries_spec(kids, hi)->Ok_0;
            assert forall|i: int| 0 <= i < all.len() implies printable_expr(
                (#[trigger] all[i]).1,
            ) by {
                if i < before.len() {
                    assert(all[i] == before[i]);
                }
            }
        }
    } else {
        assert(printable_entries(Seq::<(Seq<char>, Ast)>::empty()));
    }
}

/// A term that can stand left of `=` parses to a place.
proof fn lemma_target_is_place(t: ParseTree)
    requires
        term_spec(t) is Ok,
        t.rule == Rule::Identifier || t.rule == Rule::MemberAccess || t.rule
            == Rule::IndexAccess,
    ensures
        is_assignable(term_spec(t)->Ok_0),
{
    if t.rule == Rule::MemberAccess {
        assert(term_spec(t) == member_access_spec(t));
        assert(member_access_spec(t)->Ok_0 is MemberAccess);
    }
}

// ---------------------------------------------------------------------------
// Nodes
// ---------------------------------------------------------------------------

/// What follows the first term of an expression: operators and terms in
/// turn, every term a good one.
pub open spec fn operations_good(rest: Seq<ParseTree>) -> bool {
    &&& rest.len() % 2 == 0
    &&& forall|j: int| 0 <= j && 2 * j + 1 < rest.len() ==> good_term(#[trigger] rest[2 * j + 1])
}

/// Expressions, every one a good one.
pub open spec fn items_good(items: Seq<ParseTree>) -> bool {
    forall|j: int|
        0 <= j < items.len() ==> good_expr(#[trigger] items[j]) && items[j].rule
            == Rule::Expression
}

/// Nodes in the place of statements, every one a good one, none a block
/// marker.
pub open spec fn stmts_good(nodes: Seq<ParseTree>) -> bool {
    forall|j: int|
        0 <= j < nodes.len() ==> good_stmt(#[trigger] nodes[j]) && !is_marker_rule(nodes[j].rule)
}

proof fn lemma_all_stmts(nodes: Seq<ParseTree>)
    requires
        stmts_good(nodes),
    ensures
        forall|j: int| 0 <= j < nodes.len() ==> good_stmt(#[trigger] nodes[j]),
{
}

proof fn lemma_stmts_join(a: Seq<ParseTree>, b: Seq<ParseTree>)
    requires
        stmts_good(a),
        stmts_good(b),
    ensures
        stmts_good(a + b),
{
    let all = a + b;
    assert forall|j: int| 0 <= j < all.len() implies good_stmt(#[trigger] all[j])
        && !is_marker_rule(all[j].rule) by {
        if j < a.len() {
            assert(all[j] == a[j]);
        } else {
            assert(all[j] == b[j - a.len()]);
        }
    }
}

proof fn lemma_name_leaf(name: ParseTree)
    requires
        name.rule == Rule::Identifier,
    ensures
        good_stmt(name),
        good_term(name),
        !is_marker_rule(name.rule),
{
}

proof fn lemma_expression_node(first: ParseTree, rest: Seq<ParseTree>, text: Seq<char>)
    requires
        good_term(first),
        operations_good(rest),
    ensures
        good_expr(ParseTree { rule: Rule::Expression, text, children: seq![first] + rest }),
        good_stmt(ParseTree { rule: Rule::Expression, text, children: seq![first] + rest }),
{
    let t = ParseTree { rule: Rule::Expression, text, children: seq![first] + rest };
    let c = t.children;
    assert forall|j: int| 0 <= j && 2 * j < c.len() implies good_term(#[trigger] c[2 * j]) by {
        if j == 0 {
            assert(c[0] == first);
        } else {
            assert(c[2 * j] == rest[2 * (j - 1) + 1]);
        }
    }
    let n = operator_count(c);
    lemma_operands_good(c, n + 1);
    lemma_fold_good(c, 0, n);
    assert(expr_spec(t) == Ok::<Ast, ParseFault>(fold_spec(c, 0, n)));
    lemma_expression_is_statement(fold_spec(c, 0, n));
}

proof fn lemma_call_node(node: ParseTree, args: Seq<ParseTree>, text: Seq<char>)
    requires
        good_term(node),
        node.rule == Rule::Identifier || node.rule == Rule::MemberAccess,
        items_good(args),
    ensures
        ({
            let t = ParseTree {
                rule: if node.rule == Rule::Identifier {
                    Rule::FunctionCall
                } else {
                    Rule::MethodCall
                },
                text,
                children: seq![node] + args,
            };
            good_term(t) && is_call(term_spec(t)->Ok_0)
        }),
{
    let t = ParseTree {
        rule: if node.rule == Rule::Identifier {
            Rule::FunctionCall
        } else {
            Rule::MethodCall
        },
        text,
        children: seq![node] + args,
    };
    let c = t.children;
    assert(c[0] == node);
    assert forall|j: int| 1 <= j < c.len() implies good_expr(#[trigger] c[j]) && c[j].rule
        == Rule::Expression by {
        assert(c[j] == args[j - 1]);
    }
    lemma_exprs_good(c, 1, c.len() as int);
    if node.rule == Rule::Identifier {
        if c.len() > 2 {
            assert(c[2].rule == Rule::Expression);
        }
        if c.len() >= 2 {
            assert(good_expr(c[1]));
        }
        assert(call_spec(t) is Ok);
        assert(printable_expr(call_spec(t)->Ok_0));
        assert(term_spec(t) == call_spec(t));
    } else {
        assert(term_spec(node) == member_access_spec(node));
        assert(node.children.len() >= 1 && good_term(node.children[0]));
        assert(method_call_spec(t) is Ok);
        assert(printable_expr(method_call_spec(t)->Ok_0));
        assert(term_spec(t) == method_call_spec(t));
    }
}

proof fn lemma_member_node(node: ParseTree, name: ParseTree, text: Seq<char>)
    requires
        good_term(node),
    ensures
        good_term(
            ParseTree {
                rule: Rule::MemberAccess,
                text,
                children: if node.rule == Rule::MemberAccess {
                    node.children.push(name)
                } else {
                    seq![node, name]
                },
            },
        ),
{
    let t = ParseTree {
        rule: Rule::MemberAccess,
        text,
        children: if node.rule == Rule::MemberAccess {
            node.children.push(name)
        } else {
            seq![node, name]
        },
    };
    if node.rule == Rule::MemberAccess {
        assert(term_spec(node) == member_access_spec(node));
        assert(node.children.len() >= 1 && good_term(node.children[0]));
        assert(t.children[0] == node.children[0]);
    } else {
        assert(t.children[0] == node);
    }
    assert(member_access_spec(t) is Ok);
    assert(printable_expr(member_access_spec(t)->Ok_0));
    assert(term_spec(t) == member_access_spec(t));
}

proof fn lemma_index_node(node: ParseTree, key: ParseTree, text: Seq<char>)
    requires
        good_term(node),
        good_expr(key),
    ensures
        good_term(ParseTree { rule: Rule::IndexAccess, text, children: seq![node, key] }),
{
    let t = ParseTree { rule: Rule::IndexAccess, text, children: seq![node, key] };
    assert(t.children[0] == node);
    assert(t.children[1] == key);
}

proof fn lemma_wrapped_node(rule: Rule, inner: ParseTree, text: Seq<char>)
    requires
        rule == Rule::Term && good_expr(inner) || rule == Rule::NotExpr && good_term(inner),
    ensures
        good_term(ParseTree { rule, text, children: seq![inner] }),
{
    let t = ParseTree { rule, text, children: seq![inner] };
    assert(t.children[0] == inner);
}

proof fn lemma_table_node(items: Seq<ParseTree>, text: Seq<char>)
    requires
        items_good(items),
    ensures
        good_term(ParseTree { rule: Rule::Table, text, children: items }),
{
    lemma_exprs_good(items, 0, items.len() as int);
}

proof fn lemma_dictionary_node(entries: Seq<ParseTree>, text: Seq<char>)
    requires
        forall|j: int| 0 <= j < entries.len() ==> entry_good(#[trigger] entries[j]),
    ensures
        good_term(ParseTree { rule: Rule::Dictionary, text, children: entries }),
{
    let t = ParseTree { rule: Rule::Dictionary, text, children: entries };
    lemma_entries_good(entries, entries.len() as int);
    assert(dictionary_spec(t) is Ok);
    assert(term_spec(t) == dictionary_spec(t));
}

proof fn lemma_lambda_node(parts: Seq<ParseTree>, text: Seq<char>)
    requires
        stmts_good(parts),
    ensures
        good_term(ParseTree { rule: Rule::Lambda, text, children: parts }),
{
    let t = ParseTree { rule: Rule::Lambda, text, children: parts };
    lemma_all_stmts(parts);
    lemma_stmts_good(parts, names_end(parts, 0), parts.len() as int);
    assert(lambda_spec(t) is Ok);
    assert(printable_expr(lambda_spec(t)->Ok_0));
    assert(term_spec(t) == lambda_spec(t));
}

proof fn lemma_local_node(name: ParseTree, value: ParseTree, text: Seq<char>)
    requires
        good_expr(value),
    ensures
        good_stmt(ParseTree { rule: Rule::LocalAssignment, text, children: seq![name, value] }),
{
    let t = ParseTree { rule: Rule::LocalAssignment, text, children: seq![name, value] };
    assert(t.children[1] == value);
}

proof fn lemma_assignment_node(target: ParseTree, value: ParseTree, text: Seq<char>)
    requires
        good_term(target),
        target.rule == Rule::Identifier || target.rule == Rule::MemberAccess || target.rule
            == Rule::IndexAccess,
        good_expr(value),
    ensures
        good_stmt(ParseTree { rule: Rule::Assignment, text, children: seq![target, value] }),
{
    let t = ParseTree { rule: Rule::Assignment, text, children: seq![target, value] };
    assert(t.children[0] == target);
    assert(t.children[1] == value);
    lemma_target_is_place(target);
    assert(assignment_spec(t) is Ok);
    assert(stmt_spec(t) == assignment_spec(t));
}

proof fn lemma_call_statement(target: ParseTree)
    requires
        good_term(target),
        is_call(term_spec(target)->Ok_0),
        target.rule == Rule::FunctionCall || target.rule == Rule::MethodCall,
    ensures
        good_stmt(target),
{
    if target.rule == Rule::FunctionCall {
        assert(term_spec(target) == call_spec(target));
    } else {
        assert(term_spec(target) == method_call_spec(target));
    }
    lemma_expression_is_statement(term_spec(target)->Ok_0);
}

/// A statement of one expression: `return`, `throw` or `print` with its
/// value.
proof fn lemma_unary_node(rule: Rule, value: ParseTree, text: Seq<char>)
    requires
        rule == Rule::ReturnStmt || rule == Rule::ThrowStmt || rule == Rule::PrintStmt,
        good_expr(value),
    ensures
        good_stmt(ParseTree { rule, text, children: seq![value] }),
{
    let t = ParseTree { rule, text, children: seq![value] };
    assert(t.children[0] == value);
}

proof fn lemma_import_node(path: ParseTree, text: Seq<char>)
    requires
        path.text.len() >= 2,
    ensures
        good_stmt(ParseTree { rule: Rule::ImportStmt, text, children: seq![path] }),
{
    let t = ParseTree { rule: Rule::ImportStmt, text, children: seq![path] };
    assert(t.children[0] == path);
}

proof fn lemma_leaf_statement(rule: Rule, text: Seq<char>)
    requires
        rule == Rule::ReturnStmt || rule == Rule::BreakStmt || rule == Rule::ContinueStmt,
    ensures
        good_stmt(ParseTree { rule, text, children: Seq::empty() }),
{
}

proof fn lemma_block_node(body: Seq<ParseTree>, text: Seq<char>)
    requires
        stmts_good(body),
    ensures
        good_stmt(ParseTree { rule: Rule::Block, text, children: body }),
{
    lemma_all_stmts(body);
    lemma_stmts_good(body, 0, body.len() as int);
}

proof fn lemma_def_node(name: ParseTree, parts: Seq<ParseTree>, text: Seq<char>)
    requires
        name.rule == Rule::Identifier,
        stmts_good(parts),
    ensures
        good_stmt(ParseTree { rule: Rule::FunctionDef, text, children: seq![name] + parts }),
{
    let c = seq![name] + parts;
    let t = ParseTree { rule: Rule::FunctionDef, text, children: c };
    lemma_name_leaf(name);
    lemma_stmts_join(seq![name], parts);
    lemma_all_stmts(c);
    lemma_stmts_good(c, names_end(c, 1), c.len() as int);
    assert(function_def_spec(t) is Ok);
    assert(stmt_spec(t) == function_def_spec(t));
}

/// A condition and its body as the parser asks for them.
pub open spec fn guarded_good(parts: Seq<ParseTree>) -> bool {
    &&& parts.len() >= 1
    &&& good_expr(parts[0])
    &&& parts[0].rule == Rule::Expression
    &&& stmts_good(parts)
}

/// Elseif clauses as the parser asks for them.
pub open spec fn clauses_good(clauses: Seq<ParseTree>) -> bool {
    forall|j: int|
        0 <= j < clauses.len() ==> (#[trigger] clauses[j]).rule == Rule::ElseifClause
            && clause_good(clauses[j])
}

proof fn lemma_clause_node(parts: Seq<ParseTree>, text: Seq<char>)
    requires
        guarded_good(parts),
    ensures
        clause_good(ParseTree { rule: Rule::ElseifClause, text, children: parts }),
        good_stmt(ParseTree { rule: Rule::ElseifClause, text, children: parts }),
{
}

/// The children of an `if` node as the parser asks for them: a condition,
/// statements, elseif clauses, and at most an else clause of statements.
pub open spec fn if_children_good(c: Seq<ParseTree>) -> bool {
    &&& c.len() >= 1
    &&& good_expr(c[0])
    &&& forall|j: int| 0 <= j < c.len() ==> good_stmt(#[trigger] c[j])
    &&& forall|j: int|
        0 <= j < c.len() && (#[trigger] c[j]).rule == Rule::ElseifClause ==> clause_good(c[j])
    &&& forall|j: int|
        0 <= j < c.len() && (#[trigger] c[j]).rule == Rule::ElseClause ==> forall|k: int|
            0 <= k < c[j].children.len() ==> good_stmt(#[trigger] c[j].children[k])
}

proof fn lemma_if_node(c: Seq<ParseTree>, text: Seq<char>)
    requires
        if_children_good(c),
    ensures
        good_stmt(ParseTree { rule: Rule::IfStmt, text, children: c }),
{
    let t = ParseTree { rule: Rule::IfStmt, text, children: c };
    lemma_block_run(c, 1);
    let then_end = block_end(c, 1);
    lemma_clauses_run(c, then_end);
    let else_at = clauses_end(c, then_end);
    lemma_stmts_good(c, 1, then_end);
    assert forall|j: int| then_end <= j < else_at && j < c.len() implies clause_good(
        #[trigger] c[j],
    ) by {
        assert(c[j].rule == Rule::ElseifClause);
    }
    lemma_clauses_good(c, then_end, else_at);
    if 0 <= else_at < c.len() && c[else_at].rule == Rule::ElseClause {
        let k = c[else_at].children;
        assert forall|i: int| 0 <= i < k.len() implies good_stmt(#[trigger] k[i]) by {
            assert(c[else_at].rule == Rule::ElseClause);
        }
        lemma_stmts_good(k, 0, k.len() as int);
    }
    assert(if_stmt_spec(t) is Ok);
    assert(printable_stmt(if_stmt_spec(t)->Ok_0->0));
    assert(stmt_spec(t) == if_stmt_spec(t));
}

proof fn lemma_while_node(parts: Seq<ParseTree>, text: Seq<char>)
    requires
        guarded_good(parts),
    ensures
        good_stmt(ParseTree { rule: Rule::WhileStmt, text, children: parts }),
{
    let t = ParseTree { rule: Rule::WhileStmt, text, children: parts };
    lemma_all_stmts(parts);
    lemma_stmts_good(parts, 1, parts.len() as int);
    assert(while_stmt_spec(t) is Ok);
    assert(stmt_spec(t) == while_stmt_spec(t));
}

proof fn lemma_for_node(c: Seq<ParseTree>, text: Seq<char>)
    requires
        c.len() >= 3,
        good_expr(c[1]),
        good_expr(c[2]),
        forall|j: int| 0 <= j < c.len() ==> good_stmt(#[trigger] c[j]),
        c.len() > 3 ==> stmt_spec(c[3]) matches Ok(Some(_)),
    ensures
        good_stmt(ParseTree { rule: Rule::ForStmt, text, children: c }),
{
    let t = ParseTree { rule: Rule::ForStmt, text, children: c };
    let start = expr_spec(c[1])->Ok_0;
    let end = expr_spec(c[2])->Ok_0;
    lemma_stmts_good(c, 3, c.len() as int);
    lemma_stmts_good(c, 4, c.len() as int);
    if c.len() > 3 && c[3].rule == Rule::Expression {
        assert(good_stmt(c[3]));
        let step = expr_spec(c[3])->Ok_0;
        assert(stmt_spec(c[3]) == Ok::<Option<Ast>, ParseFault>(Some(step)));
        assert(printable_expr(step));
        let body = stmts_spec(c, 4, c.len() as int)->Ok_0;
        let a = Ast::For(c[0].text, Box::new(start), Box::new(end), Some(Box::new(step)), body);
        assert(for_stmt_spec(t) == Ok::<Option<Ast>, ParseFault>(Some(a)));
        assert(printable_stmt(a));
    } else {
        let body = stmts_spec(c, 3, c.len() as int)->Ok_0;
        let a = Ast::For(c[0].text, Box::new(start), Box::new(end), None, body);
        assert(for_stmt_spec(t) == Ok::<Option<Ast>, ParseFault>(Some(a)));
        if c.len() > 3 {
            assert(good_stmt(c[3]));
            lemma_stmts_head(c, 3, c.len() as int);
            assert(!is_expression(body[0]) || is_call(body[0]));
        } else {
            assert(body.len() == 0);
        }
        assert(printable_stmt(a));
    }
    assert(stmt_spec(t) == for_stmt_spec(t));
}

proof fn lemma_try_node(c: Seq<ParseTree>, text: Seq<char>)
    requires
        forall|j: int| 0 <= j < c.len() ==> good_stmt(#[trigger] c[j]),
        forall|j: int|
            0 <= j < c.len() && (#[trigger] c[j]).rule == Rule::CatchClause ==> forall|k: int|
                0 <= k < c[j].children.len() ==> good_stmt(#[trigger] c[j].children[k]),
    ensures
        good_stmt(ParseTree { rule: Rule::TryStmt, text, children: c }),
{
    let t = ParseTree { rule: Rule::TryStmt, text, children: c };
    lemma_block_run(c, 0);
    let try_end = block_end(c, 0);
    lemma_stmts_good(c, 0, try_end);
    if 0 <= try_end < c.len() && c[try_end].rule == Rule::CatchClause {
        let k = c[try_end].children;
        assert forall|i: int| 0 <= i < k.len() implies good_stmt(#[trigger] k[i]) by {
            assert(c[try_end].rule == Rule::CatchClause);
        }
        lemma_stmts_good(k, 0, k.len() as int);
        lemma_stmts_good(k, 1, k.len() as int);
    } else {
        assert(printable_stmts(Seq::<Ast>::empty()));
    }
    assert(try_stmt_spec(t) is Ok);
    assert(printable_stmt(try_stmt_spec(t)->Ok_0->0));
    assert(stmt_spec(t) == try_stmt_spec(t));
}

/// A statement that is in the place of a statement and parses to one.
pub open spec fn real_stmt(t: ParseTree) -> bool {
    good_stmt(t) && (stmt_spec(t) matches Ok(Some(_)))
}

// ---------------------------------------------------------------------------
// Expressions
// ---------------------------------------------------------------------------

proof fn lemma_expression(s: Seq<char>, p: int, d: nat)
    ensures
        expression_g(s, p, d) matches Some((t, e)) ==> good_expr(t) && real_stmt(t) && t.rule
            == Rule::Expression,
    decreases d, 0nat,
{
    if d > 0 {
        lemma_term(s, p, (d - 1) as nat);
        match term_g(s, p, (d - 1) as nat) {
            Some((first, e)) => {
                lemma_operations(s, e, (d - 1) as nat);
                let (rest, end) = operations_g(s, e, (d - 1) as nat);
                lemma_expression_node(first, rest, s.subrange(p, end));
            },
            None => {},
        }
    }
}

proof fn lemma_operations(s: Seq<char>, p: int, d: nat)
    ensures
        operations_good(operations_g(s, p, d).0),
    decreases d, (if p < s.len() { s.len() - p } else { 0 }) as nat,
{
    let q = skip_blank(s, p);
    match operator_at(s, q) {
        Some((rule, n)) => {
            if d > 0 {
                lemma_term(s, skip_blank(s, q + n), (d - 1) as nat);
                match term_g(s, skip_blank(s, q + n), (d - 1) as nat) {
                    Some((term, e)) => {
                        if p < e <= s.len() {
                            lemma_operations(s, e, d);
                            let (rest, end) = operations_g(s, e, d);
                            let all = seq![leaf(rule, s, q, q + n), term] + rest;
                            assert forall|j: int| 0 <= j && 2 * j + 1 < all.len() implies good_term(
                                #[trigger] all[2 * j + 1],
                            ) by {
                                if j == 0 {
                                    assert(all[1] == term);
                                } else {
                                    assert(all[2 * j + 1] == rest[2 * (j - 1) + 1]);
                                }
                            }
                        }
                    },
                    None => {},
                }
            }
        },
        None => {},
    }
}

proof fn lemma_term(s: Seq<char>, p: int, d: nat)
    ensures
        term_g(s, p, d) matches Some((t, e)) ==> good_term(t),
    decreases d, 0nat,
{
    if d > 0 {
        lemma_primary(s, p, (d - 1) as nat);
        match primary_g(s, p, (d - 1) as nat) {
            Some((node, e)) => {
                lemma_postfix(s, node, p, e, (d - 1) as nat);
            },
            None => {},
        }
    }
}

proof fn lemma_postfix(s: Seq<char>, node: ParseTree, start: int, p: int, d: nat)
    requires
        good_term(node),
    ensures
        good_term(postfix_g(s, node, start, p, d).0),
    decreases d, (if p < s.len() { s.len() - p } else { 0 }) as nat,
{
    let q = skip_spaces(s, p);
    if d == 0 {
    } else if char_at(s, q, '(') && (node.rule == Rule::Identifier || node.rule
        == Rule::MemberAccess) {
        lemma_items(s, q + 1, (d - 1) as nat, ')');
        match items_g(s, q + 1, (d - 1) as nat, ')') {
            Some((args, e)) => {
                if p < e <= s.len() {
                    lemma_call_node(node, args, s.subrange(start, e));
                    lemma_postfix(
                        s,
                        branch(
                            if node.rule == Rule::Identifier {
                                Rule::FunctionCall
                            } else {
                                Rule::MethodCall
                            },
                            s,
                            start,
                            e,
                            seq![node] + args,
                        ),
                        start,
                        e,
                        d,
                    );
                }
            },
            None => {},
        }
    } else if char_at(s, q, '.') && 0 <= q + 1 < s.len() && is_word_start(s[q + 1]) {
        let e = word_end(s, q + 1);
        if p < e <= s.len() {
            let name = leaf(Rule::Identifier, s, q + 1, e);
            lemma_member_node(node, name, s.subrange(start, e));
            lemma_postfix(
                s,
                if node.rule == Rule::MemberAccess {
                    branch(Rule::MemberAccess, s, start, e, node.children.push(name))
                } else {
                    branch(Rule::MemberAccess, s, start, e, seq![node, name])
                },
                start,
                e,
                d,
            );
        }
    } else if char_at(s, q, '[') {
        lemma_expression(s, skip_blank(s, q + 1), (d - 1) as nat);
        match expression_g(s, skip_blank(s, q + 1), (d - 1) as nat) {
            Some((key, e)) => {
                let close = skip_blank(s, e);
                if char_at(s, close, ']') && p < close + 1 {
                    lemma_index_node(node, key, s.subrange(start, close + 1));
                    lemma_postfix(
                        s,
                        branch(Rule::IndexAccess, s, start, close + 1, seq![node, key]),
                        start,
                        close + 1,
                        d,
                    );
                }
            },
            None => {},
        }
    }
}

proof fn lemma_items(s: Seq<char>, p: int, d: nat, close: char)
    ensures
        items_g(s, p, d, close) matches Some((items, e)) ==> items_good(items),
    decreases d, 1nat,
{
    let q = skip_blank(s, p);
    if !char_at(s, q, close) && d > 0 {
        lemma_more_items(s, q, (d - 1) as nat, close);
    }
}

proof fn lemma_more_items(s: Seq<char>, p: int, d: nat, close: char)
    ensures
        more_items_g(s, p, d, close) matches Some((items, e)) ==> items_good(items),
    decreases d, (if p < s.len() { s.len() - p } else { 0 }) as nat,
{
    if d > 0 {
        lemma_expression(s, p, (d - 1) as nat);
        match expression_g(s, p, (d - 1) as nat) {
            Some((item, e)) => {
                let c = skip_blank(s, e);
                if char_at(s, c, close) {
                } else if char_at(s, c, ',') && p < skip_blank(s, c + 1) <= s.len() {
                    lemma_more_items(s, skip_blank(s, c + 1), d, close);
                    match more_items_g(s, skip_blank(s, c + 1), d, close) {
                        Some((rest, end)) => {
                            let all = seq![item] + rest;
                            assert forall|j: int| 0 <= j < all.len() implies good_expr(
                                #[trigger] all[j],
                            ) && all[j].rule == Rule::Expression by {
                                if j > 0 {
                                    assert(all[j] == rest[j - 1]);
                                }
                            }
                        },
                        None => {},
                    }
                }
            },
            None => {},
        }
    }
}

proof fn lemma_key(s: Seq<char>, p: int)
    ensures
        key_g(s, p) matches Some((key, e)) ==> (key.rule == Rule::String ==> key.text.len() >= 2),
{
    if !(0 <= p < s.len() && is_word_start(s[p])) {
        if string_g(s, p) is Some {
            lemma_string_token(s, p);
        }
    }
}

proof fn lemma_entry_node(key: ParseTree, value: ParseTree, text: Seq<char>)
    requires
        key.rule == Rule::String ==> key.text.len() >= 2,
        good_expr(value),
    ensures
        entry_good(ParseTree { rule: Rule::DictEntry, text, children: seq![key, value] }),
{
    let t = ParseTree { rule: Rule::DictEntry, text, children: seq![key, value] };
    assert(t.children[0] == key);
    assert(t.children[1] == value);
}

proof fn lemma_entries(s: Seq<char>, p: int, d: nat)
    ensures
        entries_g(s, p, d) matches Some((entries, e)) ==> forall|j: int|
            0 <= j < entries.len() ==> entry_good(#[trigger] entries[j]),
    decreases d, (if p < s.len() { s.len() - p } else { 0 }) as nat,
{
    let q = skip_blank(s, p);
    if !char_at(s, q, '}') && d > 0 {
        lemma_key(s, q);
        match key_g(s, q) {
            Some((key, k)) => {
                let eq = skip_blank(s, k);
                if char_at(s, eq, '=') {
                    lemma_expression(s, skip_blank(s, eq + 1), (d - 1) as nat);
                    match expression_g(s, skip_blank(s, eq + 1), (d - 1) as nat) {
                        Some((value, e)) => {
                            let entry = branch(Rule::DictEntry, s, q, e, seq![key, value]);
                            lemma_entry_node(key, value, s.subrange(q, e));
                            let c = skip_blank(s, e);
                            if char_at(s, c, '}') {
                            } else if char_at(s, c, ',') && p < c + 1 {
                                lemma_entries(s, c + 1, d);
                                match entries_g(s, c + 1, d) {
                                    Some((rest, end)) => {
                                        let all = seq![entry] + rest;
                                        assert forall|j: int|
                                            0 <= j < all.len() implies entry_good(
                                            #[trigger] all[j],
                                        ) by {
                                            if j > 0 {
                                                assert(all[j] == rest[j - 1]);
                                            }
                                        }
                                    },
                                    None => {},
                                }
                            }
                        },
                        None => {},
                    }
                }
            },
            None => {},
        }
    }
}

proof fn lemma_params(s: Seq<char>, p: int)
    ensures
        params_g(s, p) matches Some((params, e)) ==> stmts_good(params),
    decreases (if p < s.len() { s.len() - p } else { 0 }) as nat,
{
    let q = skip_blank(s, p);
    if !char_at(s, q, ')') && name_at(s, q) {
        let e = word_end(s, q);
        let name = leaf(Rule::Identifier, s, q, e);
        lemma_name_leaf(name);
        let c = skip_blank(s, e);
        if char_at(s, c, ')') {
        } else if char_at(s, c, ',') && p < c + 1 {
            lemma_params(s, c + 1);
            match params_g(s, c + 1) {
                Some((rest, end)) => {
                    lemma_stmts_join(seq![name], rest);
                },
                None => {},
            }
        }
    }
}

proof fn lemma_function(s: Seq<char>, p: int, d: nat)
    ensures
        function_g(s, p, d) matches Some((parts, e)) ==> stmts_good(parts),
    decreases d, 0nat,
{
    let open = skip_blank(s, p);
    if d > 0 && char_at(s, open, '(') {
        lemma_params(s, open + 1);
        match params_g(s, open + 1) {
            Some((params, e)) => {
                lemma_block(s, e, (d - 1) as nat);
                lemma_stmts_join(params, block_g(s, e, (d - 1) as nat).0);
            },
            None => {},
        }
    }
}

proof fn lemma_primary(s: Seq<char>, p: int, d: nat)
    ensures
        primary_g(s, p, d) matches Some((t, e)) ==> good_term(t),
    decreases d, 0nat,
{
    if !(0 <= p < s.len()) {
    } else if is_digit(s[p]) || (s[p] == '-' && p + 1 < s.len() && is_digit(s[p + 1])) {
        lemma_number_token(s, p);
    } else if s[p] == '"' {
        if string_g(s, p) is Some {
            lemma_string_token(s, p);
        }
    } else if d == 0 {
    } else if s[p] == '(' {
        lemma_expression(s, skip_blank(s, p + 1), (d - 1) as nat);
        match expression_g(s, skip_blank(s, p + 1), (d - 1) as nat) {
            Some((inner, e)) => {
                let close = skip_blank(s, e);
                lemma_wrapped_node(Rule::Term, inner, s.subrange(p, close + 1));
            },
            None => {},
        }
    } else if s[p] == '[' {
        lemma_items(s, p + 1, (d - 1) as nat, ']');
        match items_g(s, p + 1, (d - 1) as nat, ']') {
            Some((items, e)) => {
                lemma_table_node(items, s.subrange(p, e));
            },
            None => {},
        }
    } else if s[p] == '{' {
        lemma_entries(s, p + 1, (d - 1) as nat);
        match entries_g(s, p + 1, (d - 1) as nat) {
            Some((entries, e)) => {
                lemma_dictionary_node(entries, s.subrange(p, e));
            },
            None => {},
        }
    } else if is_word_start(s[p]) {
        let e = word_end(s, p);
        let w = s.subrange(p, e);
        if w == "true"@ || w == "false"@ {
        } else if w == "nil"@ {
        } else if w == "not"@ {
            lemma_term(s, skip_blank(s, e), (d - 1) as nat);
            match term_g(s, skip_blank(s, e), (d - 1) as nat) {
                Some((operand, end)) => {
                    lemma_wrapped_node(Rule::NotExpr, operand, s.subrange(p, end));
                },
                None => {},
            }
        } else if w == "function"@ {
            lemma_function(s, e, (d - 1) as nat);
            match function_g(s, e, (d - 1) as nat) {
                Some((parts, end)) => {
                    lemma_lambda_node(parts, s.subrange(p, end));
                },
                None => {},
            }
        }
    }
}

// ---------------------------------------------------------------------------
// Statements
// ---------------------------------------------------------------------------

/// Statements as the grammar reads them: good ones, each of which parses to
/// a statement.
pub open spec fn body_good(nodes: Seq<ParseTree>) -> bool {
    &&& stmts_good(nodes)
    &&& forall|j: int| 0 <= j < nodes.len() ==> stmt_spec(#[trigger] nodes[j]) matches Ok(Some(_))
}

proof fn lemma_body_join(a: Seq<ParseTree>, b: Seq<ParseTree>)
    requires
        body_good(a),
        body_good(b),
    ensures
        body_good(a + b),
{
    lemma_stmts_join(a, b);
    let all = a + b;
    assert forall|j: int| 0 <= j < all.len() implies stmt_spec(#[trigger] all[j]) matches Ok(
        Some(_),
    ) by {
        if j < a.len() {
            assert(all[j] == a[j]);
        } else {
            assert(all[j] == b[j - a.len()]);
        }
    }
}

proof fn lemma_block(s: Seq<char>, p: int, d: nat)
    ensures
        body_good(block_g(s, p, d).0),
    decreases d, (if p < s.len() { s.len() - p } else { 0 }) as nat,
{
    let q = skip_blank(s, p);
    if d > 0 {
        lemma_statement(s, q, (d - 1) as nat);
        match statement_g(s, q, (d - 1) as nat) {
            Some((node, e)) => {
                if p < e <= s.len() {
                    lemma_block(s, e, d);
                    lemma_body_join(seq![node], block_g(s, e, d).0);
                }
            },
            None => {},
        }
    }
}

proof fn lemma_guarded(s: Seq<char>, p: int, d: nat, opener: Seq<char>)
    ensures
        guarded_g(s, p, d, opener) matches Some((parts, q)) ==> guarded_good(parts) && body_good(parts),
    decreases d, 0nat,
{
    if d > 0 {
        lemma_expression(s, skip_blank(s, p), (d - 1) as nat);
        match expression_g(s, skip_blank(s, p), (d - 1) as nat) {
            Some((cond, e)) => {
                let t = skip_blank(s, e);
                lemma_block(s, t + opener.len(), (d - 1) as nat);
                lemma_body_join(seq![cond], block_g(s, t + opener.len(), (d - 1) as nat).0);
            },
            None => {},
        }
    }
}

proof fn lemma_elseifs(s: Seq<char>, p: int, d: nat)
    ensures
        elseifs_g(s, p, d) matches Some((clauses, e)) ==> clauses_good(clauses),
    decreases d, (if p < s.len() { s.len() - p } else { 0 }) as nat,
{
    if word_at(s, p, "elseif"@) && d > 0 {
        lemma_guarded(s, p + 6, (d - 1) as nat, "then"@);
        match guarded_g(s, p + 6, (d - 1) as nat, "then"@) {
            Some((parts, q)) => {
                if p < q <= s.len() {
                    lemma_elseifs(s, q, d);
                    match elseifs_g(s, q, d) {
                        Some((rest, end)) => {
                            let clause = branch(Rule::ElseifClause, s, p, q, parts);
                            lemma_clause_node(parts, s.subrange(p, q));
                            let all = seq![clause] + rest;
                            assert forall|j: int| 0 <= j < all.len() implies (#[trigger] all[j]).rule
                                == Rule::ElseifClause && clause_good(all[j]) by {
                                if j > 0 {
                                    assert(all[j] == rest[j - 1]);
                                }
                            }
                        },
                        None => {},
                    }
                }
            },
            None => {},
        }
    }
}

proof fn lemma_if_children(parts: Seq<ParseTree>, clauses: Seq<ParseTree>, last: Seq<ParseTree>)
    requires
        guarded_good(parts),
        clauses_good(clauses),
        last.len() == 0 || (last.len() == 1 && last[0].rule == Rule::ElseClause && stmts_good(
            last[0].children,
        )),
    ensures
        if_children_good(parts + clauses + last),
{
    let c = parts + clauses + last;
    assert(c[0] == parts[0]);
    assert forall|j: int| 0 <= j < c.len() implies good_stmt(#[trigger] c[j]) && (c[j].rule
        == Rule::ElseifClause ==> clause_good(c[j])) && (c[j].rule == Rule::ElseClause
        ==> forall|k: int|
        0 <= k < c[j].children.len() ==> good_stmt(#[trigger] c[j].children[k])) by {
        if j < parts.len() {
            assert(c[j] == parts[j]);
            assert(!is_marker_rule(parts[j].rule));
        } else if j < parts.len() + clauses.len() {
            assert(c[j] == clauses[j - parts.len()]);
            assert(clauses[j - parts.len()].rule == Rule::ElseifClause);
        } else {
            assert(c[j] == last[0]);
            lemma_all_stmts(last[0].children);
        }
    }
}

proof fn lemma_if(s: Seq<char>, p: int, e: int, d: nat)
    ensures
        if_g(s, p, e, d) matches Some((t, end)) ==> real_stmt(t) && t.rule == Rule::IfStmt,
    decreases d, 0nat,
{
    if d > 0 {
        lemma_guarded(s, e, (d - 1) as nat, "then"@);
        match guarded_g(s, e, (d - 1) as nat, "then"@) {
            Some((parts, q)) => {
                lemma_elseifs(s, q, (d - 1) as nat);
                match elseifs_g(s, q, (d - 1) as nat) {
                    Some((clauses, q2)) => {
                        if word_at(s, q2, "else"@) {
                            lemma_block(s, q2 + 4, (d - 1) as nat);
                            let (body, q3) = block_g(s, q2 + 4, (d - 1) as nat);
                            let last = branch(Rule::ElseClause, s, q2, q3, body);
                            assert(seq![last][0] == last);
                            lemma_if_children(parts, clauses, seq![last]);
                            lemma_if_node(parts + clauses + seq![last], s.subrange(p, q3 + 3));
                        } else {
                            lemma_if_children(parts, clauses, Seq::empty());
                            assert(parts + clauses + Seq::<ParseTree>::empty() =~= parts
                                + clauses);
                            lemma_if_node(parts + clauses, s.subrange(p, q2 + 3));
                        }
                    },
                    None => {},
                }
            },
            None => {},
        }
    }
}

proof fn lemma_while(s: Seq<char>, p: int, e: int, d: nat)
    ensures
        while_g(s, p, e, d) matches Some((t, end)) ==> real_stmt(t) && t.rule == Rule::WhileStmt,
    decreases d, 0nat,
{
    if d > 0 {
        lemma_guarded(s, e, (d - 1) as nat, "do"@);
        match guarded_g(s, e, (d - 1) as nat, "do"@) {
            Some((parts, q)) => {
                lemma_while_node(parts, s.subrange(p, q + 3));
            },
            None => {},
        }
    }
}

proof fn lemma_for_children(head: Seq<ParseTree>, parts: Seq<ParseTree>)
    requires
        head.len() == 2 || head.len() == 3,
        head[0].rule == Rule::Identifier,
        forall|j: int| 1 <= j < head.len() ==> good_expr(#[trigger] head[j]) && good_stmt(head[j]),
        guarded_good(parts),
        body_good(parts),
    ensures
        ({
            let c = head + parts;
            &&& c.len() >= 3
            &&& good_expr(c[1])
            &&& good_expr(c[2])
            &&& forall|j: int| 0 <= j < c.len() ==> good_stmt(#[trigger] c[j])
            &&& c.len() > 3 ==> stmt_spec(c[3]) matches Ok(Some(_))
        }),
{
    let c = head + parts;
    lemma_name_leaf(head[0]);
    assert forall|j: int| 0 <= j < c.len() implies good_stmt(#[trigger] c[j]) by {
        if j < head.len() {
            assert(c[j] == head[j]);
        } else {
            assert(c[j] == parts[j - head.len()]);
        }
    }
    assert(c[1] == head[1]);
    if head.len() == 2 {
        assert(c[2] == parts[0]);
        if c.len() > 3 {
            assert(c[3] == parts[1]);
        }
    } else {
        assert(c[2] == head[2]);
        assert(c[3] == parts[0]);
    }
}

proof fn lemma_for(s: Seq<char>, p: int, e: int, d: nat)
    ensures
        for_g(s, p, e, d) matches Some((t, end)) ==> real_stmt(t) && t.rule == Rule::ForStmt,
    decreases d, 0nat,
{
    let n = skip_blank(s, e);
    let eq = skip_blank(s, word_end(s, n));
    if !(d == 0 || !name_at(s, n) || !char_at(s, eq, '=')) {
        let var = leaf(Rule::Identifier, s, n, word_end(s, n));
        lemma_expression(s, skip_blank(s, eq + 1), (d - 1) as nat);
        match expression_g(s, skip_blank(s, eq + 1), (d - 1) as nat) {
            Some((start, e1)) => {
                let comma = skip_blank(s, e1);
                if char_at(s, comma, ',') {
                    lemma_guarded(s, comma + 1, (d - 1) as nat, "do"@);
                    match guarded_g(s, comma + 1, (d - 1) as nat, "do"@) {
                        Some((parts, q)) => {
                            lemma_for_children(seq![var, start], parts);
                            lemma_for_node(seq![var, start] + parts, s.subrange(p, q + 3));
                        },
                        None => {
                            lemma_expression(s, skip_blank(s, comma + 1), (d - 1) as nat);
                            match expression_g(s, skip_blank(s, comma + 1), (d - 1) as nat) {
                                Some((end, e2)) => {
                                    let comma2 = skip_blank(s, e2);
                                    if char_at(s, comma2, ',') {
                                        lemma_guarded(s, comma2 + 1, (d - 1) as nat, "do"@);
                                        match guarded_g(s, comma2 + 1, (d - 1) as nat, "do"@) {
                                            Some((parts, q)) => {
                                                lemma_for_children(seq![var, start, end], parts);
                                                lemma_for_node(
                                                    seq![var, start, end] + parts,
                                                    s.subrange(p, q + 3),
                                                );
                                            },
                                            None => {},
                                        }
                                    }
                                },
                                None => {},
                            }
                        },
                    }
                }
            },
            None => {},
        }
    }
}

proof fn lemma_try_children(body: Seq<ParseTree>, clause: Seq<ParseTree>)
    requires
        body_good(body),
        clause.len() == 0 || (clause.len() == 1 && clause[0].rule == Rule::CatchClause
            && forall|k: int|
            0 <= k < clause[0].children.len() ==> good_stmt(#[trigger] clause[0].children[k])),
    ensures
        ({
            let c = body + clause;
            &&& forall|j: int| 0 <= j < c.len() ==> good_stmt(#[trigger] c[j])
            &&& forall|j: int|
                0 <= j < c.len() && (#[trigger] c[j]).rule == Rule::CatchClause ==> forall|k: int|
                    0 <= k < c[j].children.len() ==> good_stmt(#[trigger] c[j].children[k])
        }),
{
    let c = body + clause;
    assert forall|j: int| 0 <= j < c.len() implies good_stmt(#[trigger] c[j]) && (c[j].rule
        == Rule::CatchClause ==> forall|k: int|
        0 <= k < c[j].children.len() ==> good_stmt(#[trigger] c[j].children[k])) by {
        if j < body.len() {
            assert(c[j] == body[j]);
            assert(!is_marker_rule(body[j].rule));
        } else {
            assert(c[j] == clause[0]);
        }
    }
}

proof fn lemma_try(s: Seq<char>, p: int, e: int, d: nat)
    ensures
        try_g(s, p, e, d) matches Some((t, end)) ==> real_stmt(t) && t.rule == Rule::TryStmt,
    decreases d, 0nat,
{
    if d > 0 {
        lemma_block(s, e, (d - 1) as nat);
        let (body, q) = block_g(s, e, (d - 1) as nat);
        if word_at(s, q, "catch"@) {
            let v = skip_spaces(s, q + 5);
            let named = catch_var_at(s, v);
            let from = if named {
                word_end(s, v)
            } else {
                q + 5
            };
            lemma_block(s, from, (d - 1) as nat);
            let (handler, q2) = block_g(s, from, (d - 1) as nat);
            let var = leaf(Rule::Identifier, s, v, word_end(s, v));
            lemma_name_leaf(var);
            let inner = if named {
                seq![var] + handler
            } else {
                handler
            };
            assert forall|k: int| 0 <= k < inner.len() implies good_stmt(#[trigger] inner[k]) by {
                if named && k > 0 {
                    assert(inner[k] == handler[k - 1]);
                }
            }
            let clause = branch(Rule::CatchClause, s, q, q2, inner);
            assert(seq![clause][0] == clause);
            lemma_try_children(body, seq![clause]);
            assert(body.push(clause) =~= body + seq![clause]);
            lemma_try_node(body + seq![clause], s.subrange(p, q2 + 3));
        } else {
            lemma_try_children(body, Seq::empty());
            assert(body + Seq::<ParseTree>::empty() =~= body);
            lemma_try_node(body, s.subrange(p, q + 3));
        }
    }
}

proof fn lemma_local(s: Seq<char>, p: int, e: int, d: nat)
    ensures
        local_g(s, p, e, d) matches Some((t, end)) ==> real_stmt(t) && t.rule == Rule::LocalAssignment,
    decreases d, 0nat,
{
    let n = skip_blank(s, e);
    let eq = skip_blank(s, word_end(s, n));
    if !(d == 0 || !name_at(s, n) || !char_at(s, eq, '=')) {
        lemma_expression(s, skip_blank(s, eq + 1), (d - 1) as nat);
        match expression_g(s, skip_blank(s, eq + 1), (d - 1) as nat) {
            Some((value, end)) => {
                lemma_local_node(
                    leaf(Rule::Identifier, s, n, word_end(s, n)),
                    value,
                    s.subrange(p, end),
                );
            },
            None => {},
        }
    }
}

proof fn lemma_call_kind(t: ParseTree)
    requires
        term_spec(t) is Ok,
        t.rule == Rule::FunctionCall || t.rule == Rule::MethodCall,
    ensures
        is_call(term_spec(t)->Ok_0),
{
    if t.rule == Rule::FunctionCall {
        assert(term_spec(t) == call_spec(t));
        assert(is_call(call_spec(t)->Ok_0));
    } else {
        assert(term_spec(t) == method_call_spec(t));
        assert(is_call(method_call_spec(t)->Ok_0));
    }
}

proof fn lemma_simple(s: Seq<char>, p: int, d: nat)
    ensures
        simple_g(s, p, d) matches Some((t, e)) ==> real_stmt(t) && (t.rule == Rule::Assignment || t.rule == Rule::FunctionCall || t.rule
            == Rule::MethodCall || t.rule == Rule::Expression),
    decreases d, 0nat,
{
    if d > 0 {
        lemma_term(s, p, (d - 1) as nat);
        match term_g(s, p, (d - 1) as nat) {
            Some((target, e)) => {
                let eq = skip_spaces(s, e);
                if char_at(s, eq, '=') && !char_at(s, eq + 1, '=') {
                    if target.rule == Rule::Identifier || target.rule == Rule::MemberAccess
                        || target.rule == Rule::IndexAccess {
                        lemma_expression(s, skip_blank(s, eq + 1), (d - 1) as nat);
                        match expression_g(s, skip_blank(s, eq + 1), (d - 1) as nat) {
                            Some((value, end)) => {
                                lemma_assignment_node(target, value, s.subrange(p, end));
                            },
                            None => {},
                        }
                    }
                } else {
                    lemma_operations(s, e, (d - 1) as nat);
                    let (rest, end) = operations_g(s, e, (d - 1) as nat);
                    if rest.len() == 0 && (target.rule == Rule::FunctionCall || target.rule
                        == Rule::MethodCall) {
                        lemma_call_kind(target);
                        lemma_call_statement(target);
                    } else {
                        lemma_expression_node(target, rest, s.subrange(p, end));
                    }
                }
            },
            None => {},
        }
    }
}

proof fn lemma_keyword_statement(s: Seq<char>, p: int, d: nat)
    requires
        d > 0,
        0 <= p < s.len(),
        is_word_start(s[p]),
    ensures
        ({
            let e = word_end(s, p);
            let w = s.subrange(p, e);
            let below = (d - 1) as nat;
            &&& w == "import"@ ==> (string_g(s, skip_blank(s, e)) matches Some((path, end))
                ==> real_stmt(branch(Rule::ImportStmt, s, p, end, seq![path])))
            &&& w == "function"@ ==> (function_g(s, word_end(s, skip_blank(s, e)), below) matches Some(
                (parts, end),
            ) ==> real_stmt(
                branch(
                    Rule::FunctionDef,
                    s,
                    p,
                    end,
                    seq![leaf(Rule::Identifier, s, skip_blank(s, e), word_end(s, skip_blank(s, e)))]
                        + parts,
                ),
            ))
            &&& w == "return"@ ==> (match expression_g(s, skip_spaces(s, e), below) {
                Some((value, end)) => real_stmt(branch(Rule::ReturnStmt, s, p, end, seq![value])),
                None => real_stmt(leaf(Rule::ReturnStmt, s, p, e)),
            })
            &&& real_stmt(leaf(Rule::BreakStmt, s, p, e))
            &&& real_stmt(leaf(Rule::ContinueStmt, s, p, e))
            &&& w == "throw"@ ==> (expression_g(s, skip_blank(s, e), below) matches Some(
                (value, end),
            ) ==> real_stmt(branch(Rule::ThrowStmt, s, p, end, seq![value])))
            &&& w == "do"@ ==> real_stmt(
                branch(
                    Rule::Block,
                    s,
                    p,
                    block_g(s, e, below).1 + 3,
                    block_g(s, e, below).0,
                ),
            )
            &&& w == "print"@ ==> (expression_g(s, skip_spaces(s, e), below) matches Some(
                (value, end),
            ) ==> real_stmt(branch(Rule::PrintStmt, s, p, end, seq![value])))
        }),
    decreases d, 0nat,
{
    let e = word_end(s, p);
    let w = s.subrange(p, e);
    let below = (d - 1) as nat;
    if w == "import"@ {
        if string_g(s, skip_blank(s, e)) is Some {
            lemma_string_token(s, skip_blank(s, e));
            match string_g(s, skip_blank(s, e)) {
                Some((path, end)) => {
                    lemma_import_node(path, s.subrange(p, end));
                },
                None => {},
            }
        }
    }
    if w == "function"@ {
        let name_end = word_end(s, skip_blank(s, e));
        lemma_function(s, name_end, below);
        match function_g(s, name_end, below) {
            Some((parts, end)) => {
                lemma_def_node(
                    leaf(Rule::Identifier, s, skip_blank(s, e), name_end),
                    parts,
                    s.subrange(p, end),
                );
            },
            None => {},
        }
    }
    if w == "return"@ || w == "print"@ {
        lemma_expression(s, skip_spaces(s, e), below);
        match expression_g(s, skip_spaces(s, e), below) {
            Some((value, end)) => {
                lemma_unary_node(Rule::ReturnStmt, value, s.subrange(p, end));
                lemma_unary_node(Rule::PrintStmt, value, s.subrange(p, end));
            },
            None => {},
        }
    }
    lemma_leaf_statement(Rule::ReturnStmt, s.subrange(p, e));
    lemma_leaf_statement(Rule::BreakStmt, s.subrange(p, e));
    lemma_leaf_statement(Rule::ContinueStmt, s.subrange(p, e));
    if w == "throw"@ {
        lemma_expression(s, skip_blank(s, e), below);
        match expression_g(s, skip_blank(s, e), below) {
            Some((value, end)) => {
                lemma_unary_node(Rule::ThrowStmt, value, s.subrange(p, end));
            },
            None => {},
        }
    }
    if w == "do"@ {
        lemma_block(s, e, below);
        let (body, q) = block_g(s, e, below);
        lemma_block_node(body, s.subrange(p, q + 3));
    }
}

proof fn lemma_statement(s: Seq<char>, p: int, d: nat)
    ensures
        statement_g(s, p, d) matches Some((t, e)) ==> real_stmt(t) && !is_marker_rule(t.rule),
    decreases d, 1nat,
{
    if d == 0 || !(0 <= p < s.len()) {
    } else if is_word_start(s[p]) {
        let e = word_end(s, p);
        let w = s.subrange(p, e);
        let below = (d - 1) as nat;
        if w == "import"@ {
            lemma_keyword_statement(s, p, d);
        } else if w == "local"@ {
            lemma_local(s, p, e, below);
        } else if w == "if"@ {
            lemma_if(s, p, e, below);
        } else if w == "while"@ {
            lemma_while(s, p, e, below);
        } else if w == "for"@ {
            lemma_for(s, p, e, below);
        } else if w == "function"@ && name_at(s, skip_blank(s, e)) {
            lemma_keyword_statement(s, p, d);
        } else if w == "return"@ {
            lemma_keyword_statement(s, p, d);
        } else if w == "break"@ {
            lemma_keyword_statement(s, p, d);
        } else if w == "continue"@ {
            lemma_keyword_statement(s, p, d);
        } else if w == "try"@ {
            lemma_try(s, p, e, below);
        } else if w == "throw"@ {
            lemma_keyword_statement(s, p, d);
        } else if w == "do"@ {
            lemma_keyword_statement(s, p, d);
        } else if w == "print"@ && starts_print_operand(s, skip_spaces(s, e)) {
            lemma_keyword_statement(s, p, d);
            lemma_simple(s, p, below);
        } else {
            lemma_simple(s, p, below);
        }
    } else {
        lemma_simple(s, p, (d - 1) as nat);
    }
}

/// A text that the grammar reads is a program: parsing its tree does not
/// fail, and the program it gives is made of nodes that can be told from
/// their trees.
pub proof fn lemma_read_text_parses(s: Seq<char>)
    requires
        program_g(s) is Ok,
    ensures
        program_spec(seq![program_g(s)->Ok_0]) matches Ok(Ast::Program(body)) && printable_stmts(
            body,
        ),
{
    let tree = program_g(s)->Ok_0;
    let trees = seq![tree];
    lemma_block(s, 0, depth_limit());
    let body = block_g(s, 0, depth_limit()).0;
    lemma_all_stmts(body);
    lemma_stmts_good(body, 0, body.len() as int);
    assert(tree.children == body);
    assert(program_body_spec(trees, 0) == Ok::<Seq<Ast>, ParseFault>(Seq::empty()));
    assert(trees[0] == tree);
    let parsed = stmts_spec(body, 0, body.len() as int)->Ok_0;
    assert(Seq::<Ast>::empty() + parsed =~= parsed);
    assert(program_body_spec(trees, 1) == Ok::<Seq<Ast>, ParseFault>(parsed));
}

} // verus!
