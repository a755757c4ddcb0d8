//! From the syntax tree back to a parse tree, and the law that parsing that
//! tree gives the syntax tree back.
use vstd::prelude::*;
use vstd::string::*;
use crate::ast::{Ast, AstNode, ast_clauses_view, ast_entries_view, ast_list_view, names_view};
use crate::parser::{
    block_end, call_spec, clauses_end, clauses_spec, dictionary_spec, entries_spec, expr_spec,
    exprs_spec, first_bad_operand, fold_spec, is_assignable, is_marker_rule, is_number_text,
    lambda_spec, member_access_spec, member_names, method_call_spec, names_end, operator_count,
    program_body_spec, program_spec, root_operator, stmt_spec, stmts_spec, strip_quotes,
    term_spec, texts, ParseFault, assignment_spec, for_stmt_spec, function_def_spec,
    if_stmt_spec, try_stmt_spec, while_stmt_spec,
};
use crate::text::same_text;
use crate::tree::{ParseNode, ParseTree, Rule, join, nodes_view, one};

verus! {

/// A node that stands for a piece of text.
pub open spec fn token(rule: Rule, text: Seq<char>) -> ParseTree {
    ParseTree { rule, text, children: Seq::empty() }
}

/// A node that stands for its children.
pub open spec fn group(rule: Rule, children: Seq<ParseTree>) -> ParseTree {
    ParseTree { rule, text: Seq::empty(), children }
}

/// A text between double quotes.
pub open spec fn quoted(text: Seq<char>) -> Seq<char> {
    seq!['"'] + text + seq!['"']
}

/// The rule of an operator symbol.
pub open spec fn operator_rule(op: Seq<char>) -> Rule {
    if op == "+"@ {
        Rule::OpAdd
    } else if op == "-"@ {
        Rule::OpSub
    } else if op == "*"@ {
        Rule::OpMul
    } else if op == "/"@ {
        Rule::OpDiv
    } else if op == "%"@ {
        Rule::OpMod
    } else if op == ".."@ {
        Rule::OpConcat
    } else if op == "=="@ {
        Rule::OpEq
    } else if op == "~="@ {
        Rule::OpNe
    } else if op == "<"@ {
        Rule::OpLt
    } else if op == ">"@ {
        Rule::OpGt
    } else if op == "<="@ {
        Rule::OpLe
    } else if op == ">="@ {
        Rule::OpGe
    } else if op == "and"@ {
        Rule::OpAnd
    } else {
        Rule::OpOr
    }
}

/// Whether a node is a call: as a statement it stands without an expression
/// around it.
pub open spec fn is_call(a: Ast) -> bool {
    a is FunctionCall || a is MethodCall || a is Print
}

/// Whether a node can stand where a value is expected.
pub open spec fn is_expression(a: Ast) -> bool {
    a is Number || a is String || a is Identifier || a is Boolean || a is Nil || a is BinaryOp
        || a is Not || a is Table || a is Dictionary || a is Index || a is MemberAccess
        || a is Lambda || is_call(a)
}

// ---------------------------------------------------------------------------
// The trees
// ---------------------------------------------------------------------------

/// An identifier token for each name.
pub open spec fn name_tokens(names: Seq<Seq<char>>) -> Seq<ParseTree> {
    Seq::new(names.len(), |i: int| token(Rule::Identifier, names[i]))
}

/// The tree of a node as an operand: a binary operation stands in
/// parentheses.
pub open spec fn term_tree(a: Ast) -> ParseTree
    decreases a, (if a is BinaryOp { 2nat } else { 0nat }),
{
    match a {
        Ast::Number(text) => token(Rule::Number, text),
        Ast::String(text) => token(Rule::String, quoted(text)),
        Ast::Identifier(name) => token(Rule::Identifier, name),
        Ast::Boolean(value) => token(
            Rule::Boolean,
            if value {
                "true"@
            } else {
                "false"@
            },
        ),
        Ast::Nil => token(Rule::Nil, "nil"@),
        Ast::BinaryOp(_, _, _) => group(Rule::Term, seq![expr_tree(a)]),
        Ast::Not(x) => group(Rule::NotExpr, seq![term_tree(*x)]),
        Ast::FunctionCall(name, args) => group(
            Rule::FunctionCall,
            seq![token(Rule::Identifier, name)] + expr_trees(args),
        ),
        Ast::Print(x) => group(
            Rule::FunctionCall,
            seq![token(Rule::Identifier, "print"@), expr_tree(*x)],
        ),
        Ast::MethodCall(receiver, members, args) => group(
            Rule::MethodCall,
            seq![group(Rule::MemberAccess, seq![term_tree(*receiver)] + name_tokens(members))]
                + expr_trees(args),
        ),
        Ast::MemberAccess(base, members) => group(
            Rule::MemberAccess,
            seq![term_tree(*base)] + name_tokens(members),
        ),
        Ast::Index(base, key) => group(Rule::IndexAccess, seq![term_tree(*base), expr_tree(*key)]),
        Ast::Table(items) => group(Rule::Table, expr_trees(items)),
        Ast::Dictionary(entries) => group(Rule::Dictionary, entry_trees(entries)),
        Ast::Lambda(params, body) => group(Rule::Lambda, name_tokens(params) + stmt_trees(body)),
        _ => token(Rule::Nil, "nil"@),
    }
}

/// The tree of a node as an expression.
pub open spec fn expr_tree(a: Ast) -> ParseTree
    decreases a, 1nat,
{
    match a {
        Ast::BinaryOp(left, op, right) => group(
            Rule::Expression,
            seq![term_tree(*left), token(operator_rule(op), op), term_tree(*right)],
        ),
        _ => group(Rule::Expression, seq![term_tree(a)]),
    }
}

/// The trees of a list of expressions.
pub open spec fn expr_trees(items: Seq<Ast>) -> Seq<ParseTree>
    decreases items, 0nat,
{
    Seq::new(
        items.len(),
        |i: int|
            if 0 <= i < items.len() {
                expr_tree(items[i])
            } else {
                token(Rule::Nil, Seq::empty())
            },
    )
}

/// The trees of the entries of a dictionary literal.
pub open spec fn entry_trees(entries: Seq<(Seq<char>, Ast)>) -> Seq<ParseTree>
    decreases entries, 0nat,
{
    Seq::new(
        entries.len(),
        |i: int|
            if 0 <= i < entries.len() {
                group(
                    Rule::DictEntry,
                    seq![token(Rule::Identifier, entries[i].0), expr_tree(entries[i].1)],
                )
            } else {
                token(Rule::Nil, Seq::empty())
            },
    )
}

/// The trees of a list of statements.
pub open spec fn stmt_trees(body: Seq<Ast>) -> Seq<ParseTree>
    decreases body, 0nat,
{
    Seq::new(
        body.len(),
        |i: int|
            if 0 <= i < body.len() {
                stmt_tree(body[i])
            } else {
                token(Rule::Nil, Seq::empty())
            },
    )
}

/// The trees of a list of elseif clauses.
pub open spec fn clause_trees(clauses: Seq<(Ast, Seq<Ast>)>) -> Seq<ParseTree>
    decreases clauses, 0nat,
{
    Seq::new(
        clauses.len(),
        |i: int|
            if 0 <= i < clauses.len() {
                group(
                    Rule::ElseifClause,
                    seq![expr_tree(clauses[i].0)] + stmt_trees(clauses[i].1),
                )
            } else {
                token(Rule::Nil, Seq::empty())
            },
    )
}

/// The tree of a node as a statement.
pub open spec fn stmt_tree(a: Ast) -> ParseTree
    decreases a, 3nat,
{
    match a {
        Ast::Import(module) => group(Rule::ImportStmt, seq![token(Rule::String, quoted(module))]),
        Ast::Assignment(target, value) => group(
            Rule::Assignment,
            seq![term_tree(*target), expr_tree(*value)],
        ),
        Ast::LocalAssignment(name, value) => group(
            Rule::LocalAssignment,
            seq![token(Rule::Identifier, name), expr_tree(*value)],
        ),
        Ast::Print(x) => group(Rule::PrintStmt, seq![expr_tree(*x)]),
        Ast::FunctionCall(_, _) => term_tree(a),
        Ast::MethodCall(_, _, _) => term_tree(a),
        Ast::If(cond, then_body, clauses, else_body) => group(
            Rule::IfStmt,
            seq![expr_tree(*cond)] + stmt_trees(then_body) + clause_trees(clauses) + match else_body {
                Some(body) => seq![group(Rule::ElseClause, stmt_trees(body))],
                None => Seq::empty(),
            },
        ),
        Ast::While(cond, body) => group(
            Rule::WhileStmt,
            seq![expr_tree(*cond)] + stmt_trees(body),
        ),
        Ast::For(var, start, end, step, body) => group(
            Rule::ForStmt,
            seq![token(Rule::Identifier, var), expr_tree(*start), expr_tree(*end)] + match step {
                Some(x) => seq![expr_tree(*x)],
                None => Seq::empty(),
            } + stmt_trees(body),
        ),
        Ast::FunctionDef(name, params, body) => group(
            Rule::FunctionDef,
            seq![token(Rule::Identifier, name)] + name_tokens(params) + stmt_trees(body),
        ),
        Ast::Return(value) => group(
            Rule::ReturnStmt,
            match value {
                Some(x) => seq![expr_tree(*x)],
                None => Seq::empty(),
            },
        ),
        Ast::Break => token(Rule::BreakStmt, "break"@),
        Ast::Continue => token(Rule::ContinueStmt, "continue"@),
        Ast::TryCatch(try_body, var, catch_body) => group(
            Rule::TryStmt,
            stmt_trees(try_body).push(
                group(
                    Rule::CatchClause,
                    match var {
                        Some(name) => seq![token(Rule::Identifier, name)],
                        None => Seq::empty(),
                    } + stmt_trees(catch_body),
                ),
            ),
        ),
        Ast::Throw(x) => group(Rule::ThrowStmt, seq![expr_tree(*x)]),
        Ast::Block(body) => group(Rule::Block, stmt_trees(body)),
        _ => expr_tree(a),
    }
}

/// The parse tree of a program.
pub open spec fn program_tree(a: Ast) -> ParseTree {
    match a {
        Ast::Program(body) => group(Rule::Program, stmt_trees(body)),
        _ => group(Rule::Program, seq![stmt_tree(a)]),
    }
}

// ---------------------------------------------------------------------------
// The nodes that a tree can stand for
// ---------------------------------------------------------------------------

/// Whether a node can be told from its tree where a value is expected: its
/// numbers are numeric literals, and no call of `print` that has arguments
/// stands as a function call, since such a call is the print statement.
pub open spec fn printable_expr(a: Ast) -> bool
    decreases a, 0nat,
{
    match a {
        Ast::Number(text) => is_number_text(text),
        Ast::String(_) => true,
        Ast::Identifier(_) => true,
        Ast::Boolean(_) => true,
        Ast::Nil => true,
        Ast::BinaryOp(left, _, right) => printable_expr(*left) && printable_expr(*right),
        Ast::Not(x) => printable_expr(*x),
        Ast::FunctionCall(name, args) => !(name == "print"@ && args.len() > 0)
            && printable_exprs(args),
        Ast::Print(x) => printable_expr(*x),
        Ast::MethodCall(receiver, _, args) => printable_expr(*receiver) && printable_exprs(args),
        Ast::MemberAccess(base, _) => printable_expr(*base),
        Ast::Index(base, key) => printable_expr(*base) && printable_expr(*key),
        Ast::Table(items) => printable_exprs(items),
        Ast::Dictionary(entries) => printable_entries(entries),
        Ast::Lambda(_, body) => printable_stmts(body),
        _ => false,
    }
}

/// Whether every expression of a list can be told from its tree.
pub open spec fn printable_exprs(items: Seq<Ast>) -> bool
    decreases items, 1nat,
{
    forall|i: int| 0 <= i < items.len() ==> printable_expr(#[trigger] items[i])
}

/// Whether every value of a dictionary literal can be told from its tree.
pub open spec fn printable_entries(entries: Seq<(Seq<char>, Ast)>) -> bool
    decreases entries, 1nat,
{
    forall|i: int| 0 <= i < entries.len() ==> printable_expr((#[trigger] entries[i]).1)
}

/// Whether every statement of a list can be told from its tree.
pub open spec fn printable_stmts(body: Seq<Ast>) -> bool
    decreases body, 1nat,
{
    forall|i: int| 0 <= i < body.len() ==> printable_stmt(#[trigger] body[i])
}

/// Whether every elseif clause of a list can be told from its tree.
pub open spec fn printable_clauses(clauses: Seq<(Ast, Seq<Ast>)>) -> bool
    decreases clauses, 1nat,
{
    forall|i: int|
        0 <= i < clauses.len() ==> printable_expr((#[trigger] clauses[i]).0) && printable_stmts(
            clauses[i].1,
        )
}

/// Whether a statement can be told from its tree. A counting loop without
/// a step whose body starts with an expression cannot: the expression would
/// be read as the step.
pub open spec fn printable_stmt(a: Ast) -> bool
    decreases a, 2nat,
{
    match a {
        Ast::Import(_) => true,
        Ast::Assignment(target, value) => is_assignable(*target) && printable_expr(*target)
            && printable_expr(*value),
        Ast::LocalAssignment(_, value) => printable_expr(*value),
        Ast::Print(x) => printable_expr(*x),
        Ast::If(cond, then_body, clauses, else_body) => printable_expr(*cond) && printable_stmts(
            then_body,
        ) && printable_clauses(clauses) && match else_body {
            Some(body) => printable_stmts(body),
            None => true,
        },
        Ast::While(cond, body) => printable_expr(*cond) && printable_stmts(body),
        Ast::For(_, start, end, step, body) => printable_expr(*start) && printable_expr(*end)
            && printable_stmts(body) && match step {
            Some(x) => printable_expr(*x),
            None => body.len() == 0 || !is_expression(body[0]) || is_call(body[0]),
        },
        Ast::FunctionDef(_, _, body) => printable_stmts(body),
        Ast::Return(value) => match value {
            Some(x) => printable_expr(*x),
            None => true,
        },
        Ast::Break => true,
        Ast::Continue => true,
        Ast::TryCatch(try_body, _, catch_body) => printable_stmts(try_body) && printable_stmts(
            catch_body,
        ),
        Ast::Throw(x) => printable_expr(*x),
        Ast::Block(body) => printable_stmts(body),
        Ast::Program(_) => false,
        _ => printable_expr(a),
    }
}


// ---------------------------------------------------------------------------
// Runs of siblings
// ---------------------------------------------------------------------------

proof fn lemma_exprs_over(kids: Seq<ParseTree>, lo: int, items: Seq<Ast>, n: int)
    requires
        0 <= lo,
        0 <= n <= items.len(),
        lo + items.len() <= kids.len(),
        forall|j: int|
            0 <= j < items.len() ==> expr_spec(#[trigger] kids[lo + j]) == Ok::<Ast, ParseFault>(
                items[j],
            ),
    ensures
        exprs_spec(kids, lo, lo + n) == Ok::<Seq<Ast>, ParseFault>(items.subrange(0, n)),
    decreases n,
{
    if n > 0 {
        lemma_exprs_over(kids, lo, items, n - 1);
        assert(expr_spec(kids[lo + (n - 1)]) == Ok::<Ast, ParseFault>(items[n - 1]));
        assert(items.subrange(0, n - 1).push(items[n - 1]) =~= items.subrange(0, n));
    } else {
        assert(items.subrange(0, 0) =~= Seq::<Ast>::empty());
    }
}

proof fn lemma_stmts_over(kids: Seq<ParseTree>, lo: int, body: Seq<Ast>, n: int)
    requires
        0 <= lo,
        0 <= n <= body.len(),
        lo + body.len() <= kids.len(),
        forall|j: int|
            0 <= j < body.len() ==> stmt_spec(#[trigger] kids[lo + j]) == Ok::<
                Option<Ast>,
                ParseFault,
            >(Some(body[j])),
    ensures
        stmts_spec(kids, lo, lo + n) == Ok::<Seq<Ast>, ParseFault>(body.subrange(0, n)),
    decreases n,
{
    if n > 0 {
        lemma_stmts_over(kids, lo, body, n - 1);
        assert(stmt_spec(kids[lo + (n - 1)]) == Ok::<Option<Ast>, ParseFault>(Some(body[n - 1])));
        assert(body.subrange(0, n - 1).push(body[n - 1]) =~= body.subrange(0, n));
    } else {
        assert(body.subrange(0, 0) =~= Seq::<Ast>::empty());
    }
}

proof fn lemma_block_end(kids: Seq<ParseTree>, i: int, e: int)
    requires
        0 <= i <= e <= kids.len(),
        forall|k: int| i <= k < e ==> !is_marker_rule((#[trigger] kids[k]).rule),
        e == kids.len() || is_marker_rule(kids[e].rule),
    ensures
        block_end(kids, i) == e,
    decreases e - i,
{
    if i < e {
        assert(!is_marker_rule(kids[i].rule));
        lemma_block_end(kids, i + 1, e);
    }
}

proof fn lemma_names_end(kids: Seq<ParseTree>, i: int, e: int)
    requires
        0 <= i <= e <= kids.len(),
        forall|k: int| i <= k < e ==> (#[trigger] kids[k]).rule == Rule::Identifier,
        e == kids.len() || kids[e].rule != Rule::Identifier,
    ensures
        names_end(kids, i) == e,
    decreases e - i,
{
    if i < e {
        assert(kids[i].rule == Rule::Identifier);
        lemma_names_end(kids, i + 1, e);
    }
}

proof fn lemma_clauses_end(kids: Seq<ParseTree>, i: int, e: int)
    requires
        0 <= i <= e <= kids.len(),
        forall|k: int| i <= k < e ==> (#[trigger] kids[k]).rule == Rule::ElseifClause,
        e == kids.len() || kids[e].rule != Rule::ElseifClause,
    ensures
        clauses_end(kids, i) == e,
    decreases e - i,
{
    if i < e {
        assert(kids[i].rule == Rule::ElseifClause);
        lemma_clauses_end(kids, i + 1, e);
    }
}

proof fn lemma_member_names(kids: Seq<ParseTree>, lo: int, names: Seq<Seq<char>>, n: int)
    requires
        0 <= lo,
        0 <= n <= names.len(),
        lo + names.len() <= kids.len(),
        forall|j: int|
            0 <= j < names.len() ==> #[trigger] kids[lo + j] == token(Rule::Identifier, names[j]),
    ensures
        member_names(kids, lo, lo + n) == names.subrange(0, n),
    decreases n,
{
    if n > 0 {
        lemma_member_names(kids, lo, names, n - 1);
        assert(kids[lo + (n - 1)] == token(Rule::Identifier, names[n - 1]));
        assert(names.subrange(0, n - 1).push(names[n - 1]) =~= names.subrange(0, n));
    } else {
        assert(names.subrange(0, 0) =~= Seq::<Seq<char>>::empty());
    }
}

proof fn lemma_quoted(text: Seq<char>)
    ensures
        quoted(text).len() >= 2,
        strip_quotes(quoted(text)) == text,
{
    assert(strip_quotes(quoted(text)) =~= text);
}

// ---------------------------------------------------------------------------
// Parsing the tree of a node gives the node
// ---------------------------------------------------------------------------

proof fn lemma_term_call(a: Ast)
    requires
        printable_expr(a),
        a is FunctionCall,
    ensures
        term_spec(term_tree(a)) == Ok::<Ast, ParseFault>(a),
    decreases a, 1nat,
{
    let t = term_tree(a);
    let c = t.children;
    match a {
        Ast::FunctionCall(name, args) => {
            lemma_exprs(args);
            let trees = expr_trees(args);
            assert forall|j: int| 0 <= j < args.len() implies expr_spec(#[trigger] c[1 + j])
                == Ok::<Ast, ParseFault>(args[j]) by {
                assert(c[1 + j] == trees[j]);
            }
            lemma_exprs_over(c, 1, args, args.len() as int);
            assert(args.subrange(0, args.len() as int) =~= args);
            assert(c[0].text == name);
            if c.len() == 4 {
                assert(c[2] == trees[1]);
                assert(printable_exprs(args));
                assert(printable_expr(args[1]));
                lemma_expr(args[1]);
                assert(c[2].rule == Rule::Expression);
            }
            assert(call_spec(t) == Ok::<Ast, ParseFault>(a));
        }
        _ => {},
    }
}

proof fn lemma_term_method(a: Ast)
    requires
        printable_expr(a),
        a is MethodCall,
    ensures
        term_spec(term_tree(a)) == Ok::<Ast, ParseFault>(a),
    decreases a, 1nat,
{
    let t = term_tree(a);
    let c = t.children;
    match a {
        Ast::MethodCall(receiver, members, args) => {
            lemma_term(*receiver);
            lemma_exprs(args);
            let trees = expr_trees(args);
            let m = c[0].children;
            assert(m[0] == term_tree(*receiver));
            assert forall|j: int| 0 <= j < members.len() implies #[trigger] m[1 + j] == token(
                Rule::Identifier,
                members[j],
            ) by {
                assert(m[1 + j] == name_tokens(members)[j]);
            }
            lemma_member_names(m, 1, members, members.len() as int);
            assert(members.subrange(0, members.len() as int) =~= members);
            assert forall|j: int| 0 <= j < args.len() implies expr_spec(#[trigger] c[1 + j])
                == Ok::<Ast, ParseFault>(args[j]) by {
                assert(c[1 + j] == trees[j]);
            }
            lemma_exprs_over(c, 1, args, args.len() as int);
            assert(args.subrange(0, args.len() as int) =~= args);
            assert(method_call_spec(t) == Ok::<Ast, ParseFault>(a));
        }
        _ => {},
    }
}

proof fn lemma_term_member(a: Ast)
    requires
        printable_expr(a),
        a is MemberAccess,
    ensures
        term_spec(term_tree(a)) == Ok::<Ast, ParseFault>(a),
    decreases a, 1nat,
{
    let t = term_tree(a);
    let c = t.children;
    match a {
        Ast::MemberAccess(base, members) => {
            lemma_term(*base);
            assert(c[0] == term_tree(*base));
            assert forall|j: int| 0 <= j < members.len() implies #[trigger] c[1 + j] == token(
                Rule::Identifier,
                members[j],
            ) by {
                assert(c[1 + j] == name_tokens(members)[j]);
            }
            lemma_member_names(c, 1, members, members.len() as int);
            assert(members.subrange(0, members.len() as int) =~= members);
            assert(member_access_spec(t) == Ok::<Ast, ParseFault>(a));
        }
        _ => {},
    }
}

proof fn lemma_term_lambda(a: Ast)
    requires
        printable_expr(a),
        a is Lambda,
    ensures
        term_spec(term_tree(a)) == Ok::<Ast, ParseFault>(a),
    decreases a, 1nat,
{
    let t = term_tree(a);
    let c = t.children;
    match a {
        Ast::Lambda(params, body) => {
            lemma_stmts(body);
            let n = params.len() as int;
            assert forall|k: int| 0 <= k < n implies (#[trigger] c[k]).rule
                == Rule::Identifier by {
                assert(c[k] == name_tokens(params)[k]);
            }
            if n < c.len() {
                assert(c[n] == stmt_trees(body)[0]);
            }
            lemma_names_end(c, 0, n);
            assert(texts(c, 0, n) =~= params);
            assert forall|j: int| 0 <= j < body.len() implies stmt_spec(#[trigger] c[n + j])
                == Ok::<Option<Ast>, ParseFault>(Some(body[j])) by {
                assert(c[n + j] == stmt_trees(body)[j]);
            }
            lemma_stmts_over(c, n, body, body.len() as int);
            assert(body.subrange(0, body.len() as int) =~= body);
            assert(lambda_spec(t) == Ok::<Ast, ParseFault>(a));
        }
        _ => {},
    }
}

proof fn lemma_term_table(a: Ast)
    requires
        printable_expr(a),
        a is Table,
    ensures
        term_spec(term_tree(a)) == Ok::<Ast, ParseFault>(a),
    decreases a, 1nat,
{
    let t = term_tree(a);
    let c = t.children;
    match a {
        Ast::Table(items) => {
            lemma_exprs(items);
            assert forall|j: int| 0 <= j < items.len() implies expr_spec(#[trigger] c[0 + j])
                == Ok::<Ast, ParseFault>(items[j]) by {
                assert(c[0 + j] == expr_trees(items)[j]);
            }
            lemma_exprs_over(c, 0, items, items.len() as int);
            assert(items.subrange(0, items.len() as int) =~= items);
        }
        _ => {},
    }
}

proof fn lemma_term_print(a: Ast)
    requires
        printable_expr(a),
        a is Print,
    ensures
        term_spec(term_tree(a)) == Ok::<Ast, ParseFault>(a),
    decreases a, 1nat,
{
    let t = term_tree(a);
    let c = t.children;
    match a {
        Ast::Print(x) => {
            lemma_expr(*x);
            assert(c.len() == 2);
            assert(c[0].text == "print"@);
            assert(c[1] == expr_tree(*x));
            assert(call_spec(t) == Ok::<Ast, ParseFault>(a));
        }
        _ => {},
    }
}

proof fn lemma_term(a: Ast)
    requires
        printable_expr(a),
    ensures
        term_spec(term_tree(a)) == Ok::<Ast, ParseFault>(a),
    decreases a, (if a is BinaryOp { 5nat } else { 2nat }),
{
    let t = term_tree(a);
    let c = t.children;
    match a {
        Ast::String(text) => {
            lemma_quoted(text);
        },
        Ast::Boolean(value) => {
            reveal_strlit("true");
            reveal_strlit("false");
            assert("true"@ != "false"@) by {
                assert("true"@.len() == 4);
                assert("false"@.len() == 5);
            }
        },
        Ast::BinaryOp(_, _, _) => {
            lemma_expr(a);
            assert(c[0] == expr_tree(a));
        },
        Ast::Not(x) => {
            lemma_term(*x);
            assert(c[0] == term_tree(*x));
        },
        Ast::FunctionCall(name, args) => {
            lemma_term_call(a);
        },
        Ast::Print(x) => {
            lemma_term_print(a);
        },
        Ast::MethodCall(receiver, members, args) => {
            lemma_term_method(a);
        },
        Ast::MemberAccess(base, members) => {
            lemma_term_member(a);
        },
        Ast::Index(base, key) => {
            lemma_term(*base);
            lemma_expr(*key);
            assert(c[0] == term_tree(*base));
            assert(c[1] == expr_tree(*key));
        },
        Ast::Table(items) => {
            lemma_term_table(a);
        },
        Ast::Dictionary(entries) => {
            lemma_entries(entries, entries.len() as int);
            assert(entries.subrange(0, entries.len() as int) =~= entries);
            assert(dictionary_spec(t) == Ok::<Ast, ParseFault>(a));
        },
        Ast::Lambda(params, body) => {
            lemma_term_lambda(a);
        },
        _ => {},
    }
}

proof fn lemma_expr(a: Ast)
    requires
        printable_expr(a),
    ensures
        expr_spec(expr_tree(a)) == Ok::<Ast, ParseFault>(a),
        expr_tree(a).rule == Rule::Expression,
    decreases a, 3nat,
{
    let t = expr_tree(a);
    let c = t.children;
    match a {
        Ast::BinaryOp(left, op, right) => {
            lemma_term(*left);
            lemma_term(*right);
            assert(c[0] == term_tree(*left));
            assert(c[2] == term_tree(*right));
            assert(operator_count(c) == 1);
            assert(first_bad_operand(c, 0, 0) is None);
            assert(first_bad_operand(c, 0, 1) is None);
            assert(first_bad_operand(c, 0, 2) is None);
            assert(root_operator(c, 0, 1) == 0);
            assert(fold_spec(c, 0, 0) == *left);
            assert(fold_spec(c, 1, 1) == *right);
            assert(fold_spec(c, 0, 1) == a);
        },
        _ => {
            lemma_term(a);
            assert(c[0] == term_tree(a));
            assert(operator_count(c) == 0);
            assert(first_bad_operand(c, 0, 0) is None);
            assert(first_bad_operand(c, 0, 1) is None);
            assert(fold_spec(c, 0, 0) == a);
        },
    }
}

proof fn lemma_exprs(items: Seq<Ast>)
    requires
        printable_exprs(items),
    ensures
        forall|j: int|
            0 <= j < items.len() ==> expr_spec(#[trigger] expr_trees(items)[j]) == Ok::<
                Ast,
                ParseFault,
            >(items[j]),
    decreases items, 0nat,
{
    assert forall|j: int| 0 <= j < items.len() implies expr_spec(#[trigger] expr_trees(items)[j])
        == Ok::<Ast, ParseFault>(items[j]) by {
        assert(printable_expr(items[j]));
        lemma_expr(items[j]);
    }
}

proof fn lemma_entries(entries: Seq<(Seq<char>, Ast)>, n: int)
    requires
        printable_entries(entries),
        0 <= n <= entries.len(),
    ensures
        entries_spec(entry_trees(entries), n) == Ok::<Seq<(Seq<char>, Ast)>, ParseFault>(
            entries.subrange(0, n),
        ),
    decreases entries, n,
{
    if n > 0 {
        lemma_entries(entries, n - 1);
        let kids = entry_trees(entries);
        let k = kids[n - 1].children;
        assert(printable_expr(entries[n - 1].1));
        lemma_expr(entries[n - 1].1);
        assert(k[1] == expr_tree(entries[n - 1].1));
        assert(k[0].rule == Rule::Identifier);
        assert(entries.subrange(0, n - 1).push(entries[n - 1]) =~= entries.subrange(0, n));
    } else {
        assert(entries.subrange(0, 0) =~= Seq::<(Seq<char>, Ast)>::empty());
    }
}

/// Whether a tree is that of a statement that parses back to it and cannot
/// be taken for a block marker, a name or, where it is none, an expression.
pub open spec fn reads_back(tree: ParseTree, a: Ast) -> bool {
    &&& stmt_spec(tree) == Ok::<Option<Ast>, ParseFault>(Some(a))
    &&& !is_marker_rule(tree.rule)
    &&& tree.rule != Rule::Identifier
    &&& (tree.rule == Rule::Expression ==> is_expression(a) && !is_call(a))
}

proof fn lemma_stmts(body: Seq<Ast>)
    requires
        printable_stmts(body),
    ensures
        forall|j: int| 0 <= j < body.len() ==> reads_back(#[trigger] stmt_trees(body)[j], body[j]),
    decreases body, 0nat,
{
    assert forall|j: int| 0 <= j < body.len() implies reads_back(
        #[trigger] stmt_trees(body)[j],
        body[j],
    ) by {
        assert(printable_stmt(body[j]));
        lemma_stmt(body[j]);
    }
}

/// The statements of a body, standing in `kids` from `lo` on, parse back to
/// the body, and the block they make ends where they end.
proof fn lemma_body(kids: Seq<ParseTree>, lo: int, body: Seq<Ast>)
    requires
        printable_stmts(body),
        0 <= lo,
        lo + body.len() <= kids.len(),
        forall|j: int| 0 <= j < body.len() ==> #[trigger] kids[lo + j] == stmt_trees(body)[j],
    ensures
        stmts_spec(kids, lo, lo + body.len()) == Ok::<Seq<Ast>, ParseFault>(body),
        forall|k: int| lo <= k < lo + body.len() ==> !is_marker_rule((#[trigger] kids[k]).rule),
        forall|k: int| lo <= k < lo + body.len() ==> (#[trigger] kids[k]).rule != Rule::Identifier,
        body.len() > 0 && kids[lo].rule == Rule::Expression ==> is_expression(body[0])
            && !is_call(body[0]),
    decreases body, 1nat,
{
    lemma_stmts(body);
    assert forall|j: int| 0 <= j < body.len() implies stmt_spec(#[trigger] kids[lo + j]) == Ok::<
        Option<Ast>,
        ParseFault,
    >(Some(body[j])) by {
        assert(kids[lo + j] == stmt_trees(body)[j]);
        assert(reads_back(stmt_trees(body)[j], body[j]));
    }
    lemma_stmts_over(kids, lo, body, body.len() as int);
    assert(body.subrange(0, body.len() as int) =~= body);
    assert forall|k: int| lo <= k < lo + body.len() implies !is_marker_rule(
        (#[trigger] kids[k]).rule,
    ) && kids[k].rule != Rule::Identifier by {
        assert(kids[lo + (k - lo)] == stmt_trees(body)[k - lo]);
        assert(reads_back(stmt_trees(body)[k - lo], body[k - lo]));
    }
    if body.len() > 0 {
        assert(kids[lo + 0] == stmt_trees(body)[0]);
        assert(reads_back(stmt_trees(body)[0], body[0]));
    }
}

proof fn lemma_clauses(kids: Seq<ParseTree>, lo: int, clauses: Seq<(Ast, Seq<Ast>)>, n: int)
    requires
        printable_clauses(clauses),
        0 <= lo,
        0 <= n <= clauses.len(),
        lo + clauses.len() <= kids.len(),
        forall|j: int|
            0 <= j < clauses.len() ==> #[trigger] kids[lo + j] == clause_trees(clauses)[j],
    ensures
        clauses_spec(kids, lo, lo + n) == Ok::<Seq<(Ast, Seq<Ast>)>, ParseFault>(
            clauses.subrange(0, n),
        ),
    decreases clauses, n,
{
    if n > 0 {
        lemma_clauses(kids, lo, clauses, n - 1);
        let clause = clauses[n - 1];
        assert(kids[lo + (n - 1)] == clause_trees(clauses)[n - 1]);
        let k = kids[lo + n - 1].children;
        assert(printable_expr(clause.0) && printable_stmts(clause.1));
        lemma_expr(clause.0);
        assert(k[0] == expr_tree(clause.0));
        assert forall|j: int| 0 <= j < clause.1.len() implies #[trigger] k[1 + j] == stmt_trees(
            clause.1,
        )[j] by {}
        lemma_body(k, 1, clause.1);
        assert(clauses.subrange(0, n - 1).push(clause) =~= clauses.subrange(0, n));
    } else {
        assert(clauses.subrange(0, 0) =~= Seq::<(Ast, Seq<Ast>)>::empty());
    }
}

proof fn lemma_stmt_assignment(a: Ast)
    requires
        printable_stmt(a),
        a is Assignment,
    ensures
        reads_back(stmt_tree(a), a),
    decreases a, 6nat,
{
    let t = stmt_tree(a);
    let c = t.children;
    match a {
        Ast::Assignment(target, value) => {
            lemma_term(*target);
            lemma_expr(*value);
            assert(c[0] == term_tree(*target));
            assert(c[1] == expr_tree(*value));
            assert(assignment_spec(t) == Ok::<Option<Ast>, ParseFault>(Some(a)));
        }
        _ => {},
    }
}

proof fn lemma_stmt_while(a: Ast)
    requires
        printable_stmt(a),
        a is While,
    ensures
        reads_back(stmt_tree(a), a),
    decreases a, 6nat,
{
    let t = stmt_tree(a);
    let c = t.children;
    match a {
        Ast::While(cond, body) => {
            lemma_expr(*cond);
            assert(c[0] == expr_tree(*cond));
            assert forall|j: int| 0 <= j < body.len() implies #[trigger] c[1 + j] == stmt_trees(
                body,
            )[j] by {}
            lemma_body(c, 1, body);
            assert(while_stmt_spec(t) == Ok::<Option<Ast>, ParseFault>(Some(a)));
        }
        _ => {},
    }
}

proof fn lemma_stmt_def(a: Ast)
    requires
        printable_stmt(a),
        a is FunctionDef,
    ensures
        reads_back(stmt_tree(a), a),
    decreases a, 6nat,
{
    let t = stmt_tree(a);
    let c = t.children;
    match a {
        Ast::FunctionDef(name, params, body) => {
            let n = params.len() as int;
            assert forall|k: int| 1 <= k < 1 + n implies (#[trigger] c[k]).rule
                == Rule::Identifier by {
                assert(c[k] == name_tokens(params)[k - 1]);
            }
            assert forall|j: int| 0 <= j < body.len() implies #[trigger] c[1 + n + j]
                == stmt_trees(body)[j] by {}
            lemma_body(c, 1 + n, body);
            lemma_names_end(c, 1, 1 + n);
            assert(texts(c, 1, 1 + n) =~= params) by {
                assert forall|j: int| 0 <= j < n implies texts(c, 1, 1 + n)[j] == params[j] by {
                    assert(c[1 + j] == name_tokens(params)[j]);
                }
            }
            assert(c[0].text == name);
            assert(function_def_spec(t) == Ok::<Option<Ast>, ParseFault>(Some(a)));
        }
        _ => {},
    }
}

proof fn lemma_stmt_block(a: Ast)
    requires
        printable_stmt(a),
        a is Block,
    ensures
        reads_back(stmt_tree(a), a),
    decreases a, 6nat,
{
    let t = stmt_tree(a);
    let c = t.children;
    match a {
        Ast::Block(body) => {
            assert forall|j: int| 0 <= j < body.len() implies #[trigger] c[0 + j] == stmt_trees(
                body,
            )[j] by {}
            lemma_body(c, 0, body);
        }
        _ => {},
    }
}

proof fn lemma_stmt(a: Ast)
    requires
        printable_stmt(a),
    ensures
        reads_back(stmt_tree(a), a),
    decreases a, 7nat,
{
    let t = stmt_tree(a);
    let c = t.children;
    match a {
        Ast::Import(module) => {
            lemma_quoted(module);
        },
        Ast::Assignment(target, value) => {
            lemma_stmt_assignment(a);
        },
        Ast::LocalAssignment(name, value) => {
            lemma_expr(*value);
            assert(c[1] == expr_tree(*value));
            assert(c[0].text == name);
        },
        Ast::Print(x) => {
            lemma_expr(*x);
            assert(c[0] == expr_tree(*x));
        },
        Ast::FunctionCall(_, _) => {
            lemma_term(a);
        },
        Ast::MethodCall(_, _, _) => {
            lemma_term(a);
        },
        Ast::If(cond, then_body, clauses, else_body) => {
            lemma_if(a);
        },
        Ast::While(cond, body) => {
            lemma_stmt_while(a);
        },
        Ast::For(var, start, end, step, body) => {
            lemma_for(a);
        },
        Ast::FunctionDef(name, params, body) => {
            lemma_stmt_def(a);
        },
        Ast::Return(value) => {
            match value {
                Some(x) => {
                    lemma_expr(*x);
                    assert(c[0] == expr_tree(*x));
                },
                None => {},
            }
        },
        Ast::Break => {},
        Ast::Continue => {},
        Ast::TryCatch(try_body, var, catch_body) => {
            lemma_try(a);
        },
        Ast::Throw(x) => {
            lemma_expr(*x);
            assert(c[0] == expr_tree(*x));
        },
        Ast::Block(body) => {
            lemma_stmt_block(a);
        },
        Ast::Program(_) => {},
        _ => {
            lemma_expr(a);
        },
    }
}

proof fn lemma_if(a: Ast)
    requires
        printable_stmt(a),
        a is If,
    ensures
        reads_back(stmt_tree(a), a),
    decreases a, 6nat,
{
    let t = stmt_tree(a);
    let c = t.children;
    match a {
        Ast::If(cond, then_body, clauses, else_body) => {
            let then_end: int = 1 + then_body.len() as int;
            let else_at: int = then_end + clauses.len() as int;
            lemma_expr(*cond);
            assert(c[0] == expr_tree(*cond));
            assert forall|j: int| 0 <= j < then_body.len() implies #[trigger] c[1 + j]
                == stmt_trees(then_body)[j] by {}
            lemma_body(c, 1, then_body);
            assert forall|j: int| 0 <= j < clauses.len() implies #[trigger] c[then_end + j]
                == clause_trees(clauses)[j] by {}
            assert forall|k: int| then_end <= k < else_at implies (#[trigger] c[k]).rule
                == Rule::ElseifClause by {
                assert(c[then_end + (k - then_end)] == clause_trees(clauses)[k - then_end]);
            }
            if else_body is Some {
                assert(c[else_at] == group(Rule::ElseClause, stmt_trees(else_body->0)));
            }
            lemma_block_end(c, 1, then_end);
            lemma_clauses_end(c, then_end, else_at);
            lemma_clauses(c, then_end, clauses, clauses.len() as int);
            assert(clauses.subrange(0, clauses.len() as int) =~= clauses);
            match else_body {
                Some(body) => {
                    let k = c[else_at].children;
                    assert forall|j: int| 0 <= j < body.len() implies #[trigger] k[0 + j]
                        == stmt_trees(body)[j] by {}
                    lemma_body(k, 0, body);
                },
                None => {},
            }
            assert(if_stmt_spec(t) == Ok::<Option<Ast>, ParseFault>(Some(a)));
        },
        _ => {},
    }
}

proof fn lemma_for(a: Ast)
    requires
        printable_stmt(a),
        a is For,
    ensures
        reads_back(stmt_tree(a), a),
    decreases a, 6nat,
{
    let t = stmt_tree(a);
    let c = t.children;
    match a {
        Ast::For(var, start, end, step, body) => {
            lemma_expr(*start);
            lemma_expr(*end);
            assert(c[0].text == var);
            assert(c[1] == expr_tree(*start));
            assert(c[2] == expr_tree(*end));
            match step {
                Some(x) => {
                    lemma_expr(*x);
                    assert(c[3] == expr_tree(*x));
                    assert forall|j: int| 0 <= j < body.len() implies #[trigger] c[4 + j]
                        == stmt_trees(body)[j] by {}
                    lemma_body(c, 4, body);
                },
                None => {
                    assert forall|j: int| 0 <= j < body.len() implies #[trigger] c[3 + j]
                        == stmt_trees(body)[j] by {}
                    lemma_body(c, 3, body);
                },
            }
            assert(for_stmt_spec(t) == Ok::<Option<Ast>, ParseFault>(Some(a)));
        },
        _ => {},
    }
}

proof fn lemma_try(a: Ast)
    requires
        printable_stmt(a),
        a is TryCatch,
    ensures
        reads_back(stmt_tree(a), a),
    decreases a, 6nat,
{
    let t = stmt_tree(a);
    let c = t.children;
    match a {
        Ast::TryCatch(try_body, var, catch_body) => {
            let try_end = try_body.len() as int;
            assert forall|j: int| 0 <= j < try_body.len() implies #[trigger] c[0 + j]
                == stmt_trees(try_body)[j] by {}
            lemma_body(c, 0, try_body);
            assert(c[try_end].rule == Rule::CatchClause);
            lemma_block_end(c, 0, try_end);
            let k = c[try_end].children;
            match var {
                Some(name) => {
                    assert(k[0] == token(Rule::Identifier, name));
                    assert forall|j: int| 0 <= j < catch_body.len() implies #[trigger] k[1 + j]
                        == stmt_trees(catch_body)[j] by {}
                    lemma_body(k, 1, catch_body);
                },
                None => {
                    assert forall|j: int| 0 <= j < catch_body.len() implies #[trigger] k[0 + j]
                        == stmt_trees(catch_body)[j] by {}
                    lemma_body(k, 0, catch_body);
                },
            }
            assert(try_stmt_spec(t) == Ok::<Option<Ast>, ParseFault>(Some(a)));
        },
        _ => {},
    }
}

/// Nothing is lost between a program and its parse tree: the tree of a
/// program made of nodes that can be told from their trees parses back to
/// the same program.
pub proof fn lemma_program_reads_back(body: Seq<Ast>)
    requires
        printable_stmts(body),
    ensures
        program_spec(seq![program_tree(Ast::Program(body))]) == Ok::<Ast, ParseFault>(
            Ast::Program(body),
        ),
{
    let tree = program_tree(Ast::Program(body));
    let trees = seq![tree];
    let c = tree.children;
    assert forall|j: int| 0 <= j < body.len() implies #[trigger] c[0 + j] == stmt_trees(
        body,
    )[j] by {}
    lemma_body(c, 0, body);
    assert(program_body_spec(trees, 0) == Ok::<Seq<Ast>, ParseFault>(Seq::empty()));
    assert(trees[0] == tree);
    assert(Seq::<Ast>::empty() + body =~= body);
    assert(program_body_spec(trees, 1) == Ok::<Seq<Ast>, ParseFault>(body));
}

/// An expression made of nodes that can be told from their trees parses back
/// from its tree: its literals and its operators come back as they were.
pub proof fn lemma_expression_reads_back(a: Ast)
    requires
        printable_expr(a),
    ensures
        expr_spec(expr_tree(a)) == Ok::<Ast, ParseFault>(a),
        term_spec(term_tree(a)) == Ok::<Ast, ParseFault>(a),
{
    lemma_expr(a);
    lemma_term(a);
}

/// A statement that can be told from its tree parses back from it.
pub proof fn lemma_statement_reads_back(a: Ast)
    requires
        printable_stmt(a),
    ensures
        stmt_spec(stmt_tree(a)) == Ok::<Option<Ast>, ParseFault>(Some(a)),
{
    lemma_stmt(a);
}


// ---------------------------------------------------------------------------
// Building the trees
// ---------------------------------------------------------------------------

fn make_token(rule: Rule, text: &str) -> (r: ParseNode)
    ensures
        r@ == token(rule, text@),
{
    ParseNode::leaf(rule, text)
}

fn make_group(rule: Rule, children: Vec<ParseNode>) -> (r: ParseNode)
    ensures
        r@ == group(rule, nodes_view(children@)),
{
    proof {
        reveal_strlit("");
        assert(""@ =~= Seq::<char>::empty());
    }
    ParseNode::branch(rule, "", children)
}

fn make_quoted(text: &str) -> (r: String)
    ensures
        r@ == quoted(text@),
{
    let mut out = String::from_str("\"");
    out.append(text);
    out.append("\"");
    proof {
        reveal_strlit("\"");
        assert("\""@ =~= seq!['"']);
        assert(out@ =~= quoted(text@));
    }
    out
}

fn make_names(names: &Vec<String>) -> (r: Vec<ParseNode>)
    ensures
        nodes_view(r@) == name_tokens(names_view(names@)),
{
    let mut out: Vec<ParseNode> = Vec::new();
    let mut i: usize = 0;
    while i < names.len()
        invariant
            i <= names.len(),
            out.len() == i,
            forall|j: int| 0 <= j < i ==> out[j]@ == token(Rule::Identifier, names[j]@),
        decreases names.len() - i,
    {
        out.push(make_token(Rule::Identifier, names[i].as_str()));
        i += 1;
    }
    assert(nodes_view(out@) =~= name_tokens(names_view(names@)));
    out
}

fn make_operator(op: &str) -> (r: ParseNode)
    ensures
        r@ == token(operator_rule(op@), op@),
{
    let rule = if same_text(op, "+") {
        Rule::OpAdd
    } else if same_text(op, "-") {
        Rule::OpSub
    } else if same_text(op, "*") {
        Rule::OpMul
    } else if same_text(op, "/") {
        Rule::OpDiv
    } else if same_text(op, "%") {
        Rule::OpMod
    } else if same_text(op, "..") {
        Rule::OpConcat
    } else if same_text(op, "==") {
        Rule::OpEq
    } else if same_text(op, "~=") {
        Rule::OpNe
    } else if same_text(op, "<") {
        Rule::OpLt
    } else if same_text(op, ">") {
        Rule::OpGt
    } else if same_text(op, "<=") {
        Rule::OpLe
    } else if same_text(op, ">=") {
        Rule::OpGe
    } else if same_text(op, "and") {
        Rule::OpAnd
    } else {
        Rule::OpOr
    };
    make_token(rule, op)
}

/// The tree of a node as an operand.
pub fn tree_of_term(node: &AstNode) -> (r: ParseNode)
    ensures
        r@ == term_tree(node@),
    decreases node, (if node@ is BinaryOp { 2nat } else { 0nat }),
{
    match node {
        AstNode::Number(text) => make_token(Rule::Number, text.as_str()),
        AstNode::String(text) => {
            let shown = make_quoted(text.as_str());
            make_token(Rule::String, shown.as_str())
        },
        AstNode::Identifier(name) => make_token(Rule::Identifier, name.as_str()),
        AstNode::Boolean(value) => make_token(
            Rule::Boolean,
            if *value {
                "true"
            } else {
                "false"
            },
        ),
        AstNode::Nil => make_token(Rule::Nil, "nil"),
        AstNode::BinaryOp(_, _, _) => make_group(Rule::Term, one(tree_of_expression(node))),
        AstNode::Not(x) => make_group(Rule::NotExpr, one(tree_of_term(x))),
        AstNode::FunctionCall(name, args) => make_group(
            Rule::FunctionCall,
            join(one(make_token(Rule::Identifier, name.as_str())), trees_of_expressions(args)),
        ),
        AstNode::Print(x) => {
            let kids = join(one(make_token(Rule::Identifier, "print")), one(tree_of_expression(x)));
            assert(nodes_view(kids@) =~= seq![
                token(Rule::Identifier, "print"@),
                expr_tree(x@),
            ]);
            make_group(Rule::FunctionCall, kids)
        },
        AstNode::MethodCall(receiver, members, args) => {
            let access = make_group(
                Rule::MemberAccess,
                join(one(tree_of_term(receiver)), make_names(members)),
            );
            make_group(Rule::MethodCall, join(one(access), trees_of_expressions(args)))
        },
        AstNode::MemberAccess(base, members) => make_group(
            Rule::MemberAccess,
            join(one(tree_of_term(base)), make_names(members)),
        ),
        AstNode::Index(base, index) => {
            let kids = join(one(tree_of_term(base)), one(tree_of_expression(index)));
            assert(nodes_view(kids@) =~= seq![term_tree(base@), expr_tree(index@)]);
            make_group(Rule::IndexAccess, kids)
        },
        AstNode::Table(items) => make_group(Rule::Table, trees_of_expressions(items)),
        AstNode::Dictionary(entries) => make_group(Rule::Dictionary, trees_of_entries(entries)),
        AstNode::Lambda(params, body) => make_group(
            Rule::Lambda,
            join(make_names(params), trees_of_statements(body)),
        ),
        _ => make_token(Rule::Nil, "nil"),
    }
}

/// The tree of a node as an expression.
pub fn tree_of_expression(node: &AstNode) -> (r: ParseNode)
    ensures
        r@ == expr_tree(node@),
    decreases node, 1nat,
{
    match node {
        AstNode::BinaryOp(left, op, right) => {
            let kids = join(
                join(one(tree_of_term(left)), one(make_operator(op.as_str()))),
                one(tree_of_term(right)),
            );
            assert(nodes_view(kids@) =~= seq![
                term_tree(left@),
                token(operator_rule(op@), op@),
                term_tree(right@),
            ]);
            make_group(Rule::Expression, kids)
        },
        _ => make_group(Rule::Expression, one(tree_of_term(node))),
    }
}

fn trees_of_expressions(items: &Vec<AstNode>) -> (r: Vec<ParseNode>)
    ensures
        nodes_view(r@) == expr_trees(ast_list_view(*items)),
    decreases items, 0nat,
{
    let mut out: Vec<ParseNode> = Vec::new();
    let mut i: usize = 0;
    while i < items.len()
        invariant
            i <= items.len(),
            out.len() == i,
            forall|j: int| 0 <= j < i ==> out[j]@ == expr_tree(items[j]@),
        decreases items.len() - i,
    {
        out.push(tree_of_expression(&items[i]));
        i += 1;
    }
    assert(nodes_view(out@) =~= expr_trees(ast_list_view(*items)));
    out
}

fn trees_of_entries(entries: &Vec<(String, AstNode)>) -> (r: Vec<ParseNode>)
    ensures
        nodes_view(r@) == entry_trees(ast_entries_view(*entries)),
    decreases entries, 0nat,
{
    let mut out: Vec<ParseNode> = Vec::new();
    let mut i: usize = 0;
    while i < entries.len()
        invariant
            i <= entries.len(),
            out.len() == i,
            forall|j: int|
                0 <= j < i ==> out[j]@ == group(
                    Rule::DictEntry,
                    seq![token(Rule::Identifier, entries[j].0@), expr_tree(entries[j].1@)],
                ),
        decreases entries.len() - i,
    {
        let kids = join(
            one(make_token(Rule::Identifier, entries[i].0.as_str())),
            one(tree_of_expression(&entries[i].1)),
        );
        assert(nodes_view(kids@) =~= seq![
            token(Rule::Identifier, entries[i as int].0@),
            expr_tree(entries[i as int].1@),
        ]);
        out.push(make_group(Rule::DictEntry, kids));
        i += 1;
    }
    assert(nodes_view(out@) =~= entry_trees(ast_entries_view(*entries)));
    out
}

fn trees_of_statements(body: &Vec<AstNode>) -> (r: Vec<ParseNode>)
    ensures
        nodes_view(r@) == stmt_trees(ast_list_view(*body)),
    decreases body, 0nat,
{
    let mut out: Vec<ParseNode> = Vec::new();
    let mut i: usize = 0;
    while i < body.len()
        invariant
            i <= body.len(),
            out.len() == i,
            forall|j: int| 0 <= j < i ==> out[j]@ == stmt_tree(body[j]@),
        decreases body.len() - i,
    {
        out.push(tree_of_statement(&body[i]));
        i += 1;
    }
    assert(nodes_view(out@) =~= stmt_trees(ast_list_view(*body)));
    out
}

fn trees_of_clauses(clauses: &Vec<(AstNode, Vec<AstNode>)>) -> (r: Vec<ParseNode>)
    ensures
        nodes_view(r@) == clause_trees(ast_clauses_view(*clauses)),
    decreases clauses, 0nat,
{
    let mut out: Vec<ParseNode> = Vec::new();
    let mut i: usize = 0;
    while i < clauses.len()
        invariant
            i <= clauses.len(),
            out.len() == i,
            forall|j: int|
                0 <= j < i ==> out[j]@ == group(
                    Rule::ElseifClause,
                    seq![expr_tree(clauses[j].0@)] + stmt_trees(ast_list_view(clauses[j].1)),
                ),
        decreases clauses.len() - i,
    {
        let kids = join(one(tree_of_expression(&clauses[i].0)), trees_of_statements(&clauses[i].1));
        out.push(make_group(Rule::ElseifClause, kids));
        i += 1;
    }
    assert(nodes_view(out@) =~= clause_trees(ast_clauses_view(*clauses)));
    out
}

/// The tree of a node as a statement.
#[verifier::rlimit(100)]
pub fn tree_of_statement(node: &AstNode) -> (r: ParseNode)
    ensures
        r@ == stmt_tree(node@),
    decreases node, 3nat,
{
    match node {
        AstNode::Import(module) => {
            let shown = make_quoted(module.as_str());
            make_group(Rule::ImportStmt, one(make_token(Rule::String, shown.as_str())))
        },
        AstNode::Assignment(target, value) => {
            let kids = join(one(tree_of_term(target)), one(tree_of_expression(value)));
            assert(nodes_view(kids@) =~= seq![term_tree(target@), expr_tree(value@)]);
            make_group(Rule::Assignment, kids)
        },
        AstNode::LocalAssignment(name, value) => {
            let kids = join(
                one(make_token(Rule::Identifier, name.as_str())),
                one(tree_of_expression(value)),
            );
            assert(nodes_view(kids@) =~= seq![token(Rule::Identifier, name@), expr_tree(value@)]);
            make_group(Rule::LocalAssignment, kids)
        },
        AstNode::Print(x) => make_group(Rule::PrintStmt, one(tree_of_expression(x))),
        AstNode::FunctionCall(_, _) => tree_of_term(node),
        AstNode::MethodCall(_, _, _) => tree_of_term(node),
        AstNode::If(cond, then_body, clauses, else_body) => {
            let last: Vec<ParseNode> = match else_body {
                Some(body) => one(make_group(Rule::ElseClause, trees_of_statements(body))),
                None => {
                    let none: Vec<ParseNode> = Vec::new();
                    assert(nodes_view(none@) =~= Seq::empty());
                    none
                },
            };
            let kids = join(
                join(
                    join(one(tree_of_expression(cond)), trees_of_statements(then_body)),
                    trees_of_clauses(clauses),
                ),
                last,
            );
            make_group(Rule::IfStmt, kids)
        },
        AstNode::While(cond, body) => make_group(
            Rule::WhileStmt,
            join(one(tree_of_expression(cond)), trees_of_statements(body)),
        ),
        AstNode::For(var, start, end, step, body) => {
            let head = join(
                join(
                    one(make_token(Rule::Identifier, var.as_str())),
                    one(tree_of_expression(start)),
                ),
                one(tree_of_expression(end)),
            );
            assert(nodes_view(head@) =~= seq![
                token(Rule::Identifier, var@),
                expr_tree(start@),
                expr_tree(end@),
            ]);
            let by: Vec<ParseNode> = match step {
                Some(x) => one(tree_of_expression(x)),
                None => {
                    let none: Vec<ParseNode> = Vec::new();
                    assert(nodes_view(none@) =~= Seq::empty());
                    none
                },
            };
            make_group(Rule::ForStmt, join(join(head, by), trees_of_statements(body)))
        },
        AstNode::FunctionDef(name, params, body) => make_group(
            Rule::FunctionDef,
            join(
                join(one(make_token(Rule::Identifier, name.as_str())), make_names(params)),
                trees_of_statements(body),
            ),
        ),
        AstNode::Return(value) => {
            let kids: Vec<ParseNode> = match value {
                Some(x) => one(tree_of_expression(x)),
                None => {
                    let none: Vec<ParseNode> = Vec::new();
                    assert(nodes_view(none@) =~= Seq::empty());
                    none
                },
            };
            make_group(Rule::ReturnStmt, kids)
        },
        AstNode::Break => make_token(Rule::BreakStmt, "break"),
        AstNode::Continue => make_token(Rule::ContinueStmt, "continue"),
        AstNode::TryCatch(try_body, var, catch_body) => {
            let bound: Vec<ParseNode> = match var {
                Some(name) => one(make_token(Rule::Identifier, name.as_str())),
                None => {
                    let none: Vec<ParseNode> = Vec::new();
                    assert(nodes_view(none@) =~= Seq::empty());
                    none
                },
            };
            let clause = make_group(Rule::CatchClause, join(bound, trees_of_statements(catch_body)));
            let kids = join(trees_of_statements(try_body), one(clause));
            assert(nodes_view(kids@) =~= stmt_trees(ast_list_view(*try_body)).push(clause@));
            make_group(Rule::TryStmt, kids)
        },
        AstNode::Throw(x) => make_group(Rule::ThrowStmt, one(tree_of_expression(x))),
        AstNode::Block(body) => make_group(Rule::Block, trees_of_statements(body)),
        _ => tree_of_expression(node),
    }
}

/// The parse tree of a program: parsing it gives the program back, where
/// the program is made of nodes that can be told from their trees.
pub fn tree_of_program(node: &AstNode) -> (r: ParseNode)
    ensures
        r@ == program_tree(node@),
{
    match node {
        AstNode::Program(body) => make_group(Rule::Program, trees_of_statements(body)),
        _ => make_group(Rule::Program, one(tree_of_statement(node))),
    }
}

} // verus!
