//! From the parse tree to the abstract syntax tree.
//!
//! The `*_spec` functions say, over mathematical trees, what the parser
//! builds from each rule node. The executable functions below them compute
//! exactly that.
use vstd::prelude::*;
use vstd::string::*;
use vstd::utf8::*;
use crate::ast::{Ast, AstNode, ast_list_view, ast_entries_view, ast_clauses_view, names_view};
pub use crate::grammar::{PickupParser, tokenize};
use crate::text::same_text;
use crate::tree::{ParseNode, ParseTree, Rule, nodes_view, lemma_children_view};

verus! {

/// Why a parse failed.
#[derive(Debug, PartialEq)]
pub enum ParseError {
    /// The source text is not in the language: byte offset and message.
    Syntax { offset: usize, message: String },
    /// A rule node lacks a child that the parser needs: the rule that was
    /// expected there, and a message.
    Shape { expected: Rule, message: String },
}

/// The mathematical value of a [`ParseError`].
pub enum ParseFault {
    Syntax { offset: usize, message: Seq<char> },
    Shape { expected: Rule, message: Seq<char> },
}

impl View for ParseError {
    type V = ParseFault;

    open spec fn view(&self) -> ParseFault {
        match self {
            ParseError::Syntax { offset, message } => ParseFault::Syntax {
                offset: *offset,
                message: message@,
            },
            ParseError::Shape { expected, message } => ParseFault::Shape {
                expected: *expected,
                message: message@,
            },
        }
    }
}

impl ParseError {
    /// The error as one line of text.
    pub fn message(&self) -> (r: String)
        ensures
            r@ == match self@ {
                ParseFault::Syntax { offset, message } => message,
                ParseFault::Shape { expected, message } => "AST construction failed: "@ + message,
            },
    {
        match self {
            ParseError::Syntax { offset, message } => message.clone(),
            ParseError::Shape { expected, message } => {
                let mut out = String::from_str("AST construction failed: ");
                out.append(message.as_str());
                out
            },
        }
    }
}

/// What a parsing function gave for a node, as a mathematical value.
pub open spec fn node_result_view(r: Result<AstNode, ParseError>) -> Result<Ast, ParseFault> {
    match r {
        Ok(node) => Ok(node@),
        Err(e) => Err(e@),
    }
}

/// What a parsing function gave for a statement, as a mathematical value.
pub open spec fn stmt_result_view(r: Result<Option<AstNode>, ParseError>) -> Result<
    Option<Ast>,
    ParseFault,
> {
    match r {
        Ok(Some(node)) => Ok(Some(node@)),
        Ok(None) => Ok(None),
        Err(e) => Err(e@),
    }
}

/// What a parsing function gave for a list, as a mathematical value.
pub open spec fn list_result_view(r: Result<Vec<AstNode>, ParseError>) -> Result<
    Seq<Ast>,
    ParseFault,
> {
    match r {
        Ok(nodes) => Ok(ast_list_view(nodes)),
        Err(e) => Err(e@),
    }
}

/// The failure of a node that lacks what the parser expects.
pub open spec fn shape_fault(expected: Rule, message: Seq<char>) -> ParseFault {
    ParseFault::Shape { expected, message }
}

// ---------------------------------------------------------------------------
// Literals and operators
// ---------------------------------------------------------------------------

/// A quoted literal without its first and last character.
pub open spec fn strip_quotes(text: Seq<char>) -> Seq<char> {
    text.subrange(1, text.len() - 1)
}

/// A decimal digit.
pub open spec fn is_digit(c: char) -> bool {
    '0' <= c && c <= '9'
}

/// The end of the run of digits that starts at `i`.
pub open spec fn digits_end(s: Seq<char>, i: int) -> int
    decreases s.len() - i,
{
    if 0 <= i < s.len() && is_digit(s[i]) {
        digits_end(s, i + 1)
    } else {
        i
    }
}

/// From `start` to the end: digits, then optionally a point and digits.
pub open spec fn is_unsigned_number(s: Seq<char>, start: int) -> bool {
    let whole = digits_end(s, start);
    &&& whole > start
    &&& (whole == s.len() || (s[whole] == '.' && {
        let fraction = digits_end(s, whole + 1);
        fraction > whole + 1 && fraction == s.len()
    }))
}

/// A numeric literal: an optional minus sign, digits, and optionally a point
/// followed by digits.
pub open spec fn is_number_text(s: Seq<char>) -> bool {
    if s.len() > 0 && s[0] == '-' {
        is_unsigned_number(s, 1)
    } else {
        is_unsigned_number(s, 0)
    }
}

/// How tightly a binary operator binds; an unknown symbol binds loosest.
pub open spec fn precedence(op: Seq<char>) -> nat {
    if op == "or"@ {
        1
    } else if op == "and"@ {
        2
    } else if op == "=="@ || op == "~="@ {
        3
    } else if op == "<"@ || op == ">"@ || op == "<="@ || op == ">="@ {
        4
    } else if op == ".."@ {
        5
    } else if op == "+"@ || op == "-"@ {
        6
    } else if op == "*"@ || op == "/"@ || op == "%"@ {
        7
    } else {
        0
    }
}

/// Whether a rule is that of a binary operator.
pub open spec fn is_operator_rule(rule: Rule) -> bool {
    rule == Rule::OpAdd || rule == Rule::OpSub || rule == Rule::OpMul || rule == Rule::OpDiv
        || rule == Rule::OpMod || rule == Rule::OpConcat || rule == Rule::OpEq || rule
        == Rule::OpNe || rule == Rule::OpLt || rule == Rule::OpGt || rule == Rule::OpLe || rule
        == Rule::OpGe || rule == Rule::OpAnd || rule == Rule::OpOr
}

/// A node that ends a statement block instead of belonging to it.
pub open spec fn is_marker_rule(rule: Rule) -> bool {
    rule == Rule::ElseifClause || rule == Rule::ElseClause || rule == Rule::CatchClause
}

/// Whether a node can stand left of `=`: a name, a member or an index.
pub open spec fn is_assignable(target: Ast) -> bool {
    target is Identifier || target is MemberAccess || target is Index
}

// ---------------------------------------------------------------------------
// Runs of siblings
// ---------------------------------------------------------------------------

/// The first index from `i` on whose node is a block marker, or the length.
pub open spec fn block_end(kids: Seq<ParseTree>, i: int) -> int
    decreases kids.len() - i,
{
    if 0 <= i < kids.len() && !is_marker_rule(kids[i].rule) {
        block_end(kids, i + 1)
    } else {
        i
    }
}

/// The first index from `i` on whose node is no identifier, or the length.
pub open spec fn names_end(kids: Seq<ParseTree>, i: int) -> int
    decreases kids.len() - i,
{
    if 0 <= i < kids.len() && kids[i].rule == Rule::Identifier {
        names_end(kids, i + 1)
    } else {
        i
    }
}

/// The first index from `i` on whose node is no elseif clause, or the length.
pub open spec fn clauses_end(kids: Seq<ParseTree>, i: int) -> int
    decreases kids.len() - i,
{
    if 0 <= i < kids.len() && kids[i].rule == Rule::ElseifClause {
        clauses_end(kids, i + 1)
    } else {
        i
    }
}

/// The texts of the nodes from `lo` up to `hi`.
pub open spec fn texts(kids: Seq<ParseTree>, lo: int, hi: int) -> Seq<Seq<char>> {
    Seq::new((hi - lo) as nat, |j: int| kids[lo + j].text)
}

/// The texts of the identifier nodes from `lo` up to `hi`.
pub open spec fn member_names(kids: Seq<ParseTree>, lo: int, hi: int) -> Seq<Seq<char>>
    decreases hi - lo,
{
    if hi <= lo {
        Seq::empty()
    } else if kids[hi - 1].rule == Rule::Identifier {
        member_names(kids, lo, hi - 1).push(kids[hi - 1].text)
    } else {
        member_names(kids, lo, hi - 1)
    }
}

// ---------------------------------------------------------------------------
// Operator precedence
// ---------------------------------------------------------------------------

/// In an expression node the operands stand at the even positions and the
/// operators between them: this is the precedence of operator `k`.
pub open spec fn operator_precedence(kids: Seq<ParseTree>, k: int) -> nat {
    precedence(kids[2 * k + 1].text)
}

/// The number of operators that have an operand on both sides.
pub open spec fn operator_count(kids: Seq<ParseTree>) -> int {
    if kids.len() == 0 {
        0
    } else {
        (kids.len() - 1) / 2
    }
}

/// Among the operators `lo..hi`, the last one of the lowest precedence: the
/// root of a left-associative tree over them.
pub open spec fn root_operator(kids: Seq<ParseTree>, lo: int, hi: int) -> int
    decreases hi - lo,
{
    if hi - lo <= 1 {
        lo
    } else {
        let before = root_operator(kids, lo, hi - 1);
        if operator_precedence(kids, hi - 1) <= operator_precedence(kids, before) {
            hi - 1
        } else {
            before
        }
    }
}

// ---------------------------------------------------------------------------
// What each rule builds
// ---------------------------------------------------------------------------

/// The statement that a node stands for; `None` for a node that is no
/// statement.
pub open spec fn stmt_spec(t: ParseTree) -> Result<Option<Ast>, ParseFault>
    decreases t, 3nat,
{
    let c = t.children;
    match t.rule {
        Rule::ImportStmt => {
            if c.len() < 1 {
                Err(shape_fault(Rule::String, "Missing module path in import statement"@))
            } else if c[0].text.len() < 2 {
                Err(shape_fault(Rule::String, "Module path without quotes"@))
            } else {
                Ok(Some(Ast::Import(strip_quotes(c[0].text))))
            }
        },
        Rule::Assignment => assignment_spec(t),
        Rule::LocalAssignment => {
            if c.len() < 2 {
                Err(shape_fault(Rule::Expression, "Missing value in local assignment"@))
            } else {
                match expr_spec(c[1]) {
                    Err(e) => Err(e),
                    Ok(value) => Ok(Some(Ast::LocalAssignment(c[0].text, Box::new(value)))),
                }
            }
        },
        Rule::FunctionCall => match call_spec(t) {
            Err(e) => Err(e),
            Ok(node) => Ok(Some(node)),
        },
        Rule::MethodCall => match method_call_spec(t) {
            Err(e) => Err(e),
            Ok(node) => Ok(Some(node)),
        },
        Rule::PrintStmt => {
            if c.len() < 1 {
                Err(shape_fault(Rule::Expression, "Missing expression in print statement"@))
            } else {
                match expr_spec(c[0]) {
                    Err(e) => Err(e),
                    Ok(value) => Ok(Some(Ast::Print(Box::new(value)))),
                }
            }
        },
        Rule::IfStmt => if_stmt_spec(t),
        Rule::WhileStmt => while_stmt_spec(t),
        Rule::ForStmt => for_stmt_spec(t),
        Rule::FunctionDef => function_def_spec(t),
        Rule::ReturnStmt => {
            if c.len() < 1 {
                Ok(Some(Ast::Return(None)))
            } else {
                match expr_spec(c[0]) {
                    Err(e) => Err(e),
                    Ok(value) => Ok(Some(Ast::Return(Some(Box::new(value))))),
                }
            }
        },
        Rule::BreakStmt => Ok(Some(Ast::Break)),
        Rule::ContinueStmt => Ok(Some(Ast::Continue)),
        Rule::TryStmt => try_stmt_spec(t),
        Rule::ThrowStmt => {
            if c.len() < 1 {
                Err(shape_fault(Rule::Expression, "Missing expression in throw statement"@))
            } else {
                match expr_spec(c[0]) {
                    Err(e) => Err(e),
                    Ok(value) => Ok(Some(Ast::Throw(Box::new(value)))),
                }
            }
        },
        Rule::Block => match stmts_spec(c, 0, c.len() as int) {
            Err(e) => Err(e),
            Ok(body) => Ok(Some(Ast::Block(body))),
        },
        Rule::Expression => match expr_spec(t) {
            Err(e) => Err(e),
            Ok(node) => Ok(Some(node)),
        },
        _ => Ok(None),
    }
}

/// An assignment: a target that is a place, and a value.
pub open spec fn assignment_spec(t: ParseTree) -> Result<Option<Ast>, ParseFault>
    decreases t, 0nat,
{
    let c = t.children;
    if c.len() < 2 {
        Err(shape_fault(Rule::Expression, "Missing value in assignment"@))
    } else {
        match term_spec(c[0]) {
            Err(e) => Err(e),
            Ok(target) => match expr_spec(c[1]) {
                Err(e) => Err(e),
                Ok(value) => if is_assignable(target) {
                    Ok(Some(Ast::Assignment(Box::new(target), Box::new(value))))
                } else {
                    Err(shape_fault(Rule::Identifier, "Invalid assignment target"@))
                },
            },
        }
    }
}

/// A conditional: a condition, the statements up to the first clause, the
/// elseif clauses, and the else clause if one follows them.
pub open spec fn if_stmt_spec(t: ParseTree) -> Result<Option<Ast>, ParseFault>
    decreases t, 0nat,
{
    let c = t.children;
    if c.len() < 1 {
        Err(shape_fault(Rule::Expression, "Missing condition in if statement"@))
    } else {
        let then_end = block_end(c, 1);
        let else_at = clauses_end(c, then_end);
        match expr_spec(c[0]) {
            Err(e) => Err(e),
            Ok(cond) => match stmts_spec(c, 1, then_end) {
                Err(e) => Err(e),
                Ok(then_body) => match clauses_spec(c, then_end, else_at) {
                    Err(e) => Err(e),
                    Ok(clauses) => if 0 <= else_at < c.len() && c[else_at].rule
                        == Rule::ElseClause {
                        match stmts_spec(
                            c[else_at].children,
                            0,
                            c[else_at].children.len() as int,
                        ) {
                            Err(e) => Err(e),
                            Ok(else_body) => Ok(
                                Some(
                                    Ast::If(
                                        Box::new(cond),
                                        then_body,
                                        clauses,
                                        Some(else_body),
                                    ),
                                ),
                            ),
                        }
                    } else {
                        Ok(Some(Ast::If(Box::new(cond), then_body, clauses, None)))
                    },
                },
            },
        }
    }
}

/// A loop: a condition and the statements after it.
pub open spec fn while_stmt_spec(t: ParseTree) -> Result<Option<Ast>, ParseFault>
    decreases t, 0nat,
{
    let c = t.children;
    if c.len() < 1 {
        Err(shape_fault(Rule::Expression, "Missing condition in while statement"@))
    } else {
        match expr_spec(c[0]) {
            Err(e) => Err(e),
            Ok(cond) => match stmts_spec(c, 1, c.len() as int) {
                Err(e) => Err(e),
                Ok(body) => Ok(Some(Ast::While(Box::new(cond), body))),
            },
        }
    }
}

/// A counting loop: a variable, two bounds, a step where the fourth child
/// is an expression, and the statements after them.
pub open spec fn for_stmt_spec(t: ParseTree) -> Result<Option<Ast>, ParseFault>
    decreases t, 0nat,
{
    let c = t.children;
    if c.len() < 3 {
        Err(shape_fault(Rule::Expression, "Missing bounds in for statement"@))
    } else {
        match expr_spec(c[1]) {
            Err(e) => Err(e),
            Ok(start) => match expr_spec(c[2]) {
                Err(e) => Err(e),
                Ok(end) => if c.len() > 3 && c[3].rule == Rule::Expression {
                    match expr_spec(c[3]) {
                        Err(e) => Err(e),
                        Ok(step) => match stmts_spec(c, 4, c.len() as int) {
                            Err(e) => Err(e),
                            Ok(body) => Ok(
                                Some(
                                    Ast::For(
                                        c[0].text,
                                        Box::new(start),
                                        Box::new(end),
                                        Some(Box::new(step)),
                                        body,
                                    ),
                                ),
                            ),
                        },
                    }
                } else {
                    match stmts_spec(c, 3, c.len() as int) {
                        Err(e) => Err(e),
                        Ok(body) => Ok(
                            Some(
                                Ast::For(
                                    c[0].text,
                                    Box::new(start),
                                    Box::new(end),
                                    None,
                                    body,
                                ),
                            ),
                        ),
                    }
                },
            },
        }
    }
}

/// A named function: its name, the identifiers after it as parameters, and
/// the statements after those as body.
pub open spec fn function_def_spec(t: ParseTree) -> Result<Option<Ast>, ParseFault>
    decreases t, 0nat,
{
    let c = t.children;
    if c.len() < 1 {
        Err(shape_fault(Rule::Identifier, "Missing name in function definition"@))
    } else {
        let body_start = names_end(c, 1);
        match stmts_spec(c, body_start, c.len() as int) {
            Err(e) => Err(e),
            Ok(body) => Ok(
                Some(Ast::FunctionDef(c[0].text, texts(c, 1, body_start), body)),
            ),
        }
    }
}

/// A try statement: the statements up to the catch clause, and the clause
/// with its variable where its first child is an identifier.
pub open spec fn try_stmt_spec(t: ParseTree) -> Result<Option<Ast>, ParseFault>
    decreases t, 0nat,
{
    let c = t.children;
    let try_end = block_end(c, 0);
    match stmts_spec(c, 0, try_end) {
        Err(e) => Err(e),
        Ok(try_body) => if 0 <= try_end < c.len() && c[try_end].rule == Rule::CatchClause {
            let k = c[try_end].children;
            if k.len() > 0 && k[0].rule == Rule::Identifier {
                match stmts_spec(k, 1, k.len() as int) {
                    Err(e) => Err(e),
                    Ok(catch_body) => Ok(
                        Some(Ast::TryCatch(try_body, Some(k[0].text), catch_body)),
                    ),
                }
            } else {
                match stmts_spec(k, 0, k.len() as int) {
                    Err(e) => Err(e),
                    Ok(catch_body) => Ok(Some(Ast::TryCatch(try_body, None, catch_body))),
                }
            }
        } else {
            Ok(Some(Ast::TryCatch(try_body, None, Seq::empty())))
        },
    }
}

/// The statements among the nodes `lo..hi`, in order; the first failure wins.
pub open spec fn stmts_spec(kids: Seq<ParseTree>, lo: int, hi: int) -> Result<Seq<Ast>, ParseFault>
    decreases kids, (if hi > lo { hi - lo } else { 0 }) as nat,
{
    if hi <= lo || !(0 <= hi - 1 < kids.len()) {
        Ok(Seq::empty())
    } else {
        match stmts_spec(kids, lo, hi - 1) {
            Err(e) => Err(e),
            Ok(before) => match stmt_spec(kids[hi - 1]) {
                Err(e) => Err(e),
                Ok(None) => Ok(before),
                Ok(Some(node)) => Ok(before.push(node)),
            },
        }
    }
}

/// The elseif clauses `lo..hi`: each a condition and a body.
pub open spec fn clauses_spec(kids: Seq<ParseTree>, lo: int, hi: int) -> Result<
    Seq<(Ast, Seq<Ast>)>,
    ParseFault,
>
    decreases kids, (if hi > lo { hi - lo } else { 0 }) as nat,
{
    if hi <= lo || !(0 <= hi - 1 < kids.len()) {
        Ok(Seq::empty())
    } else {
        match clauses_spec(kids, lo, hi - 1) {
            Err(e) => Err(e),
            Ok(before) => {
                let k = kids[hi - 1].children;
                if k.len() < 1 {
                    Err(shape_fault(Rule::Expression, "Missing condition in elseif clause"@))
                } else {
                    match expr_spec(k[0]) {
                        Err(e) => Err(e),
                        Ok(cond) => match stmts_spec(k, 1, k.len() as int) {
                            Err(e) => Err(e),
                            Ok(body) => Ok(before.push((cond, body))),
                        },
                    }
                }
            },
        }
    }
}

/// The expressions that the nodes `lo..hi` stand for; the first failure wins.
pub open spec fn exprs_spec(kids: Seq<ParseTree>, lo: int, hi: int) -> Result<Seq<Ast>, ParseFault>
    decreases kids, (if hi > lo { hi - lo } else { 0 }) as nat,
{
    if hi <= lo || !(0 <= hi - 1 < kids.len()) {
        Ok(Seq::empty())
    } else {
        match exprs_spec(kids, lo, hi - 1) {
            Err(e) => Err(e),
            Ok(before) => match expr_spec(kids[hi - 1]) {
                Err(e) => Err(e),
                Ok(node) => Ok(before.push(node)),
            },
        }
    }
}

/// The entries of a dictionary literal among the first `hi` nodes.
pub open spec fn entries_spec(kids: Seq<ParseTree>, hi: int) -> Result<
    Seq<(Seq<char>, Ast)>,
    ParseFault,
>
    decreases kids, (if hi > 0 { hi } else { 0 }) as nat,
{
    if hi <= 0 || !(hi - 1 < kids.len()) {
        Ok(Seq::empty())
    } else {
        match entries_spec(kids, hi - 1) {
            Err(e) => Err(e),
            Ok(before) => {
                let k = kids[hi - 1].children;
                if kids[hi - 1].rule != Rule::DictEntry || k.len() < 2 {
                    Ok(before)
                } else if k[0].rule == Rule::String && k[0].text.len() < 2 {
                    Err(shape_fault(Rule::String, "Dictionary key without quotes"@))
                } else {
                    match expr_spec(k[1]) {
                        Err(e) => Err(e),
                        Ok(value) => Ok(
                            before.push(
                                (
                                    if k[0].rule == Rule::String {
                                        strip_quotes(k[0].text)
                                    } else {
                                        k[0].text
                                    },
                                    value,
                                ),
                            ),
                        ),
                    }
                }
            },
        }
    }
}

/// The failure of the first of the operands `from..count` that fails, if
/// any.
pub open spec fn first_bad_operand(kids: Seq<ParseTree>, from: int, count: int) -> Option<
    ParseFault,
>
    decreases kids, (if count > from { count - from } else { 0 }) as nat,
{
    if count <= from || !(0 <= 2 * (count - 1) < kids.len()) {
        None
    } else {
        match first_bad_operand(kids, from, count - 1) {
            Some(e) => Some(e),
            None => match term_spec(kids[2 * (count - 1)]) {
                Err(e) => Some(e),
                Ok(_) => None,
            },
        }
    }
}

/// Where precedence climbing from operator `first` on stops: at the first
/// operator that binds less tightly than `min`, or behind the last one.
pub open spec fn climb_end(kids: Seq<ParseTree>, first: int, min: nat) -> int
    decreases operator_count(kids) - first,
{
    if first < 0 || first >= operator_count(kids) || operator_precedence(kids, first) < min {
        first
    } else {
        climb_end(kids, first + 1, min)
    }
}

/// The tree over the operands `lo..=hi` and the operators between them: the
/// root is the last operator of the lowest precedence, and so again on
/// either side of it.
pub open spec fn fold_spec(kids: Seq<ParseTree>, lo: int, hi: int) -> Ast
    decreases kids, (if hi > lo { hi - lo } else { 0 }) as nat,
{
    if !(0 <= lo && 2 * lo < kids.len()) {
        Ast::Nil
    } else if hi <= lo {
        match term_spec(kids[2 * lo]) {
            Ok(node) => node,
            Err(_) => Ast::Nil,
        }
    } else {
        let k = root_operator(kids, lo, hi);
        if lo <= k < hi {
            Ast::BinaryOp(
                Box::new(fold_spec(kids, lo, k)),
                kids[2 * k + 1].text,
                Box::new(fold_spec(kids, k + 1, hi)),
            )
        } else {
            Ast::Nil
        }
    }
}

/// The expression that a node stands for.
pub open spec fn expr_spec(t: ParseTree) -> Result<Ast, ParseFault>
    decreases t, 2nat,
{
    if t.rule == Rule::Expression {
        let c = t.children;
        if c.len() == 0 {
            Err(shape_fault(Rule::Term, "Empty expression"@))
        } else {
            let n = operator_count(c);
            match first_bad_operand(c, 0, n + 1) {
                Some(e) => Err(e),
                None => Ok(fold_spec(c, 0, n)),
            }
        }
    } else {
        term_spec(t)
    }
}

/// The operand that a node stands for.
pub open spec fn term_spec(t: ParseTree) -> Result<Ast, ParseFault>
    decreases t, 1nat,
{
    let c = t.children;
    match t.rule {
        Rule::Number => if is_number_text(t.text) {
            Ok(Ast::Number(t.text))
        } else {
            Err(shape_fault(Rule::Number, "Failed to parse number"@))
        },
        Rule::String => if t.text.len() < 2 {
            Err(shape_fault(Rule::String, "String literal without quotes"@))
        } else {
            Ok(Ast::String(strip_quotes(t.text)))
        },
        Rule::Boolean => Ok(Ast::Boolean(t.text == "true"@)),
        Rule::Nil => Ok(Ast::Nil),
        Rule::NotExpr => if c.len() < 1 {
            Err(shape_fault(Rule::Term, "Missing operand for not expression"@))
        } else {
            match term_spec(c[0]) {
                Err(e) => Err(e),
                Ok(operand) => Ok(Ast::Not(Box::new(operand))),
            }
        },
        Rule::Identifier => Ok(Ast::Identifier(t.text)),
        Rule::FunctionCall => call_spec(t),
        Rule::MethodCall => method_call_spec(t),
        Rule::MemberAccess => member_access_spec(t),
        Rule::Lambda => lambda_spec(t),
        Rule::Dictionary => dictionary_spec(t),
        Rule::Table => match exprs_spec(c, 0, c.len() as int) {
            Err(e) => Err(e),
            Ok(elements) => Ok(Ast::Table(elements)),
        },
        Rule::IndexAccess => if c.len() < 2 {
            Err(shape_fault(Rule::Expression, "Invalid index access"@))
        } else {
            match term_spec(c[0]) {
                Err(e) => Err(e),
                Ok(base) => match expr_spec(c[1]) {
                    Err(e) => Err(e),
                    Ok(key) => Ok(Ast::Index(Box::new(base), Box::new(key))),
                },
            }
        },
        _ => if is_operator_rule(t.rule) {
            Err(shape_fault(Rule::Term, "Unexpected operator rule"@))
        } else if c.len() < 1 {
            Err(shape_fault(Rule::Term, "Unexpected term rule"@))
        } else {
            expr_spec(c[0])
        },
    }
}

/// What a call node builds: `print` with an argument is the print statement,
/// every other call a function call.
pub open spec fn call_spec(t: ParseTree) -> Result<Ast, ParseFault>
    decreases t, 0nat,
{
    let c = t.children;
    if c.len() < 1 {
        Err(shape_fault(Rule::Identifier, "Empty function call"@))
    } else if c[0].text == "print"@ && c.len() == 4 && c[2].rule == Rule::OpConcat {
        match term_spec(c[1]) {
            Err(e) => Err(e),
            Ok(left) => match term_spec(c[3]) {
                Err(e) => Err(e),
                Ok(right) => Ok(
                    Ast::Print(
                        Box::new(Ast::BinaryOp(Box::new(left), ".."@, Box::new(right))),
                    ),
                ),
            },
        }
    } else if c[0].text == "print"@ && c.len() >= 2 {
        match expr_spec(c[1]) {
            Err(e) => Err(e),
            Ok(value) => Ok(Ast::Print(Box::new(value))),
        }
    } else {
        match exprs_spec(c, 1, c.len() as int) {
            Err(e) => Err(e),
            Ok(args) => Ok(Ast::FunctionCall(c[0].text, args)),
        }
    }
}

/// A call through a member chain: the receiver and the names of the member
/// access, and the arguments.
pub open spec fn method_call_spec(t: ParseTree) -> Result<Ast, ParseFault>
    decreases t, 0nat,
{
    let c = t.children;
    if c.len() < 1 {
        Err(shape_fault(Rule::MemberAccess, "Empty method call"@))
    } else {
        let m = c[0].children;
        if m.len() < 1 {
            Err(shape_fault(Rule::Term, "Empty member access"@))
        } else {
            match term_spec(m[0]) {
                Err(e) => Err(e),
                Ok(receiver) => match exprs_spec(c, 1, c.len() as int) {
                    Err(e) => Err(e),
                    Ok(args) => Ok(
                        Ast::MethodCall(
                            Box::new(receiver),
                            member_names(m, 1, m.len() as int),
                            args,
                        ),
                    ),
                },
            }
        }
    }
}

/// A member access: a base and the names after it.
pub open spec fn member_access_spec(t: ParseTree) -> Result<Ast, ParseFault>
    decreases t, 0nat,
{
    let c = t.children;
    if c.len() < 1 {
        Err(shape_fault(Rule::Term, "Empty member access"@))
    } else {
        match term_spec(c[0]) {
            Err(e) => Err(e),
            Ok(base) => Ok(Ast::MemberAccess(Box::new(base), member_names(c, 1, c.len() as int))),
        }
    }
}

/// A function value: the leading identifiers as parameters, the statements
/// after them as body.
pub open spec fn lambda_spec(t: ParseTree) -> Result<Ast, ParseFault>
    decreases t, 0nat,
{
    let c = t.children;
    let body_start = names_end(c, 0);
    match stmts_spec(c, body_start, c.len() as int) {
        Err(e) => Err(e),
        Ok(body) => Ok(Ast::Lambda(texts(c, 0, body_start), body)),
    }
}

/// A dictionary literal: its entries in order.
pub open spec fn dictionary_spec(t: ParseTree) -> Result<Ast, ParseFault>
    decreases t, 0nat,
{
    match entries_spec(t.children, t.children.len() as int) {
        Err(e) => Err(e),
        Ok(entries) => Ok(Ast::Dictionary(entries)),
    }
}

/// The program that the top-level trees stand for: the statements of every
/// program node among them.
pub open spec fn program_body_spec(trees: Seq<ParseTree>, hi: int) -> Result<Seq<Ast>, ParseFault>
    decreases hi,
{
    if hi <= 0 || hi > trees.len() {
        Ok(Seq::empty())
    } else {
        match program_body_spec(trees, hi - 1) {
            Err(e) => Err(e),
            Ok(before) => if trees[hi - 1].rule == Rule::Program {
                match stmts_spec(
                    trees[hi - 1].children,
                    0,
                    trees[hi - 1].children.len() as int,
                ) {
                    Err(e) => Err(e),
                    Ok(body) => Ok(before + body),
                }
            } else {
                Ok(before)
            },
        }
    }
}

/// The program that the top-level trees stand for.
pub open spec fn program_spec(trees: Seq<ParseTree>) -> Result<Ast, ParseFault> {
    match program_body_spec(trees, trees.len() as int) {
        Err(e) => Err(e),
        Ok(body) => Ok(Ast::Program(body)),
    }
}


// ---------------------------------------------------------------------------
// Lemmas
// ---------------------------------------------------------------------------

proof fn lemma_list_push(before: Vec<AstNode>, after: Vec<AstNode>, node: AstNode)
    requires
        after@ == before@.push(node),
    ensures
        ast_list_view(after) == ast_list_view(before).push(node@),
{
    assert(ast_list_view(after) =~= ast_list_view(before).push(node@));
}

proof fn lemma_entries_push(
    before: Vec<(String, AstNode)>,
    after: Vec<(String, AstNode)>,
    entry: (String, AstNode),
)
    requires
        after@ == before@.push(entry),
    ensures
        ast_entries_view(after) == ast_entries_view(before).push((entry.0@, entry.1@)),
{
    assert(ast_entries_view(after) =~= ast_entries_view(before).push((entry.0@, entry.1@)));
}

proof fn lemma_clauses_push(
    before: Vec<(AstNode, Vec<AstNode>)>,
    after: Vec<(AstNode, Vec<AstNode>)>,
    clause: (AstNode, Vec<AstNode>),
)
    requires
        after@ == before@.push(clause),
    ensures
        ast_clauses_view(after) == ast_clauses_view(before).push(
            (clause.0@, ast_list_view(clause.1)),
        ),
{
    assert(ast_clauses_view(after) =~= ast_clauses_view(before).push(
        (clause.0@, ast_list_view(clause.1)),
    ));
}

proof fn lemma_stmts_failure(kids: Seq<ParseTree>, lo: int, mid: int, hi: int)
    requires
        lo <= mid <= hi <= kids.len(),
        0 <= lo,
        stmts_spec(kids, lo, mid) is Err,
    ensures
        stmts_spec(kids, lo, hi) == stmts_spec(kids, lo, mid),
    decreases hi - mid,
{
    if mid < hi {
        lemma_stmts_failure(kids, lo, mid, hi - 1);
    }
}

proof fn lemma_clauses_failure(kids: Seq<ParseTree>, lo: int, mid: int, hi: int)
    requires
        lo <= mid <= hi <= kids.len(),
        0 <= lo,
        clauses_spec(kids, lo, mid) is Err,
    ensures
        clauses_spec(kids, lo, hi) == clauses_spec(kids, lo, mid),
    decreases hi - mid,
{
    if mid < hi {
        lemma_clauses_failure(kids, lo, mid, hi - 1);
    }
}

proof fn lemma_exprs_failure(kids: Seq<ParseTree>, lo: int, mid: int, hi: int)
    requires
        lo <= mid <= hi <= kids.len(),
        0 <= lo,
        exprs_spec(kids, lo, mid) is Err,
    ensures
        exprs_spec(kids, lo, hi) == exprs_spec(kids, lo, mid),
    decreases hi - mid,
{
    if mid < hi {
        lemma_exprs_failure(kids, lo, mid, hi - 1);
    }
}

proof fn lemma_entries_failure(kids: Seq<ParseTree>, mid: int, hi: int)
    requires
        0 <= mid <= hi <= kids.len(),
        entries_spec(kids, mid) is Err,
    ensures
        entries_spec(kids, hi) == entries_spec(kids, mid),
    decreases hi - mid,
{
    if mid < hi {
        lemma_entries_failure(kids, mid, hi - 1);
    }
}

proof fn lemma_program_failure(trees: Seq<ParseTree>, mid: int, hi: int)
    requires
        0 <= mid <= hi <= trees.len(),
        program_body_spec(trees, mid) is Err,
    ensures
        program_body_spec(trees, hi) == program_body_spec(trees, mid),
    decreases hi - mid,
{
    if mid < hi {
        lemma_program_failure(trees, mid, hi - 1);
    }
}

/// The first failure of a run of operands is that of its first part, or
/// else that of the rest.
pub proof fn lemma_operands_split(kids: Seq<ParseTree>, lo: int, mid: int, hi: int)
    requires
        0 <= lo <= mid <= hi,
        2 * (hi - 1) < kids.len(),
    ensures
        first_bad_operand(kids, lo, hi) == match first_bad_operand(kids, lo, mid) {
            Some(e) => Some(e),
            None => first_bad_operand(kids, mid, hi),
        },
    decreases hi - mid,
{
    if mid < hi {
        lemma_operands_split(kids, lo, mid, hi - 1);
    }
}

/// Climbing stops within the operators, behind operators that all bind at
/// least as tightly as asked, and at one that does not.
pub proof fn lemma_climb_end(kids: Seq<ParseTree>, first: int, min: nat)
    requires
        0 <= first <= operator_count(kids),
    ensures
        first <= climb_end(kids, first, min) <= operator_count(kids),
        forall|i: int|
            first <= i < climb_end(kids, first, min) ==> #[trigger] operator_precedence(kids, i)
                >= min,
        climb_end(kids, first, min) < operator_count(kids) ==> operator_precedence(
            kids,
            climb_end(kids, first, min),
        ) < min,
    decreases operator_count(kids) - first,
{
    if !(first >= operator_count(kids) || operator_precedence(kids, first) < min) {
        lemma_climb_end(kids, first + 1, min);
    }
}

/// Climbing goes on over operators that bind at least as tightly as asked.
pub proof fn lemma_climb_on(kids: Seq<ParseTree>, first: int, k: int, min: nat)
    requires
        0 <= first <= k <= operator_count(kids),
        forall|i: int| first <= i < k ==> #[trigger] operator_precedence(kids, i) >= min,
    ensures
        climb_end(kids, first, min) == climb_end(kids, k, min),
    decreases k - first,
{
    if first < k {
        assert(operator_precedence(kids, first) >= min);
        lemma_climb_on(kids, first + 1, k, min);
    }
}

/// The root operator of a range lies in the range.
pub proof fn lemma_root_in_range(kids: Seq<ParseTree>, lo: int, hi: int)
    requires
        lo < hi,
    ensures
        lo <= root_operator(kids, lo, hi) < hi,
    decreases hi - lo,
{
    if hi - lo > 1 {
        lemma_root_in_range(kids, lo, hi - 1);
    }
}

/// The root operator binds no tighter than any operator before it, and
/// strictly looser than every operator after it.
pub proof fn lemma_root_is_lowest(kids: Seq<ParseTree>, lo: int, hi: int)
    requires
        lo < hi,
    ensures
        forall|i: int|
            lo <= i < root_operator(kids, lo, hi) ==> #[trigger] operator_precedence(kids, i)
                >= operator_precedence(kids, root_operator(kids, lo, hi)),
        forall|i: int|
            root_operator(kids, lo, hi) < i < hi ==> #[trigger] operator_precedence(kids, i)
                > operator_precedence(kids, root_operator(kids, lo, hi)),
    decreases hi - lo,
{
    if hi - lo > 1 {
        lemma_root_in_range(kids, lo, hi - 1);
        lemma_root_is_lowest(kids, lo, hi - 1);
    }
}

/// An operator that binds no tighter than those before it and strictly
/// looser than those after it is the root of the range.
pub proof fn lemma_root_unique(kids: Seq<ParseTree>, lo: int, k: int, hi: int)
    requires
        lo <= k < hi,
        forall|i: int|
            lo <= i < k ==> #[trigger] operator_precedence(kids, i) >= operator_precedence(kids, k),
        forall|i: int|
            k < i < hi ==> #[trigger] operator_precedence(kids, i) > operator_precedence(kids, k),
    ensures
        root_operator(kids, lo, hi) == k,
    decreases hi - lo,
{
    if hi - lo > 1 {
        if k == hi - 1 {
            lemma_root_in_range(kids, lo, hi - 1);
        } else {
            lemma_root_unique(kids, lo, k, hi - 1);
        }
    }
}

proof fn lemma_digits_prefix(s: Seq<char>, i: int)
    requires
        0 <= i <= s.len(),
    ensures
        i <= digits_end(s, i) <= s.len(),
        forall|j: int| i <= j < digits_end(s, i) ==> is_digit(s[j]),
    decreases s.len() - i,
{
    if i < s.len() && is_digit(s[i]) {
        lemma_digits_prefix(s, i + 1);
    }
}

/// A numeric literal holds only a sign, digits and a point.
proof fn lemma_number_is_ascii(s: Seq<char>)
    ensures
        is_number_text(s) ==> is_ascii_chars(s),
{
    if is_number_text(s) {
        let start: int = if s.len() > 0 && s[0] == '-' {
            1
        } else {
            0
        };
        lemma_digits_prefix(s, start);
        let whole = digits_end(s, start);
        if whole < s.len() {
            lemma_digits_prefix(s, whole + 1);
        }
        assert forall|i: int| 0 <= i < s.len() implies '\0' <= #[trigger] s[i] <= '\u{7f}' by {
            if i < start {
            } else if i < whole {
                assert(is_digit(s[i]));
            } else if i == whole {
            } else {
                assert(is_digit(s[i]));
            }
        }
    }
}

// ---------------------------------------------------------------------------
// Helpers
// ---------------------------------------------------------------------------

fn shape(expected: Rule, message: &str) -> (r: ParseError)
    ensures
        r@ == shape_fault(expected, message@),
{
    ParseError::Shape { expected, message: String::from_str(message) }
}

fn unquote(text: &str) -> (r: String)
    requires
        text@.len() >= 2,
    ensures
        r@ == strip_quotes(text@),
{
    let n = text.unicode_len();
    String::from_str(text.substring_char(1, n - 1))
}

fn has_quotes(text: &str) -> (r: bool)
    ensures
        r == (text@.len() >= 2),
{
    text.unicode_len() >= 2
}

fn scan_digits(text: &str, start: usize) -> (r: usize)
    requires
        is_ascii(text),
        start <= text@.len(),
    ensures
        r == digits_end(text@, start as int),
        start <= r <= text@.len(),
{
    let n = text.unicode_len();
    let mut i: usize = start;
    while i < n
        invariant
            is_ascii(text),
            n == text@.len(),
            start <= i <= n,
            digits_end(text@, start as int) == digits_end(text@, i as int),
        decreases n - i,
    {
        let b = text.get_ascii(i);
        assert(text@[i as int] <= '\u{7f}');
        if b < 48 || b > 57 {
            return i;
        }
        i += 1;
    }
    i
}

/// Whether a text is a numeric literal.
pub fn is_number(text: &str) -> (r: bool)
    ensures
        r == is_number_text(text@),
{
    if !text.is_ascii() {
        proof {
            lemma_number_is_ascii(text@);
        }
        return false;
    }
    let n = text.unicode_len();
    let mut start: usize = 0;
    if n > 0 {
        let first = text.get_ascii(0);
        assert(text@[0] <= '\u{7f}');
        if first == 45 {
            start = 1;
        }
    }
    let whole = scan_digits(text, start);
    if whole == start {
        return false;
    }
    if whole == n {
        return true;
    }
    let point = text.get_ascii(whole);
    assert(text@[whole as int] <= '\u{7f}');
    if point != 46 {
        return false;
    }
    let fraction = scan_digits(text, whole + 1);
    fraction > whole + 1 && fraction == n
}

/// How tightly a binary operator binds: `or` loosest, then `and`, equality,
/// comparison, `..`, `+ -`, and `* / %` tightest; 0 for anything else.
pub fn get_precedence(op: &str) -> (r: u8)
    ensures
        r == precedence(op@),
        r <= 7,
{
    if same_text(op, "or") {
        1
    } else if same_text(op, "and") {
        2
    } else if same_text(op, "==") || same_text(op, "~=") {
        3
    } else if same_text(op, "<") || same_text(op, ">") || same_text(op, "<=") || same_text(op, ">=") {
        4
    } else if same_text(op, "..") {
        5
    } else if same_text(op, "+") || same_text(op, "-") {
        6
    } else if same_text(op, "*") || same_text(op, "/") || same_text(op, "%") {
        7
    } else {
        0
    }
}

fn operator_rule(rule: Rule) -> (r: bool)
    ensures
        r == is_operator_rule(rule),
{
    match rule {
        Rule::OpAdd | Rule::OpSub | Rule::OpMul | Rule::OpDiv | Rule::OpMod | Rule::OpConcat
        | Rule::OpEq | Rule::OpNe | Rule::OpLt | Rule::OpGt | Rule::OpLe | Rule::OpGe
        | Rule::OpAnd | Rule::OpOr => true,
        _ => false,
    }
}

fn marker_rule(rule: Rule) -> (r: bool)
    ensures
        r == is_marker_rule(rule),
{
    match rule {
        Rule::ElseifClause | Rule::ElseClause | Rule::CatchClause => true,
        _ => false,
    }
}

fn find_block_end(kids: &Vec<ParseNode>, start: usize) -> (r: usize)
    requires
        start <= kids.len(),
    ensures
        r == block_end(nodes_view(kids@), start as int),
        start <= r <= kids.len(),
{
    let mut i: usize = start;
    while i < kids.len() && !marker_rule(kids[i].rule)
        invariant
            start <= i <= kids.len(),
            block_end(nodes_view(kids@), start as int) == block_end(nodes_view(kids@), i as int),
        decreases kids.len() - i,
    {
        i += 1;
    }
    i
}

fn find_names_end(kids: &Vec<ParseNode>, start: usize) -> (r: usize)
    requires
        start <= kids.len(),
    ensures
        r == names_end(nodes_view(kids@), start as int),
        start <= r <= kids.len(),
{
    let mut i: usize = start;
    while i < kids.len() && kids[i].rule == Rule::Identifier
        invariant
            start <= i <= kids.len(),
            names_end(nodes_view(kids@), start as int) == names_end(nodes_view(kids@), i as int),
        decreases kids.len() - i,
    {
        i += 1;
    }
    i
}

fn find_clauses_end(kids: &Vec<ParseNode>, start: usize) -> (r: usize)
    requires
        start <= kids.len(),
    ensures
        r == clauses_end(nodes_view(kids@), start as int),
        start <= r <= kids.len(),
{
    let mut i: usize = start;
    while i < kids.len() && kids[i].rule == Rule::ElseifClause
        invariant
            start <= i <= kids.len(),
            clauses_end(nodes_view(kids@), start as int) == clauses_end(
                nodes_view(kids@),
                i as int,
            ),
        decreases kids.len() - i,
    {
        i += 1;
    }
    i
}

fn collect_texts(kids: &Vec<ParseNode>, lo: usize, hi: usize) -> (r: Vec<String>)
    requires
        lo <= hi <= kids.len(),
    ensures
        names_view(r@) == texts(nodes_view(kids@), lo as int, hi as int),
{
    let mut out: Vec<String> = Vec::new();
    let mut i: usize = lo;
    while i < hi
        invariant
            lo <= i <= hi <= kids.len(),
            out.len() == i - lo,
            forall|j: int| 0 <= j < out.len() ==> out[j]@ == kids[lo + j].text@,
        decreases hi - i,
    {
        out.push(kids[i].text.clone());
        i += 1;
    }
    assert(names_view(out@) =~= texts(nodes_view(kids@), lo as int, hi as int));
    out
}

fn collect_member_names(kids: &Vec<ParseNode>, lo: usize, hi: usize) -> (r: Vec<String>)
    requires
        lo <= hi <= kids.len(),
    ensures
        names_view(r@) == member_names(nodes_view(kids@), lo as int, hi as int),
{
    let mut out: Vec<String> = Vec::new();
    let mut i: usize = lo;
    while i < hi
        invariant
            lo <= i <= hi <= kids.len(),
            names_view(out@) == member_names(nodes_view(kids@), lo as int, i as int),
        decreases hi - i,
    {
        if kids[i].rule == Rule::Identifier {
            let ghost before = out@;
            out.push(kids[i].text.clone());
            assert(names_view(out@) =~= names_view(before).push(kids[i as int].text@));
        }
        i += 1;
    }
    out
}


// ---------------------------------------------------------------------------
// The parser
// ---------------------------------------------------------------------------

/// Builds the program from the top-level trees of a source text.
pub fn parse_to_ast(pairs: Vec<ParseNode>) -> (r: Result<AstNode, ParseError>)
    ensures
        node_result_view(r) == program_spec(nodes_view(pairs@)),
{
    let ghost trees = nodes_view(pairs@);
    let mut statements: Vec<AstNode> = Vec::new();
    let mut i: usize = 0;
    assert(ast_list_view(statements) =~= Seq::empty());
    while i < pairs.len()
        invariant
            i <= pairs.len(),
            trees == nodes_view(pairs@),
            program_body_spec(trees, i as int) == Ok::<Seq<Ast>, ParseFault>(
                ast_list_view(statements),
            ),
        decreases pairs.len() - i,
    {
        if pairs[i].rule == Rule::Program {
            proof {
                lemma_children_view(pairs[i as int]);
            }
            match parse_statements(&pairs[i].children, 0, pairs[i].children.len()) {
                Err(e) => {
                    proof {
                        lemma_program_failure(trees, i + 1, pairs.len() as int);
                    }
                    return Err(e);
                },
                Ok(mut body) => {
                    let ghost before = statements;
                    let ghost added = body;
                    statements.append(&mut body);
                    assert(ast_list_view(statements) =~= ast_list_view(before) + ast_list_view(
                        added,
                    ));
                },
            }
        }
        i += 1;
    }
    Ok(AstNode::Program(statements))
}

/// Builds the statement that a node stands for; `None` for a node that is
/// no statement.
pub fn parse_statement(pair: &ParseNode) -> (r: Result<Option<AstNode>, ParseError>)
    ensures
        stmt_result_view(r) == stmt_spec(pair@),
    decreases pair, 3nat,
{
    proof {
        lemma_children_view(*pair);
    }
    let inner = &pair.children;
    match pair.rule {
        Rule::ImportStmt => {
            if inner.len() < 1 {
                return Err(shape(Rule::String, "Missing module path in import statement"));
            }
            if !has_quotes(inner[0].text.as_str()) {
                return Err(shape(Rule::String, "Module path without quotes"));
            }
            Ok(Some(AstNode::Import(unquote(inner[0].text.as_str()))))
        },
        Rule::Assignment => parse_assignment(pair),
        Rule::LocalAssignment => {
            if inner.len() < 2 {
                return Err(shape(Rule::Expression, "Missing value in local assignment"));
            }
            match parse_expression(&inner[1]) {
                Err(e) => Err(e),
                Ok(value) => Ok(
                    Some(AstNode::LocalAssignment(inner[0].text.clone(), Box::new(value))),
                ),
            }
        },
        Rule::FunctionCall => match parse_function_call(pair) {
            Err(e) => Err(e),
            Ok(node) => Ok(Some(node)),
        },
        Rule::MethodCall => match parse_method_call(pair) {
            Err(e) => Err(e),
            Ok(node) => Ok(Some(node)),
        },
        Rule::PrintStmt => {
            if inner.len() < 1 {
                return Err(shape(Rule::Expression, "Missing expression in print statement"));
            }
            match parse_expression(&inner[0]) {
                Err(e) => Err(e),
                Ok(value) => Ok(Some(AstNode::Print(Box::new(value)))),
            }
        },
        Rule::IfStmt => parse_if_stmt(pair),
        Rule::WhileStmt => parse_while_stmt(pair),
        Rule::ForStmt => parse_for_stmt(pair),
        Rule::FunctionDef => parse_function_def(pair),
        Rule::ReturnStmt => {
            if inner.len() < 1 {
                return Ok(Some(AstNode::Return(None)));
            }
            match parse_expression(&inner[0]) {
                Err(e) => Err(e),
                Ok(value) => Ok(Some(AstNode::Return(Some(Box::new(value))))),
            }
        },
        Rule::BreakStmt => Ok(Some(AstNode::Break)),
        Rule::ContinueStmt => Ok(Some(AstNode::Continue)),
        Rule::TryStmt => parse_try_stmt(pair),
        Rule::ThrowStmt => {
            if inner.len() < 1 {
                return Err(shape(Rule::Expression, "Missing expression in throw statement"));
            }
            match parse_expression(&inner[0]) {
                Err(e) => Err(e),
                Ok(value) => Ok(Some(AstNode::Throw(Box::new(value)))),
            }
        },
        Rule::Block => match parse_statements(inner, 0, inner.len()) {
            Err(e) => Err(e),
            Ok(body) => Ok(Some(AstNode::Block(body))),
        },
        Rule::Expression => match parse_expression(pair) {
            Err(e) => Err(e),
            Ok(node) => Ok(Some(node)),
        },
        _ => Ok(None),
    }
}

fn parse_assignment(pair: &ParseNode) -> (r: Result<Option<AstNode>, ParseError>)
    ensures
        stmt_result_view(r) == assignment_spec(pair@),
    decreases pair, 0nat,
{
    proof {
        lemma_children_view(*pair);
    }
    let inner = &pair.children;
    if inner.len() < 2 {
        return Err(shape(Rule::Expression, "Missing value in assignment"));
    }
    let target = match parse_term(&inner[0]) {
        Err(e) => {
            return Err(e);
        },
        Ok(node) => node,
    };
    let value = match parse_expression(&inner[1]) {
        Err(e) => {
            return Err(e);
        },
        Ok(node) => node,
    };
    let assignable = match &target {
        AstNode::Identifier(_) => true,
        AstNode::MemberAccess(_, _) => true,
        AstNode::Index(_, _) => true,
        _ => false,
    };
    if !assignable {
        return Err(shape(Rule::Identifier, "Invalid assignment target"));
    }
    Ok(Some(AstNode::Assignment(Box::new(target), Box::new(value))))
}

fn parse_if_stmt(pair: &ParseNode) -> (r: Result<Option<AstNode>, ParseError>)
    ensures
        stmt_result_view(r) == if_stmt_spec(pair@),
    decreases pair, 0nat,
{
    proof {
        lemma_children_view(*pair);
    }
    let inner = &pair.children;
    if inner.len() < 1 {
        return Err(shape(Rule::Expression, "Missing condition in if statement"));
    }
    let then_end = find_block_end(inner, 1);
    let else_at = find_clauses_end(inner, then_end);
    let condition = match parse_expression(&inner[0]) {
        Err(e) => {
            return Err(e);
        },
        Ok(node) => node,
    };
    let then_stmts = match parse_statements(inner, 1, then_end) {
        Err(e) => {
            return Err(e);
        },
        Ok(body) => body,
    };
    let elseif_clauses = match parse_clauses(inner, then_end, else_at) {
        Err(e) => {
            return Err(e);
        },
        Ok(clauses) => clauses,
    };
    if else_at < inner.len() && inner[else_at].rule == Rule::ElseClause {
        proof {
            lemma_children_view(inner[else_at as int]);
        }
        let else_inner = &inner[else_at].children;
        match parse_statements(else_inner, 0, else_inner.len()) {
            Err(e) => Err(e),
            Ok(else_stmts) => Ok(
                Some(
                    AstNode::If(
                        Box::new(condition),
                        then_stmts,
                        elseif_clauses,
                        Some(else_stmts),
                    ),
                ),
            ),
        }
    } else {
        Ok(Some(AstNode::If(Box::new(condition), then_stmts, elseif_clauses, None)))
    }
}

fn parse_while_stmt(pair: &ParseNode) -> (r: Result<Option<AstNode>, ParseError>)
    ensures
        stmt_result_view(r) == while_stmt_spec(pair@),
    decreases pair, 0nat,
{
    proof {
        lemma_children_view(*pair);
    }
    let inner = &pair.children;
    if inner.len() < 1 {
        return Err(shape(Rule::Expression, "Missing condition in while statement"));
    }
    let condition = match parse_expression(&inner[0]) {
        Err(e) => {
            return Err(e);
        },
        Ok(node) => node,
    };
    match parse_statements(inner, 1, inner.len()) {
        Err(e) => Err(e),
        Ok(body) => Ok(Some(AstNode::While(Box::new(condition), body))),
    }
}

fn parse_for_stmt(pair: &ParseNode) -> (r: Result<Option<AstNode>, ParseError>)
    ensures
        stmt_result_view(r) == for_stmt_spec(pair@),
    decreases pair, 0nat,
{
    proof {
        lemma_children_view(*pair);
    }
    let inner = &pair.children;
    if inner.len() < 3 {
        return Err(shape(Rule::Expression, "Missing bounds in for statement"));
    }
    let start = match parse_expression(&inner[1]) {
        Err(e) => {
            return Err(e);
        },
        Ok(node) => node,
    };
    let end = match parse_expression(&inner[2]) {
        Err(e) => {
            return Err(e);
        },
        Ok(node) => node,
    };
    if inner.len() > 3 && inner[3].rule == Rule::Expression {
        let step = match parse_expression(&inner[3]) {
            Err(e) => {
                return Err(e);
            },
            Ok(node) => node,
        };
        match parse_statements(inner, 4, inner.len()) {
            Err(e) => Err(e),
            Ok(body) => Ok(
                Some(
                    AstNode::For(
                        inner[0].text.clone(),
                        Box::new(start),
                        Box::new(end),
                        Some(Box::new(step)),
                        body,
                    ),
                ),
            ),
        }
    } else {
        match parse_statements(inner, 3, inner.len()) {
            Err(e) => Err(e),
            Ok(body) => Ok(
                Some(
                    AstNode::For(
                        inner[0].text.clone(),
                        Box::new(start),
                        Box::new(end),
                        None,
                        body,
                    ),
                ),
            ),
        }
    }
}

fn parse_function_def(pair: &ParseNode) -> (r: Result<Option<AstNode>, ParseError>)
    ensures
        stmt_result_view(r) == function_def_spec(pair@),
    decreases pair, 0nat,
{
    proof {
        lemma_children_view(*pair);
    }
    let inner = &pair.children;
    if inner.len() < 1 {
        return Err(shape(Rule::Identifier, "Missing name in function definition"));
    }
    let body_start = find_names_end(inner, 1);
    match parse_statements(inner, body_start, inner.len()) {
        Err(e) => Err(e),
        Ok(body) => Ok(
            Some(
                AstNode::FunctionDef(
                    inner[0].text.clone(),
                    collect_texts(inner, 1, body_start),
                    body,
                ),
            ),
        ),
    }
}

fn parse_try_stmt(pair: &ParseNode) -> (r: Result<Option<AstNode>, ParseError>)
    ensures
        stmt_result_view(r) == try_stmt_spec(pair@),
    decreases pair, 0nat,
{
    proof {
        lemma_children_view(*pair);
    }
    let inner = &pair.children;
    let try_end = find_block_end(inner, 0);
    let try_body = match parse_statements(inner, 0, try_end) {
        Err(e) => {
            return Err(e);
        },
        Ok(body) => body,
    };
    if try_end < inner.len() && inner[try_end].rule == Rule::CatchClause {
        proof {
            lemma_children_view(inner[try_end as int]);
        }
        let catch_inner = &inner[try_end].children;
        if catch_inner.len() > 0 && catch_inner[0].rule == Rule::Identifier {
            match parse_statements(catch_inner, 1, catch_inner.len()) {
                Err(e) => Err(e),
                Ok(catch_body) => Ok(
                    Some(
                        AstNode::TryCatch(
                            try_body,
                            Some(catch_inner[0].text.clone()),
                            catch_body,
                        ),
                    ),
                ),
            }
        } else {
            match parse_statements(catch_inner, 0, catch_inner.len()) {
                Err(e) => Err(e),
                Ok(catch_body) => Ok(
                    Some(AstNode::TryCatch(try_body, None, catch_body)),
                ),
            }
        }
    } else {
        let catch_body: Vec<AstNode> = Vec::new();
        assert(ast_list_view(catch_body) =~= Seq::empty());
        Ok(Some(AstNode::TryCatch(try_body, None, catch_body)))
    }
}

/// Builds the statements among the nodes `lo..hi`.
pub fn parse_statements(kids: &Vec<ParseNode>, lo: usize, hi: usize) -> (r: Result<
    Vec<AstNode>,
    ParseError,
>)
    requires
        lo <= hi <= kids.len(),
    ensures
        list_result_view(r) == stmts_spec(nodes_view(kids@), lo as int, hi as int),
    decreases kids, hi - lo,
{
    let ghost trees = nodes_view(kids@);
    let mut out: Vec<AstNode> = Vec::new();
    let mut i: usize = lo;
    assert(ast_list_view(out) =~= Seq::empty());
    while i < hi
        invariant
            lo <= i <= hi <= kids.len(),
            trees == nodes_view(kids@),
            stmts_spec(trees, lo as int, i as int) == Ok::<Seq<Ast>, ParseFault>(
                ast_list_view(out),
            ),
        decreases hi - i,
    {
        match parse_statement(&kids[i]) {
            Err(e) => {
                proof {
                    lemma_stmts_failure(trees, lo as int, i + 1, hi as int);
                }
                return Err(e);
            },
            Ok(None) => {},
            Ok(Some(node)) => {
                let ghost before = out;
                out.push(node);
                proof {
                    lemma_list_push(before, out, node);
                }
            },
        }
        i += 1;
    }
    Ok(out)
}

fn parse_clauses(kids: &Vec<ParseNode>, lo: usize, hi: usize) -> (r: Result<
    Vec<(AstNode, Vec<AstNode>)>,
    ParseError,
>)
    requires
        lo <= hi <= kids.len(),
    ensures
        match r {
            Ok(clauses) => clauses_spec(nodes_view(kids@), lo as int, hi as int) == Ok::<
                Seq<(Ast, Seq<Ast>)>,
                ParseFault,
            >(ast_clauses_view(clauses)),
            Err(e) => clauses_spec(nodes_view(kids@), lo as int, hi as int) == Err::<
                Seq<(Ast, Seq<Ast>)>,
                ParseFault,
            >(e@),
        },
    decreases kids, hi - lo,
{
    let ghost trees = nodes_view(kids@);
    let mut out: Vec<(AstNode, Vec<AstNode>)> = Vec::new();
    let mut i: usize = lo;
    assert(ast_clauses_view(out) =~= Seq::empty());
    while i < hi
        invariant
            lo <= i <= hi <= kids.len(),
            trees == nodes_view(kids@),
            clauses_spec(trees, lo as int, i as int) == Ok::<Seq<(Ast, Seq<Ast>)>, ParseFault>(
                ast_clauses_view(out),
            ),
        decreases hi - i,
    {
        proof {
            lemma_children_view(kids[i as int]);
        }
        let inner = &kids[i].children;
        if inner.len() < 1 {
            proof {
                lemma_clauses_failure(trees, lo as int, i + 1, hi as int);
            }
            return Err(shape(Rule::Expression, "Missing condition in elseif clause"));
        }
        let condition = match parse_expression(&inner[0]) {
            Err(e) => {
                proof {
                    lemma_clauses_failure(trees, lo as int, i + 1, hi as int);
                }
                return Err(e);
            },
            Ok(node) => node,
        };
        let body = match parse_statements(inner, 1, inner.len()) {
            Err(e) => {
                proof {
                    lemma_clauses_failure(trees, lo as int, i + 1, hi as int);
                }
                return Err(e);
            },
            Ok(body) => body,
        };
        let ghost before = out;
        let ghost clause = (condition, body);
        out.push((condition, body));
        proof {
            lemma_clauses_push(before, out, clause);
        }
        i += 1;
    }
    Ok(out)
}

/// Builds the expressions that the nodes `lo..hi` stand for.
pub fn parse_expressions(kids: &Vec<ParseNode>, lo: usize, hi: usize) -> (r: Result<
    Vec<AstNode>,
    ParseError,
>)
    requires
        lo <= hi <= kids.len(),
    ensures
        list_result_view(r) == exprs_spec(nodes_view(kids@), lo as int, hi as int),
    decreases kids, hi - lo,
{
    let ghost trees = nodes_view(kids@);
    let mut out: Vec<AstNode> = Vec::new();
    let mut i: usize = lo;
    assert(ast_list_view(out) =~= Seq::empty());
    while i < hi
        invariant
            lo <= i <= hi <= kids.len(),
            trees == nodes_view(kids@),
            exprs_spec(trees, lo as int, i as int) == Ok::<Seq<Ast>, ParseFault>(
                ast_list_view(out),
            ),
        decreases hi - i,
    {
        match parse_expression(&kids[i]) {
            Err(e) => {
                proof {
                    lemma_exprs_failure(trees, lo as int, i + 1, hi as int);
                }
                return Err(e);
            },
            Ok(node) => {
                let ghost before = out;
                out.push(node);
                proof {
                    lemma_list_push(before, out, node);
                }
            },
        }
        i += 1;
    }
    Ok(out)
}

/// Builds a call: `print` with an argument is the print statement, every
/// other call a function call.
pub fn parse_function_call(pair: &ParseNode) -> (r: Result<AstNode, ParseError>)
    ensures
        node_result_view(r) == call_spec(pair@),
    decreases pair, 0nat,
{
    proof {
        lemma_children_view(*pair);
    }
    let inner = &pair.children;
    if inner.len() < 1 {
        return Err(shape(Rule::Identifier, "Empty function call"));
    }
    let is_print = same_text(inner[0].text.as_str(), "print");
    if is_print && inner.len() == 4 && inner[2].rule == Rule::OpConcat {
        let left = match parse_term(&inner[1]) {
            Err(e) => {
                return Err(e);
            },
            Ok(node) => node,
        };
        let right = match parse_term(&inner[3]) {
            Err(e) => {
                return Err(e);
            },
            Ok(node) => node,
        };
        let concat = AstNode::BinaryOp(Box::new(left), String::from_str(".."), Box::new(right));
        assert(concat@ == Ast::BinaryOp(Box::new(left@), ".."@, Box::new(right@)));
        return Ok(AstNode::Print(Box::new(concat)));
    }
    if is_print && inner.len() >= 2 {
        return match parse_expression(&inner[1]) {
            Err(e) => Err(e),
            Ok(arg) => Ok(AstNode::Print(Box::new(arg))),
        };
    }
    match parse_expressions(inner, 1, inner.len()) {
        Err(e) => Err(e),
        Ok(args) => Ok(AstNode::FunctionCall(inner[0].text.clone(), args)),
    }
}

/// Builds a call through a member chain.
pub fn parse_method_call(pair: &ParseNode) -> (r: Result<AstNode, ParseError>)
    ensures
        node_result_view(r) == method_call_spec(pair@),
    decreases pair, 0nat,
{
    proof {
        lemma_children_view(*pair);
    }
    let inner = &pair.children;
    if inner.len() < 1 {
        return Err(shape(Rule::MemberAccess, "Empty method call"));
    }
    proof {
        lemma_children_view(inner[0]);
    }
    let member_inner = &inner[0].children;
    if member_inner.len() < 1 {
        return Err(shape(Rule::Term, "Empty member access"));
    }
    let base = match parse_term(&member_inner[0]) {
        Err(e) => {
            return Err(e);
        },
        Ok(node) => node,
    };
    let members = collect_member_names(member_inner, 1, member_inner.len());
    match parse_expressions(inner, 1, inner.len()) {
        Err(e) => Err(e),
        Ok(args) => Ok(AstNode::MethodCall(Box::new(base), members, args)),
    }
}

/// Builds a member access.
pub fn parse_member_access(pair: &ParseNode) -> (r: Result<AstNode, ParseError>)
    ensures
        node_result_view(r) == member_access_spec(pair@),
    decreases pair, 0nat,
{
    proof {
        lemma_children_view(*pair);
    }
    let inner = &pair.children;
    if inner.len() < 1 {
        return Err(shape(Rule::Term, "Empty member access"));
    }
    match parse_term(&inner[0]) {
        Err(e) => Err(e),
        Ok(base) => Ok(
            AstNode::MemberAccess(Box::new(base), collect_member_names(inner, 1, inner.len())),
        ),
    }
}

/// Builds an anonymous function: its parameters are the leading
/// identifiers, its body the statements after them.
pub fn parse_lambda(pair: &ParseNode) -> (r: Result<AstNode, ParseError>)
    ensures
        node_result_view(r) == lambda_spec(pair@),
    decreases pair, 0nat,
{
    proof {
        lemma_children_view(*pair);
    }
    let inner = &pair.children;
    let body_start = find_names_end(inner, 0);
    match parse_statements(inner, body_start, inner.len()) {
        Err(e) => Err(e),
        Ok(body) => Ok(AstNode::Lambda(collect_texts(inner, 0, body_start), body)),
    }
}

/// Builds a dictionary literal from its entry nodes.
pub fn parse_dictionary(pair: &ParseNode) -> (r: Result<AstNode, ParseError>)
    ensures
        node_result_view(r) == dictionary_spec(pair@),
    decreases pair, 0nat,
{
    proof {
        lemma_children_view(*pair);
    }
    let kids = &pair.children;
    let ghost trees = nodes_view(kids@);
    let mut entries: Vec<(String, AstNode)> = Vec::new();
    let mut i: usize = 0;
    assert(ast_entries_view(entries) =~= Seq::empty());
    while i < kids.len()
        invariant
            i <= kids.len(),
            *kids == pair.children,
            trees == nodes_view(kids@),
            trees == pair@.children,
            entries_spec(trees, i as int) == Ok::<Seq<(Seq<char>, Ast)>, ParseFault>(
                ast_entries_view(entries),
            ),
        decreases kids.len() - i,
    {
        proof {
            lemma_children_view(kids[i as int]);
        }
        let entry_inner = &kids[i].children;
        if kids[i].rule == Rule::DictEntry && entry_inner.len() >= 2 {
            let quoted = entry_inner[0].rule == Rule::String;
            if quoted && !has_quotes(entry_inner[0].text.as_str()) {
                proof {
                    lemma_entries_failure(trees, i + 1, kids.len() as int);
                }
                return Err(shape(Rule::String, "Dictionary key without quotes"));
            }
            let value = match parse_expression(&entry_inner[1]) {
                Err(e) => {
                    proof {
                        lemma_entries_failure(trees, i + 1, kids.len() as int);
                    }
                    return Err(e);
                },
                Ok(node) => node,
            };
            let key = if quoted {
                unquote(entry_inner[0].text.as_str())
            } else {
                entry_inner[0].text.clone()
            };
            let ghost before = entries;
            let ghost entry = (key, value);
            entries.push((key, value));
            proof {
                lemma_entries_push(before, entries, entry);
            }
        }
        i += 1;
    }
    Ok(AstNode::Dictionary(entries))
}

/// Builds the expression that a node stands for.
pub fn parse_expression(pair: &ParseNode) -> (r: Result<AstNode, ParseError>)
    ensures
        node_result_view(r) == expr_spec(pair@),
    decreases pair, 2nat,
{
    proof {
        lemma_children_view(*pair);
    }
    if pair.rule == Rule::Expression {
        let pairs = &pair.children;
        if pairs.len() == 0 {
            return Err(shape(Rule::Term, "Empty expression"));
        }
        proof {
            let kids = nodes_view(pairs@);
            lemma_climb_on(kids, 0, operator_count(kids), 0);
        }
        match parse_expression_with_precedence(pairs, 0, 0) {
            Err(e) => Err(e),
            Ok((node, next)) => Ok(node),
        }
    } else {
        parse_term(pair)
    }
}

/// Precedence climbing over the children of an expression node, from
/// operand `first` on: takes operators while they bind at least as tightly
/// as `min_precedence`, and returns the tree built and the index of its last
/// operand, or the failure of the first operand on the way that fails. All
/// binary operators associate to the left.
pub fn parse_expression_with_precedence(
    pairs: &Vec<ParseNode>,
    first: usize,
    min_precedence: u8,
) -> (r: Result<(AstNode, usize), ParseError>)
    requires
        2 * first < pairs.len(),
    ensures
        ({
            let kids = nodes_view(pairs@);
            let end = climb_end(kids, first as int, min_precedence as nat);
            match first_bad_operand(kids, first as int, end + 1) {
                Some(e) => r matches Err(x) && x@ == e,
                None => r matches Ok((node, next)) && next == end && node@ == fold_spec(
                    kids,
                    first as int,
                    end,
                ),
            }
        }),
    decreases pairs, pairs.len() - 2 * first,
{
    let ghost kids = nodes_view(pairs@);
    let ghost end = climb_end(kids, first as int, min_precedence as nat);
    let count: usize = (pairs.len() - 1) / 2;
    proof {
        lemma_climb_end(kids, first as int, min_precedence as nat);
        lemma_operands_split(kids, first as int, first + 1, end + 1);
        assert(first_bad_operand(kids, first as int, first as int) is None);
    }
    let mut left = match parse_term(&pairs[2 * first]) {
        Err(e) => {
            return Err(e);
        },
        Ok(node) => node,
    };
    let mut k: usize = first;
    let mut open = true;
    while open && k < count
        invariant
            kids == nodes_view(pairs@),
            count == operator_count(kids),
            2 * first < pairs.len(),
            first <= k <= count,
            end == climb_end(kids, first as int, min_precedence as nat),
            end == climb_end(kids, k as int, min_precedence as nat),
            first_bad_operand(kids, first as int, k + 1) is None,
            left@ == fold_spec(kids, first as int, k as int),
            k < count ==> forall|i: int|
                first <= i < k ==> #[trigger] operator_precedence(kids, i) >= operator_precedence(
                    kids,
                    k as int,
                ),
            !open ==> k < count && operator_precedence(kids, k as int) < min_precedence,
        decreases count - k, open as int,
    {
        let level = get_precedence(pairs[2 * k + 1].text.as_str());
        if level < min_precedence {
            open = false;
        } else {
            let ghost stop = climb_end(kids, k + 1, (level + 1) as nat);
            proof {
                lemma_climb_end(kids, k + 1, (level + 1) as nat);
                lemma_climb_on(kids, k as int, stop, min_precedence as nat);
                lemma_climb_end(kids, stop, min_precedence as nat);
                lemma_operands_split(kids, first as int, k + 1, stop + 1);
                lemma_operands_split(kids, first as int, stop + 1, end + 1);
            }
            match parse_expression_with_precedence(pairs, k + 1, level + 1) {
                Err(e) => {
                    return Err(e);
                },
                Ok((right, next)) => {
                    proof {
                        lemma_root_unique(kids, first as int, k as int, next as int);
                        if next < count {
                            assert forall|i: int| first <= i < next implies #[trigger] operator_precedence(
                                kids,
                                i,
                            ) >= operator_precedence(kids, next as int) by {}
                        }
                    }
                    left = AstNode::BinaryOp(
                        Box::new(left),
                        pairs[2 * k + 1].text.clone(),
                        Box::new(right),
                    );
                    k = next;
                },
            }
        }
    }
    Ok((left, k))
}

/// Builds the operand that a node stands for.
pub fn parse_term(pair: &ParseNode) -> (r: Result<AstNode, ParseError>)
    ensures
        node_result_view(r) == term_spec(pair@),
    decreases pair, 1nat,
{
    proof {
        lemma_children_view(*pair);
    }
    let inner = &pair.children;
    match pair.rule {
        Rule::Number => {
            if is_number(pair.text.as_str()) {
                Ok(AstNode::Number(pair.text.clone()))
            } else {
                Err(shape(Rule::Number, "Failed to parse number"))
            }
        },
        Rule::String => {
            if !has_quotes(pair.text.as_str()) {
                return Err(shape(Rule::String, "String literal without quotes"));
            }
            Ok(AstNode::String(unquote(pair.text.as_str())))
        },
        Rule::Boolean => Ok(AstNode::Boolean(same_text(pair.text.as_str(), "true"))),
        Rule::Nil => Ok(AstNode::Nil),
        Rule::NotExpr => {
            if inner.len() < 1 {
                return Err(shape(Rule::Term, "Missing operand for not expression"));
            }
            match parse_term(&inner[0]) {
                Err(e) => Err(e),
                Ok(operand) => Ok(AstNode::Not(Box::new(operand))),
            }
        },
        Rule::Identifier => Ok(AstNode::Identifier(pair.text.clone())),
        Rule::FunctionCall => parse_function_call(pair),
        Rule::MethodCall => parse_method_call(pair),
        Rule::MemberAccess => parse_member_access(pair),
        Rule::Lambda => parse_lambda(pair),
        Rule::Dictionary => parse_dictionary(pair),
        Rule::Table => match parse_expressions(inner, 0, inner.len()) {
            Err(e) => Err(e),
            Ok(elements) => Ok(AstNode::Table(elements)),
        },
        Rule::IndexAccess => {
            if inner.len() < 2 {
                return Err(shape(Rule::Expression, "Invalid index access"));
            }
            let base = match parse_term(&inner[0]) {
                Err(e) => {
                    return Err(e);
                },
                Ok(node) => node,
            };
            match parse_expression(&inner[1]) {
                Err(e) => Err(e),
                Ok(index) => Ok(AstNode::Index(Box::new(base), Box::new(index))),
            }
        },
        _ => {
            if operator_rule(pair.rule) {
                Err(shape(Rule::Term, "Unexpected operator rule"))
            } else if inner.len() < 1 {
                Err(shape(Rule::Term, "Unexpected term rule"))
            } else {
                parse_expression(&inner[0])
            }
        },
    }
}

} // verus!
