//! The grammar of the language, stated over the characters of a source text.
//!
//! Each rule takes the text `s`, the position `p` at which it is tried, and
//! the depth `d` of nesting that is still allowed. A rule that matches gives
//! the node it builds and the position after it. A rule hands a smaller
//! depth to every rule it calls, so a text that nests deeper than the depth
//! allows does not match.
use vstd::prelude::*;
use crate::lexis::{
    is_keyword, is_word_start, number_end, operator_at, quote_at, skip_blank, skip_spaces,
    word_at, word_end,
};
use crate::parser::is_digit;
use crate::tree::{ParseTree, Rule};

verus! {

/// What a rule gives: nothing, or a node and the position after it.
pub type Parsed = Option<(ParseTree, int)>;

/// What a rule for a list gives: nothing, or nodes and the position after them.
pub type ParsedList = Option<(Seq<ParseTree>, int)>;

/// The depth of nesting that a text may have.
pub const DEPTH_LIMIT: usize = 600;

/// The depth of nesting that a text may have.
pub open spec fn depth_limit() -> nat {
    DEPTH_LIMIT as nat
}

/// A node without children over the text from `from` up to `to`.
pub open spec fn leaf(rule: Rule, s: Seq<char>, from: int, to: int) -> ParseTree {
    ParseTree { rule, text: s.subrange(from, to), children: Seq::empty() }
}

/// A node with children over the text from `from` up to `to`.
pub open spec fn branch(rule: Rule, s: Seq<char>, from: int, to: int, children: Seq<ParseTree>) -> ParseTree {
    ParseTree { rule, text: s.subrange(from, to), children }
}

/// Whether the character `c` stands at `p`.
pub open spec fn char_at(s: Seq<char>, p: int, c: char) -> bool {
    0 <= p < s.len() && s[p] == c
}

/// Whether an identifier starts at `p`: a word that is no keyword.
pub open spec fn name_at(s: Seq<char>, p: int) -> bool {
    0 <= p < s.len() && is_word_start(s[p]) && !is_keyword(s.subrange(p, word_end(s, p)))
}

// ---------------------------------------------------------------------------
// Expressions
// ---------------------------------------------------------------------------

/// An expression: a term, then operators and terms in turn.
pub open spec fn expression_g(s: Seq<char>, p: int, d: nat) -> Parsed
    decreases d, 0nat,
{
    if d == 0 {
        None
    } else {
        match term_g(s, p, (d - 1) as nat) {
            Some((first, e)) => {
                let (rest, end) = operations_g(s, e, (d - 1) as nat);
                Some((branch(Rule::Expression, s, p, end, seq![first] + rest), end))
            },
            None => None,
        }
    }
}

/// The operators and terms that follow a term, from `p` on.
pub open spec fn operations_g(s: Seq<char>, p: int, d: nat) -> (Seq<ParseTree>, int)
    decreases d, (if p < s.len() { s.len() - p } else { 0 }) as nat,
{
    let q = skip_blank(s, p);
    match operator_at(s, q) {
        Some((rule, n)) => if d == 0 {
            (Seq::empty(), p)
        } else {
            match term_g(s, skip_blank(s, q + n), (d - 1) as nat) {
                Some((term, e)) => if p < e <= s.len() {
                    let (rest, end) = operations_g(s, e, d);
                    (seq![leaf(rule, s, q, q + n), term] + rest, end)
                } else {
                    (Seq::empty(), p)
                },
                None => (Seq::empty(), p),
            }
        },
        None => (Seq::empty(), p),
    }
}

/// A term: a primary, then calls, member accesses and index accesses on it.
pub open spec fn term_g(s: Seq<char>, p: int, d: nat) -> Parsed
    decreases d, 0nat,
{
    if d == 0 {
        None
    } else {
        match primary_g(s, p, (d - 1) as nat) {
            Some((node, e)) => Some(postfix_g(s, node, p, e, (d - 1) as nat)),
            None => None,
        }
    }
}

/// What follows a term on its line: arguments make a call of an identifier
/// or of a member access, a point and a name extend a member access, an
/// expression in square brackets indexes.
pub open spec fn postfix_g(s: Seq<char>, node: ParseTree, start: int, p: int, d: nat) -> (
    ParseTree,
    int,
)
    decreases d, (if p < s.len() { s.len() - p } else { 0 }) as nat,
{
    let q = skip_spaces(s, p);
    if d == 0 {
        (node, p)
    } else if char_at(s, q, '(') && (node.rule == Rule::Identifier || node.rule
        == Rule::MemberAccess) {
        match items_g(s, q + 1, (d - 1) as nat, ')') {
            Some((args, e)) => if p < e <= s.len() {
                postfix_g(
                    s,
                    branch(
                        if node.rule == Rule::Identifier {
                            Rule::FunctionCall
                        } else {
                            Rule::MethodCall
                        },
                        s,
                        start,
                        e,
                        seq![node] + args,
                    ),
                    start,
                    e,
                    d,
                )
            } else {
                (node, p)
            },
            None => (node, p),
        }
    } else if char_at(s, q, '.') && 0 <= q + 1 < s.len() && is_word_start(s[q + 1]) {
        let e = word_end(s, q + 1);
        if p < e <= s.len() {
            let name = leaf(Rule::Identifier, s, q + 1, e);
            postfix_g(
                s,
                if node.rule == Rule::MemberAccess {
                    branch(Rule::MemberAccess, s, start, e, node.children.push(name))
                } else {
                    branch(Rule::MemberAccess, s, start, e, seq![node, name])
                },
                start,
                e,
                d,
            )
        } else {
            (node, p)
        }
    } else if char_at(s, q, '[') {
        match expression_g(s, skip_blank(s, q + 1), (d - 1) as nat) {
            Some((key, e)) => {
                let close = skip_blank(s, e);
                if char_at(s, close, ']') && p < close + 1 {
                    postfix_g(
                        s,
                        branch(Rule::IndexAccess, s, start, close + 1, seq![node, key]),
                        start,
                        close + 1,
                        d,
                    )
                } else {
                    (node, p)
                }
            },
            None => (node, p),
        }
    } else {
        (node, p)
    }
}

/// Expressions separated by commas, from `p` up to the closing character;
/// none where the closing character comes first.
pub open spec fn items_g(s: Seq<char>, p: int, d: nat, close: char) -> ParsedList
    decreases d, 1nat,
{
    let q = skip_blank(s, p);
    if char_at(s, q, close) {
        Some((Seq::empty(), q + 1))
    } else if d == 0 {
        None
    } else {
        more_items_g(s, q, (d - 1) as nat, close)
    }
}

/// An expression, then the closing character, or a comma and more.
pub open spec fn more_items_g(s: Seq<char>, p: int, d: nat, close: char) -> ParsedList
    decreases d, (if p < s.len() { s.len() - p } else { 0 }) as nat,
{
    if d == 0 {
        None
    } else {
        match expression_g(s, p, (d - 1) as nat) {
            Some((item, e)) => {
                let c = skip_blank(s, e);
                if char_at(s, c, close) {
                    Some((seq![item], c + 1))
                } else if char_at(s, c, ',') && p < skip_blank(s, c + 1) <= s.len() {
                    match more_items_g(s, skip_blank(s, c + 1), d, close) {
                        Some((rest, end)) => Some((seq![item] + rest, end)),
                        None => None,
                    }
                } else {
                    None
                }
            },
            None => None,
        }
    }
}

/// The entries of a dictionary literal, from `p` up to the closing brace.
pub open spec fn entries_g(s: Seq<char>, p: int, d: nat) -> ParsedList
    decreases d, (if p < s.len() { s.len() - p } else { 0 }) as nat,
{
    let q = skip_blank(s, p);
    if char_at(s, q, '}') {
        Some((Seq::empty(), q + 1))
    } else if d == 0 {
        None
    } else {
        match key_g(s, q) {
            Some((key, k)) => {
                let eq = skip_blank(s, k);
                if char_at(s, eq, '=') {
                    match expression_g(s, skip_blank(s, eq + 1), (d - 1) as nat) {
                        Some((value, e)) => {
                            let entry = branch(Rule::DictEntry, s, q, e, seq![key, value]);
                            let c = skip_blank(s, e);
                            if char_at(s, c, '}') {
                                Some((seq![entry], c + 1))
                            } else if char_at(s, c, ',') && p < c + 1 {
                                match entries_g(s, c + 1, d) {
                                    Some((rest, end)) => Some((seq![entry] + rest, end)),
                                    None => None,
                                }
                            } else {
                                None
                            }
                        },
                        None => None,
                    }
                } else {
                    None
                }
            },
            None => None,
        }
    }
}

/// The key of a dictionary entry: a word or a string.
pub open spec fn key_g(s: Seq<char>, p: int) -> Parsed {
    if 0 <= p < s.len() && is_word_start(s[p]) {
        Some((leaf(Rule::Identifier, s, p, word_end(s, p)), word_end(s, p)))
    } else {
        string_g(s, p)
    }
}

/// A string literal: from a double quote to the next one.
pub open spec fn string_g(s: Seq<char>, p: int) -> Parsed {
    if char_at(s, p, '"') && quote_at(s, p + 1) < s.len() {
        Some((leaf(Rule::String, s, p, quote_at(s, p + 1) + 1), quote_at(s, p + 1) + 1))
    } else {
        None
    }
}

/// Parameter names separated by commas, from `p` up to the closing
/// parenthesis.
pub open spec fn params_g(s: Seq<char>, p: int) -> ParsedList
    decreases (if p < s.len() { s.len() - p } else { 0 }) as nat,
{
    let q = skip_blank(s, p);
    if char_at(s, q, ')') {
        Some((Seq::empty(), q + 1))
    } else if name_at(s, q) {
        let e = word_end(s, q);
        let name = leaf(Rule::Identifier, s, q, e);
        let c = skip_blank(s, e);
        if char_at(s, c, ')') {
            Some((seq![name], c + 1))
        } else if char_at(s, c, ',') && p < c + 1 {
            match params_g(s, c + 1) {
                Some((rest, end)) => if rest.len() > 0 {
                    Some((seq![name] + rest, end))
                } else {
                    None
                },
                None => None,
            }
        } else {
            None
        }
    } else {
        None
    }
}

/// After the word `function`: parameters in parentheses, a body, and `end`.
/// The children are the parameters and the statements of the body.
pub open spec fn function_g(s: Seq<char>, p: int, d: nat) -> ParsedList
    decreases d, 0nat,
{
    let open = skip_blank(s, p);
    if d == 0 || !char_at(s, open, '(') {
        None
    } else {
        match params_g(s, open + 1) {
            Some((params, e)) => {
                let (body, q) = block_g(s, e, (d - 1) as nat);
                if word_at(s, q, "end"@) {
                    Some((params + body, q + 3))
                } else {
                    None
                }
            },
            None => None,
        }
    }
}

/// A primary: a number, a string, an expression in parentheses, a table, a
/// dictionary, `true`, `false`, `nil`, `not` and a term, a function, or an
/// identifier.
pub open spec fn primary_g(s: Seq<char>, p: int, d: nat) -> Parsed
    decreases d, 0nat,
{
    if !(0 <= p < s.len()) {
        None
    } else if is_digit(s[p]) || (s[p] == '-' && p + 1 < s.len() && is_digit(s[p + 1])) {
        Some((leaf(Rule::Number, s, p, number_end(s, p)), number_end(s, p)))
    } else if s[p] == '"' {
        string_g(s, p)
    } else if d == 0 {
        None
    } else if s[p] == '(' {
        match expression_g(s, skip_blank(s, p + 1), (d - 1) as nat) {
            Some((inner, e)) => {
                let close = skip_blank(s, e);
                if char_at(s, close, ')') {
                    Some((branch(Rule::Term, s, p, close + 1, seq![inner]), close + 1))
                } else {
                    None
                }
            },
            None => None,
        }
    } else if s[p] == '[' {
        match items_g(s, p + 1, (d - 1) as nat, ']') {
            Some((items, e)) => Some((branch(Rule::Table, s, p, e, items), e)),
            None => None,
        }
    } else if s[p] == '{' {
        match entries_g(s, p + 1, (d - 1) as nat) {
            Some((entries, e)) => Some((branch(Rule::Dictionary, s, p, e, entries), e)),
            None => None,
        }
    } else if is_word_start(s[p]) {
        let e = word_end(s, p);
        let w = s.subrange(p, e);
        if w == "true"@ || w == "false"@ {
            Some((leaf(Rule::Boolean, s, p, e), e))
        } else if w == "nil"@ {
            Some((leaf(Rule::Nil, s, p, e), e))
        } else if w == "not"@ {
            match term_g(s, skip_blank(s, e), (d - 1) as nat) {
                Some((operand, end)) => Some(
                    (branch(Rule::NotExpr, s, p, end, seq![operand]), end),
                ),
                None => None,
            }
        } else if w == "function"@ {
            match function_g(s, e, (d - 1) as nat) {
                Some((parts, end)) => Some((branch(Rule::Lambda, s, p, end, parts), end)),
                None => None,
            }
        } else if is_keyword(w) {
            None
        } else {
            Some((leaf(Rule::Identifier, s, p, e), e))
        }
    } else {
        None
    }
}

// ---------------------------------------------------------------------------
// Statements
// ---------------------------------------------------------------------------

/// Statements one after the other, from `p` on, as many as match; the
/// position given is that of what follows them, blanks skipped.
pub open spec fn block_g(s: Seq<char>, p: int, d: nat) -> (Seq<ParseTree>, int)
    decreases d, (if p < s.len() { s.len() - p } else { 0 }) as nat,
{
    let q = skip_blank(s, p);
    if d == 0 {
        (Seq::empty(), q)
    } else {
        match statement_g(s, q, (d - 1) as nat) {
            Some((node, e)) => if p < e <= s.len() {
                let (rest, end) = block_g(s, e, d);
                (seq![node] + rest, end)
            } else {
                (Seq::empty(), q)
            },
            None => (Seq::empty(), q),
        }
    }
}

/// A statement.
pub open spec fn statement_g(s: Seq<char>, p: int, d: nat) -> Parsed
    decreases d, 0nat,
{
    if d == 0 || !(0 <= p < s.len()) {
        None
    } else if is_word_start(s[p]) {
        let e = word_end(s, p);
        let w = s.subrange(p, e);
        if w == "import"@ {
            match string_g(s, skip_blank(s, e)) {
                Some((path, end)) => Some((branch(Rule::ImportStmt, s, p, end, seq![path]), end)),
                None => None,
            }
        } else if w == "local"@ {
            local_g(s, p, e, (d - 1) as nat)
        } else if w == "if"@ {
            if_g(s, p, e, (d - 1) as nat)
        } else if w == "while"@ {
            while_g(s, p, e, (d - 1) as nat)
        } else if w == "for"@ {
            for_g(s, p, e, (d - 1) as nat)
        } else if w == "function"@ && name_at(s, skip_blank(s, e)) {
            let name_end = word_end(s, skip_blank(s, e));
            match function_g(s, name_end, (d - 1) as nat) {
                Some((parts, end)) => Some(
                    (
                        branch(
                            Rule::FunctionDef,
                            s,
                            p,
                            end,
                            seq![leaf(Rule::Identifier, s, skip_blank(s, e), name_end)] + parts,
                        ),
                        end,
                    ),
                ),
                None => None,
            }
        } else if w == "return"@ {
            match expression_g(s, skip_spaces(s, e), (d - 1) as nat) {
                Some((value, end)) => Some(
                    (branch(Rule::ReturnStmt, s, p, end, seq![value]), end),
                ),
                None => Some((leaf(Rule::ReturnStmt, s, p, e), e)),
            }
        } else if w == "break"@ {
            Some((leaf(Rule::BreakStmt, s, p, e), e))
        } else if w == "continue"@ {
            Some((leaf(Rule::ContinueStmt, s, p, e), e))
        } else if w == "try"@ {
            try_g(s, p, e, (d - 1) as nat)
        } else if w == "throw"@ {
            match expression_g(s, skip_blank(s, e), (d - 1) as nat) {
                Some((value, end)) => Some((branch(Rule::ThrowStmt, s, p, end, seq![value]), end)),
                None => None,
            }
        } else if w == "do"@ {
            let (body, q) = block_g(s, e, (d - 1) as nat);
            if word_at(s, q, "end"@) {
                Some((branch(Rule::Block, s, p, q + 3, body), q + 3))
            } else {
                None
            }
        } else if w == "print"@ && starts_print_operand(s, skip_spaces(s, e)) {
            match expression_g(s, skip_spaces(s, e), (d - 1) as nat) {
                Some((value, end)) => Some((branch(Rule::PrintStmt, s, p, end, seq![value]), end)),
                None => simple_g(s, p, (d - 1) as nat),
            }
        } else {
            simple_g(s, p, (d - 1) as nat)
        }
    } else {
        simple_g(s, p, (d - 1) as nat)
    }
}

/// After the word `print`: whether an operand follows without parentheses.
pub open spec fn starts_print_operand(s: Seq<char>, q: int) -> bool {
    0 <= q < s.len() && s[q] != '(' && s[q] != '=' && s[q] != '.' && s[q] != '['
}

/// An assignment, a call, or an expression on its own.
pub open spec fn simple_g(s: Seq<char>, p: int, d: nat) -> Parsed
    decreases d, 0nat,
{
    if d == 0 {
        None
    } else {
        match term_g(s, p, (d - 1) as nat) {
            Some((target, e)) => {
                let eq = skip_spaces(s, e);
                if char_at(s, eq, '=') && !char_at(s, eq + 1, '=') {
                    if target.rule == Rule::Identifier || target.rule == Rule::MemberAccess
                        || target.rule == Rule::IndexAccess {
                        match expression_g(s, skip_blank(s, eq + 1), (d - 1) as nat) {
                            Some((value, end)) => Some(
                                (
                                    branch(Rule::Assignment, s, p, end, seq![target, value]),
                                    end,
                                ),
                            ),
                            None => None,
                        }
                    } else {
                        None
                    }
                } else {
                    let (rest, end) = operations_g(s, e, (d - 1) as nat);
                    if rest.len() == 0 && (target.rule == Rule::FunctionCall || target.rule
                        == Rule::MethodCall) {
                        Some((target, e))
                    } else {
                        Some((branch(Rule::Expression, s, p, end, seq![target] + rest), end))
                    }
                }
            },
            None => None,
        }
    }
}

/// `local name = expression`, after the word `local` that ends at `e`.
pub open spec fn local_g(s: Seq<char>, p: int, e: int, d: nat) -> Parsed
    decreases d, 0nat,
{
    let n = skip_blank(s, e);
    let eq = skip_blank(s, word_end(s, n));
    if d == 0 || !name_at(s, n) || !char_at(s, eq, '=') {
        None
    } else {
        match expression_g(s, skip_blank(s, eq + 1), (d - 1) as nat) {
            Some((value, end)) => Some(
                (
                    branch(
                        Rule::LocalAssignment,
                        s,
                        p,
                        end,
                        seq![leaf(Rule::Identifier, s, n, word_end(s, n)), value],
                    ),
                    end,
                ),
            ),
            None => None,
        }
    }
}

/// A condition and the body it guards: an expression, the word `opener`,
/// and statements. The children are the expression and the statements.
pub open spec fn guarded_g(s: Seq<char>, p: int, d: nat, opener: Seq<char>) -> ParsedList
    decreases d, 0nat,
{
    if d == 0 {
        None
    } else {
        match expression_g(s, skip_blank(s, p), (d - 1) as nat) {
            Some((cond, e)) => {
                let t = skip_blank(s, e);
                if word_at(s, t, opener) {
                    let (body, q) = block_g(s, t + opener.len(), (d - 1) as nat);
                    Some((seq![cond] + body, q))
                } else {
                    None
                }
            },
            None => None,
        }
    }
}

/// The elseif clauses from `p` on.
pub open spec fn elseifs_g(s: Seq<char>, p: int, d: nat) -> ParsedList
    decreases d, (if p < s.len() { s.len() - p } else { 0 }) as nat,
{
    if !word_at(s, p, "elseif"@) {
        Some((Seq::empty(), p))
    } else if d == 0 {
        None
    } else {
        match guarded_g(s, p + 6, (d - 1) as nat, "then"@) {
            Some((parts, q)) => if p < q <= s.len() {
                match elseifs_g(s, q, d) {
                    Some((rest, end)) => Some(
                        (seq![branch(Rule::ElseifClause, s, p, q, parts)] + rest, end),
                    ),
                    None => None,
                }
            } else {
                None
            },
            None => None,
        }
    }
}

/// `if` with its clauses, after the word `if` that ends at `e`.
pub open spec fn if_g(s: Seq<char>, p: int, e: int, d: nat) -> Parsed
    decreases d, 0nat,
{
    if d == 0 {
        None
    } else {
        match guarded_g(s, e, (d - 1) as nat, "then"@) {
            Some((parts, q)) => match elseifs_g(s, q, (d - 1) as nat) {
                Some((clauses, q2)) => if word_at(s, q2, "else"@) {
                    let (body, q3) = block_g(s, q2 + 4, (d - 1) as nat);
                    if word_at(s, q3, "end"@) {
                        Some(
                            (
                                branch(
                                    Rule::IfStmt,
                                    s,
                                    p,
                                    q3 + 3,
                                    parts + clauses + seq![
                                        branch(Rule::ElseClause, s, q2, q3, body),
                                    ],
                                ),
                                q3 + 3,
                            ),
                        )
                    } else {
                        None
                    }
                } else if word_at(s, q2, "end"@) {
                    Some((branch(Rule::IfStmt, s, p, q2 + 3, parts + clauses), q2 + 3))
                } else {
                    None
                },
                None => None,
            },
            None => None,
        }
    }
}

/// `while`, after the word `while` that ends at `e`.
pub open spec fn while_g(s: Seq<char>, p: int, e: int, d: nat) -> Parsed
    decreases d, 0nat,
{
    if d == 0 {
        None
    } else {
        match guarded_g(s, e, (d - 1) as nat, "do"@) {
            Some((parts, q)) => if word_at(s, q, "end"@) {
                Some((branch(Rule::WhileStmt, s, p, q + 3, parts), q + 3))
            } else {
                None
            },
            None => None,
        }
    }
}

/// `for name = start, end [, step] do ... end`, after the word `for` that
/// ends at `e`.
pub open spec fn for_g(s: Seq<char>, p: int, e: int, d: nat) -> Parsed
    decreases d, 0nat,
{
    let n = skip_blank(s, e);
    let eq = skip_blank(s, word_end(s, n));
    if d == 0 || !name_at(s, n) || !char_at(s, eq, '=') {
        None
    } else {
        let var = leaf(Rule::Identifier, s, n, word_end(s, n));
        match expression_g(s, skip_blank(s, eq + 1), (d - 1) as nat) {
            Some((start, e1)) => {
                let comma = skip_blank(s, e1);
                if !char_at(s, comma, ',') {
                    None
                } else {
                    match guarded_g(s, comma + 1, (d - 1) as nat, "do"@) {
                        Some((parts, q)) => if word_at(s, q, "end"@) {
                            Some(
                                (
                                    branch(Rule::ForStmt, s, p, q + 3, seq![var, start] + parts),
                                    q + 3,
                                ),
                            )
                        } else {
                            None
                        },
                        None => match expression_g(s, skip_blank(s, comma + 1), (d - 1) as nat) {
                            Some((end, e2)) => {
                                let comma2 = skip_blank(s, e2);
                                if !char_at(s, comma2, ',') {
                                    None
                                } else {
                                    match guarded_g(s, comma2 + 1, (d - 1) as nat, "do"@) {
                                        Some((parts, q)) => if word_at(s, q, "end"@) {
                                            Some(
                                                (
                                                    branch(
                                                        Rule::ForStmt,
                                                        s,
                                                        p,
                                                        q + 3,
                                                        seq![var, start, end] + parts,
                                                    ),
                                                    q + 3,
                                                ),
                                            )
                                        } else {
                                            None
                                        },
                                        None => None,
                                    }
                                }
                            },
                            None => None,
                        },
                    }
                }
            },
            None => None,
        }
    }
}

/// After the word `catch`: whether a catch variable stands at `v`, a name
/// that no call, member, index or assignment follows.
pub open spec fn catch_var_at(s: Seq<char>, v: int) -> bool {
    let after = skip_spaces(s, word_end(s, v));
    name_at(s, v) && !(0 <= after < s.len() && (s[after] == '(' || s[after] == '.' || s[after]
        == '[' || s[after] == '='))
}

/// `try ... [catch [name] ...] end`, after the word `try` that ends at `e`.
pub open spec fn try_g(s: Seq<char>, p: int, e: int, d: nat) -> Parsed
    decreases d, 0nat,
{
    if d == 0 {
        None
    } else {
        let (body, q) = block_g(s, e, (d - 1) as nat);
        if word_at(s, q, "catch"@) {
            let v = skip_spaces(s, q + 5);
            let named = catch_var_at(s, v);
            let from = if named {
                word_end(s, v)
            } else {
                q + 5
            };
            let (handler, q2) = block_g(s, from, (d - 1) as nat);
            if word_at(s, q2, "end"@) {
                Some(
                    (
                        branch(
                            Rule::TryStmt,
                            s,
                            p,
                            q2 + 3,
                            body.push(
                                branch(
                                    Rule::CatchClause,
                                    s,
                                    q,
                                    q2,
                                    if named {
                                        seq![leaf(Rule::Identifier, s, v, word_end(s, v))]
                                            + handler
                                    } else {
                                        handler
                                    },
                                ),
                            ),
                        ),
                        q2 + 3,
                    ),
                )
            } else {
                None
            }
        } else if word_at(s, q, "end"@) {
            Some((branch(Rule::TryStmt, s, p, q + 3, body), q + 3))
        } else {
            None
        }
    }
}

/// The tree of a whole text: its statements under a program node, where
/// they reach to the end of the text.
pub open spec fn program_g(s: Seq<char>) -> Result<ParseTree, int> {
    let (body, end) = block_g(s, 0, depth_limit());
    if end == s.len() {
        Ok(branch(Rule::Program, s, 0, s.len() as int, body))
    } else {
        Err(end)
    }
}

} // verus!
