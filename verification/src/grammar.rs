//! The grammar at work: from a source text to its parse tree.
use vstd::prelude::*;
use vstd::string::*;
use crate::lexis::{Source, keyword, skip_blank, skip_spaces, word_end, word_start, digit};
use crate::parser::{ParseError, ParseFault};
use crate::syntax::{
    DEPTH_LIMIT,
    Parsed, ParsedList, block_g, branch, catch_var_at, char_at, elseifs_g, entries_g,
    expression_g, for_g, function_g, guarded_g, if_g, items_g, key_g, leaf, local_g,
    more_items_g, name_at, operations_g, params_g, postfix_g, primary_g, program_g, simple_g,
    starts_print_operand, statement_g, string_g, term_g, try_g, while_g,
};
use crate::text::same_text;
use crate::tree::{ParseNode, ParseTree, Rule, join, nodes_view, one};

verus! {

/// What a rule gave, as a mathematical value.
pub open spec fn parsed_view(r: Option<(ParseNode, usize)>) -> Parsed {
    match r {
        Some((node, end)) => Some((node@, end as int)),
        None => None,
    }
}

/// What a rule for a list gave, as a mathematical value.
pub open spec fn parsed_list_view(r: Option<(Vec<ParseNode>, usize)>) -> ParsedList {
    match r {
        Some((nodes, end)) => Some((nodes_view(nodes@), end as int)),
        None => None,
    }
}

/// Whether the position that a rule gave lies in the text.
pub open spec fn ends_within(r: Option<(ParseNode, usize)>, len: nat) -> bool {
    match r {
        Some((_, end)) => end <= len,
        None => true,
    }
}

/// Whether the position that a rule for a list gave lies in the text.
pub open spec fn list_ends_within(r: Option<(Vec<ParseNode>, usize)>, len: nat) -> bool {
    match r {
        Some((_, end)) => end <= len,
        None => true,
    }
}

fn mk_leaf(src: &Source, rule: Rule, from: usize, to: usize) -> (r: ParseNode)
    requires
        src.wf(),
        from <= to <= src.view().len(),
    ensures
        r@ == leaf(rule, src.view(), from as int, to as int),
{
    let text = src.slice(from, to);
    ParseNode::leaf(rule, text.as_str())
}

fn mk_branch(src: &Source, rule: Rule, from: usize, to: usize, children: Vec<ParseNode>) -> (r:
    ParseNode)
    requires
        src.wf(),
        from <= to <= src.view().len(),
    ensures
        r@ == branch(rule, src.view(), from as int, to as int, nodes_view(children@)),
{
    let text = src.slice(from, to);
    ParseNode::branch(rule, text.as_str(), children)
}

fn is_char(src: &Source, p: usize, c: char) -> (r: bool)
    ensures
        r == char_at(src.view(), p as int, c),
{
    p < src.len() && src.at(p) == c
}

fn is_name(src: &Source, p: usize) -> (r: bool)
    requires
        src.wf(),
    ensures
        r == name_at(src.view(), p as int),
{
    if p < src.len() && word_start(src.at(p)) {
        let e = src.word_end(p);
        let w = src.slice(p, e);
        !keyword(w.as_str())
    } else {
        false
    }
}

// ---------------------------------------------------------------------------
// Expressions
// ---------------------------------------------------------------------------

fn expression(src: &Source, p: usize, d: usize) -> (r: Option<(ParseNode, usize)>)
    requires
        src.wf(),
        p <= src.view().len(),
    ensures
        parsed_view(r) == expression_g(src.view(), p as int, d as nat),
        ends_within(r, src.view().len()),
        r matches Some((_, end)) ==> end >= p,
    decreases d, 0nat,
{
    proof {
        src.lemma_fits();
    }
    if d == 0 {
        return None;
    }
    match term(src, p, d - 1) {
        Some((first, e)) => {
            let (rest, end) = operations(src, e, d - 1);
            let kids = join(one(first), rest);
            Some((mk_branch(src, Rule::Expression, p, end, kids), end))
        },
        None => None,
    }
}

fn operations(src: &Source, p: usize, d: usize) -> (r: (Vec<ParseNode>, usize))
    requires
        src.wf(),
        p <= src.view().len(),
    ensures
        (nodes_view(r.0@), r.1 as int) == operations_g(src.view(), p as int, d as nat),
        p <= r.1 <= src.view().len(),
    decreases d, src.view().len() - p,
{
    proof {
        src.lemma_fits();
    }
    let q = src.skip_blank(p);
    match src.operator_at(q) {
        Some((rule, n)) => {
            if d == 0 {
                return (Vec::new(), p);
            }
            let t = src.skip_blank(q + n);
            match term(src, t, d - 1) {
                Some((operand, e)) => {
                    if p < e {
                        let (rest, end) = operations(src, e, d);
                        let op = mk_leaf(src, rule, q, q + n);
                        let kids = join(join(one(op), one(operand)), rest);
                        assert(nodes_view(kids@) =~= seq![op@, operand@] + nodes_view(rest@));
                        (kids, end)
                    } else {
                        (Vec::new(), p)
                    }
                },
                None => (Vec::new(), p),
            }
        },
        None => (Vec::new(), p),
    }
}

fn term(src: &Source, p: usize, d: usize) -> (r: Option<(ParseNode, usize)>)
    requires
        src.wf(),
        p <= src.view().len(),
    ensures
        parsed_view(r) == term_g(src.view(), p as int, d as nat),
        ends_within(r, src.view().len()),
        r matches Some((_, end)) ==> end >= p,
    decreases d, 0nat,
{
    proof {
        src.lemma_fits();
    }
    if d == 0 {
        return None;
    }
    match primary(src, p, d - 1) {
        Some((node, e)) => {
            let (out, end) = postfix(src, node, p, e, d - 1);
            Some((out, end))
        },
        None => None,
    }
}

fn postfix(src: &Source, node: ParseNode, start: usize, p: usize, d: usize) -> (r: (
    ParseNode,
    usize,
))
    requires
        src.wf(),
        start <= p <= src.view().len(),
    ensures
        (r.0@, r.1 as int) == postfix_g(src.view(), node@, start as int, p as int, d as nat),
        p <= r.1 <= src.view().len(),
    decreases d, src.view().len() - p,
{
    proof {
        src.lemma_fits();
    }
    let q = src.skip_spaces(p);
    if d == 0 {
        return (node, p);
    }
    let callable = node.rule == Rule::Identifier || node.rule == Rule::MemberAccess;
    if is_char(src, q, '(') && callable {
        match items(src, q + 1, d - 1, ')') {
            Some((args, e)) => {
                if p < e {
                    let rule = if node.rule == Rule::Identifier {
                        Rule::FunctionCall
                    } else {
                        Rule::MethodCall
                    };
                    let kids = join(one(node), args);
                    postfix(src, mk_branch(src, rule, start, e, kids), start, e, d)
                } else {
                    (node, p)
                }
            },
            None => (node, p),
        }
    } else if is_char(src, q, '.') && q + 1 < src.len() && word_start(src.at(q + 1)) {
        let e = src.word_end(q + 1);
        if p < e {
            let name = mk_leaf(src, Rule::Identifier, q + 1, e);
            if node.rule == Rule::MemberAccess {
                let ghost before = node@;
                let mut kids = node.children;
                proof {
                    crate::tree::lemma_children_view(node);
                }
                kids.push(name);
                assert(nodes_view(kids@) =~= before.children.push(name@));
                postfix(src, mk_branch(src, Rule::MemberAccess, start, e, kids), start, e, d)
            } else {
                let kids = join(one(node), one(name));
                assert(nodes_view(kids@) =~= seq![node@, name@]);
                postfix(src, mk_branch(src, Rule::MemberAccess, start, e, kids), start, e, d)
            }
        } else {
            (node, p)
        }
    } else if is_char(src, q, '[') {
        let inner = src.skip_blank(q + 1);
        match expression(src, inner, d - 1) {
            Some((key, e)) => {
                let close = src.skip_blank(e);
                if is_char(src, close, ']') && p < close + 1 {
                    let kids = join(one(node), one(key));
                    assert(nodes_view(kids@) =~= seq![node@, key@]);
                    postfix(
                        src,
                        mk_branch(src, Rule::IndexAccess, start, close + 1, kids),
                        start,
                        close + 1,
                        d,
                    )
                } else {
                    (node, p)
                }
            },
            None => (node, p),
        }
    } else {
        (node, p)
    }
}

fn items(src: &Source, p: usize, d: usize, close: char) -> (r: Option<(Vec<ParseNode>, usize)>)
    requires
        src.wf(),
        p <= src.view().len(),
    ensures
        parsed_list_view(r) == items_g(src.view(), p as int, d as nat, close),
        list_ends_within(r, src.view().len()),
        r matches Some((_, end)) ==> end > p,
    decreases d, 1nat,
{
    proof {
        src.lemma_fits();
    }
    let q = src.skip_blank(p);
    if is_char(src, q, close) {
        let none: Vec<ParseNode> = Vec::new();
        assert(nodes_view(none@) =~= Seq::empty());
        Some((none, q + 1))
    } else if d == 0 {
        None
    } else {
        more_items(src, q, d - 1, close)
    }
}

fn more_items(src: &Source, p: usize, d: usize, close: char) -> (r: Option<
    (Vec<ParseNode>, usize),
>)
    requires
        src.wf(),
        p <= src.view().len(),
    ensures
        parsed_list_view(r) == more_items_g(src.view(), p as int, d as nat, close),
        list_ends_within(r, src.view().len()),
        r matches Some((_, end)) ==> end > p,
    decreases d, src.view().len() - p,
{
    proof {
        src.lemma_fits();
    }
    if d == 0 {
        return None;
    }
    match expression(src, p, d - 1) {
        Some((item, e)) => {
            let c = src.skip_blank(e);
            if is_char(src, c, close) {
                Some((one(item), c + 1))
            } else if is_char(src, c, ',') {
                let next = src.skip_blank(c + 1);
                if p < next {
                    match more_items(src, next, d, close) {
                        Some((rest, end)) => Some((join(one(item), rest), end)),
                        None => None,
                    }
                } else {
                    None
                }
            } else {
                None
            }
        },
        None => None,
    }
}

fn string(src: &Source, p: usize) -> (r: Option<(ParseNode, usize)>)
    requires
        src.wf(),
        p <= src.view().len(),
    ensures
        parsed_view(r) == string_g(src.view(), p as int),
        ends_within(r, src.view().len()),
        r matches Some((_, end)) ==> end > p,
{
    proof {
        src.lemma_fits();
    }
    if is_char(src, p, '"') {
        let q = src.quote_at(p + 1);
        if q < src.len() {
            Some((mk_leaf(src, Rule::String, p, q + 1), q + 1))
        } else {
            None
        }
    } else {
        None
    }
}

fn key(src: &Source, p: usize) -> (r: Option<(ParseNode, usize)>)
    requires
        src.wf(),
        p <= src.view().len(),
    ensures
        parsed_view(r) == key_g(src.view(), p as int),
        ends_within(r, src.view().len()),
        r matches Some((_, end)) ==> end > p,
{
    proof {
        src.lemma_fits();
    }
    if p < src.len() && word_start(src.at(p)) {
        let e = src.word_end(p);
        Some((mk_leaf(src, Rule::Identifier, p, e), e))
    } else {
        string(src, p)
    }
}

fn entries(src: &Source, p: usize, d: usize) -> (r: Option<(Vec<ParseNode>, usize)>)
    requires
        src.wf(),
        p <= src.view().len(),
    ensures
        parsed_list_view(r) == entries_g(src.view(), p as int, d as nat),
        list_ends_within(r, src.view().len()),
        r matches Some((_, end)) ==> end > p,
    decreases d, src.view().len() - p,
{
    proof {
        src.lemma_fits();
    }
    let q = src.skip_blank(p);
    if is_char(src, q, '}') {
        let none: Vec<ParseNode> = Vec::new();
        assert(nodes_view(none@) =~= Seq::empty());
        return Some((none, q + 1));
    }
    if d == 0 {
        return None;
    }
    match key(src, q) {
        Some((name, k)) => {
            let eq = src.skip_blank(k);
            if !is_char(src, eq, '=') {
                return None;
            }
            let v = src.skip_blank(eq + 1);
            match expression(src, v, d - 1) {
                Some((value, e)) => {
                    let kids = join(one(name), one(value));
                    assert(nodes_view(kids@) =~= seq![name@, value@]);
                    let entry = mk_branch(src, Rule::DictEntry, q, e, kids);
                    let c = src.skip_blank(e);
                    if is_char(src, c, '}') {
                        Some((one(entry), c + 1))
                    } else if is_char(src, c, ',') && p < c + 1 {
                        match entries(src, c + 1, d) {
                            Some((rest, end)) => Some((join(one(entry), rest), end)),
                            None => None,
                        }
                    } else {
                        None
                    }
                },
                None => None,
            }
        },
        None => None,
    }
}

fn params(src: &Source, p: usize) -> (r: Option<(Vec<ParseNode>, usize)>)
    requires
        src.wf(),
        p <= src.view().len(),
    ensures
        parsed_list_view(r) == params_g(src.view(), p as int),
        list_ends_within(r, src.view().len()),
        r matches Some((_, end)) ==> end > p,
    decreases src.view().len() - p,
{
    proof {
        src.lemma_fits();
    }
    let q = src.skip_blank(p);
    if is_char(src, q, ')') {
        let none: Vec<ParseNode> = Vec::new();
        assert(nodes_view(none@) =~= Seq::empty());
        return Some((none, q + 1));
    }
    if !is_name(src, q) {
        return None;
    }
    let e = src.word_end(q);
    let name = mk_leaf(src, Rule::Identifier, q, e);
    let c = src.skip_blank(e);
    if is_char(src, c, ')') {
        Some((one(name), c + 1))
    } else if is_char(src, c, ',') && p < c + 1 {
        match params(src, c + 1) {
            Some((rest, end)) => {
                if rest.len() > 0 {
                    Some((join(one(name), rest), end))
                } else {
                    None
                }
            },
            None => None,
        }
    } else {
        None
    }
}

fn function(src: &Source, p: usize, d: usize) -> (r: Option<(Vec<ParseNode>, usize)>)
    requires
        src.wf(),
        p <= src.view().len(),
    ensures
        parsed_list_view(r) == function_g(src.view(), p as int, d as nat),
        list_ends_within(r, src.view().len()),
        r matches Some((_, end)) ==> end > p,
    decreases d, 0nat,
{
    proof {
        src.lemma_fits();
    }
    let open = src.skip_blank(p);
    if d == 0 || !is_char(src, open, '(') {
        return None;
    }
    match params(src, open + 1) {
        Some((names, e)) => {
            let (body, q) = block(src, e, d - 1);
            proof {
                reveal_strlit("end");
            }
            if src.word_at(q, "end") {
                Some((join(names, body), q + 3))
            } else {
                None
            }
        },
        None => None,
    }
}

fn primary(src: &Source, p: usize, d: usize) -> (r: Option<(ParseNode, usize)>)
    requires
        src.wf(),
        p <= src.view().len(),
    ensures
        parsed_view(r) == primary_g(src.view(), p as int, d as nat),
        ends_within(r, src.view().len()),
        r matches Some((_, end)) ==> end >= p,
    decreases d, 0nat,
{
    proof {
        src.lemma_fits();
    }
    if p >= src.len() {
        return None;
    }
    let c = src.at(p);
    if digit(c) || (c == '-' && p + 1 < src.len() && digit(src.at(p + 1))) {
        let e = src.number_end(p);
        return Some((mk_leaf(src, Rule::Number, p, e), e));
    }
    if c == '"' {
        return string(src, p);
    }
    if d == 0 {
        return None;
    }
    if c == '(' {
        let inner = src.skip_blank(p + 1);
        match expression(src, inner, d - 1) {
            Some((node, e)) => {
                let close = src.skip_blank(e);
                if is_char(src, close, ')') {
                    Some((mk_branch(src, Rule::Term, p, close + 1, one(node)), close + 1))
                } else {
                    None
                }
            },
            None => None,
        }
    } else if c == '[' {
        match items(src, p + 1, d - 1, ']') {
            Some((elements, e)) => Some((mk_branch(src, Rule::Table, p, e, elements), e)),
            None => None,
        }
    } else if c == '{' {
        match entries(src, p + 1, d - 1) {
            Some((fields, e)) => Some((mk_branch(src, Rule::Dictionary, p, e, fields), e)),
            None => None,
        }
    } else if word_start(c) {
        let e = src.word_end(p);
        let w = src.slice(p, e);
        if same_text(w.as_str(), "true") || same_text(w.as_str(), "false") {
            Some((mk_leaf(src, Rule::Boolean, p, e), e))
        } else if same_text(w.as_str(), "nil") {
            Some((mk_leaf(src, Rule::Nil, p, e), e))
        } else if same_text(w.as_str(), "not") {
            let t = src.skip_blank(e);
            match term(src, t, d - 1) {
                Some((operand, end)) => Some(
                    (mk_branch(src, Rule::NotExpr, p, end, one(operand)), end),
                ),
                None => None,
            }
        } else if same_text(w.as_str(), "function") {
            match function(src, e, d - 1) {
                Some((parts, end)) => Some((mk_branch(src, Rule::Lambda, p, end, parts), end)),
                None => None,
            }
        } else if keyword(w.as_str()) {
            None
        } else {
            Some((mk_leaf(src, Rule::Identifier, p, e), e))
        }
    } else {
        None
    }
}

// ---------------------------------------------------------------------------
// Statements
// ---------------------------------------------------------------------------

fn block(src: &Source, p: usize, d: usize) -> (r: (Vec<ParseNode>, usize))
    requires
        src.wf(),
        p <= src.view().len(),
    ensures
        (nodes_view(r.0@), r.1 as int) == block_g(src.view(), p as int, d as nat),
        p <= r.1 <= src.view().len(),
    decreases d, src.view().len() - p,
{
    proof {
        src.lemma_fits();
    }
    let ghost s = src.view();
    let mut out: Vec<ParseNode> = Vec::new();
    let mut cur: usize = p;
    assert(nodes_view(out@) + block_g(s, p as int, d as nat).0 =~= block_g(s, p as int, d as nat).0);
    loop
        invariant
            src.wf(),
            s == src.view(),
            p <= cur <= s.len(),
            block_g(s, p as int, d as nat) == (
                nodes_view(out@) + block_g(s, cur as int, d as nat).0,
                block_g(s, cur as int, d as nat).1,
            ),
        decreases s.len() - cur,
    {
        let q = src.skip_blank(cur);
        if d == 0 {
            assert(nodes_view(out@) + Seq::<ParseTree>::empty() =~= nodes_view(out@));
            return (out, q);
        }
        match statement(src, q, d - 1) {
            Some((node, e)) => {
                if cur < e {
                    let ghost before = nodes_view(out@);
                    out.push(node);
                    proof {
                        let rest = block_g(s, e as int, d as nat).0;
                        assert(nodes_view(out@) =~= before.push(node@));
                        assert(before + (seq![node@] + rest) =~= before.push(node@) + rest);
                    }
                    cur = e;
                } else {
                    assert(nodes_view(out@) + Seq::<ParseTree>::empty() =~= nodes_view(out@));
                    return (out, q);
                }
            },
            None => {
                assert(nodes_view(out@) + Seq::<ParseTree>::empty() =~= nodes_view(out@));
                return (out, q);
            },
        }
    }
}

#[verifier::rlimit(100)]
fn statement(src: &Source, p: usize, d: usize) -> (r: Option<(ParseNode, usize)>)
    requires
        src.wf(),
        p <= src.view().len(),
    ensures
        parsed_view(r) == statement_g(src.view(), p as int, d as nat),
        ends_within(r, src.view().len()),
    decreases d, 0nat,
{
    proof {
        src.lemma_fits();
    }
    if d == 0 || p >= src.len() {
        return None;
    }
    if !word_start(src.at(p)) {
        return simple(src, p, d - 1);
    }
    let e = src.word_end(p);
    let word = src.slice(p, e);
    let w = word.as_str();
    proof {
        reveal_strlit("end");
    }
    if same_text(w, "import") {
        let q = src.skip_blank(e);
        match string(src, q) {
            Some((path, end)) => Some((mk_branch(src, Rule::ImportStmt, p, end, one(path)), end)),
            None => None,
        }
    } else if same_text(w, "local") {
        local(src, p, e, d - 1)
    } else if same_text(w, "if") {
        if_stmt(src, p, e, d - 1)
    } else if same_text(w, "while") {
        while_stmt(src, p, e, d - 1)
    } else if same_text(w, "for") {
        for_stmt(src, p, e, d - 1)
    } else if same_text(w, "function") && is_name(src, src.skip_blank(e)) {
        let n = src.skip_blank(e);
        let name_end = src.word_end(n);
        match function(src, name_end, d - 1) {
            Some((parts, end)) => {
                let name = mk_leaf(src, Rule::Identifier, n, name_end);
                Some((mk_branch(src, Rule::FunctionDef, p, end, join(one(name), parts)), end))
            },
            None => None,
        }
    } else if same_text(w, "return") {
        let q = src.skip_spaces(e);
        match expression(src, q, d - 1) {
            Some((value, end)) => Some((mk_branch(src, Rule::ReturnStmt, p, end, one(value)), end)),
            None => Some((mk_leaf(src, Rule::ReturnStmt, p, e), e)),
        }
    } else if same_text(w, "break") {
        Some((mk_leaf(src, Rule::BreakStmt, p, e), e))
    } else if same_text(w, "continue") {
        Some((mk_leaf(src, Rule::ContinueStmt, p, e), e))
    } else if same_text(w, "try") {
        try_stmt(src, p, e, d - 1)
    } else if same_text(w, "throw") {
        let q = src.skip_blank(e);
        match expression(src, q, d - 1) {
            Some((value, end)) => Some((mk_branch(src, Rule::ThrowStmt, p, end, one(value)), end)),
            None => None,
        }
    } else if same_text(w, "do") {
        let (body, q) = block(src, e, d - 1);
        if src.word_at(q, "end") {
            Some((mk_branch(src, Rule::Block, p, q + 3, body), q + 3))
        } else {
            None
        }
    } else if same_text(w, "print") && print_operand(src, src.skip_spaces(e)) {
        let q = src.skip_spaces(e);
        match expression(src, q, d - 1) {
            Some((value, end)) => Some((mk_branch(src, Rule::PrintStmt, p, end, one(value)), end)),
            None => simple(src, p, d - 1),
        }
    } else {
        simple(src, p, d - 1)
    }
}

fn print_operand(src: &Source, q: usize) -> (r: bool)
    ensures
        r == starts_print_operand(src.view(), q as int),
{
    q < src.len() && src.at(q) != '(' && src.at(q) != '=' && src.at(q) != '.' && src.at(q) != '['
}

#[verifier::rlimit(100)]
fn simple(src: &Source, p: usize, d: usize) -> (r: Option<(ParseNode, usize)>)
    requires
        src.wf(),
        p <= src.view().len(),
    ensures
        parsed_view(r) == simple_g(src.view(), p as int, d as nat),
        ends_within(r, src.view().len()),
    decreases d, 0nat,
{
    proof {
        src.lemma_fits();
    }
    if d == 0 {
        return None;
    }
    match term(src, p, d - 1) {
        Some((target, e)) => {
            let eq = src.skip_spaces(e);
            if is_char(src, eq, '=') && !is_char(src, eq + 1, '=') {
                let assignable = target.rule == Rule::Identifier || target.rule
                    == Rule::MemberAccess || target.rule == Rule::IndexAccess;
                if !assignable {
                    return None;
                }
                let v = src.skip_blank(eq + 1);
                match expression(src, v, d - 1) {
                    Some((value, end)) => {
                        let kids = join(one(target), one(value));
                        assert(nodes_view(kids@) =~= seq![target@, value@]);
                        Some((mk_branch(src, Rule::Assignment, p, end, kids), end))
                    },
                    None => None,
                }
            } else {
                let (rest, end) = operations(src, e, d - 1);
                if rest.len() == 0 && (target.rule == Rule::FunctionCall || target.rule
                    == Rule::MethodCall) {
                    Some((target, e))
                } else {
                    Some((mk_branch(src, Rule::Expression, p, end, join(one(target), rest)), end))
                }
            }
        },
        None => None,
    }
}

fn local(src: &Source, p: usize, e: usize, d: usize) -> (r: Option<(ParseNode, usize)>)
    requires
        src.wf(),
        p <= e <= src.view().len(),
    ensures
        parsed_view(r) == local_g(src.view(), p as int, e as int, d as nat),
        ends_within(r, src.view().len()),
    decreases d, 0nat,
{
    proof {
        src.lemma_fits();
    }
    let n = src.skip_blank(e);
    let name_end = src.word_end(n);
    let eq = src.skip_blank(name_end);
    if d == 0 || !is_name(src, n) || !is_char(src, eq, '=') {
        return None;
    }
    let v = src.skip_blank(eq + 1);
    match expression(src, v, d - 1) {
        Some((value, end)) => {
            let name = mk_leaf(src, Rule::Identifier, n, name_end);
            let kids = join(one(name), one(value));
            assert(nodes_view(kids@) =~= seq![name@, value@]);
            Some((mk_branch(src, Rule::LocalAssignment, p, end, kids), end))
        },
        None => None,
    }
}

fn guarded(src: &Source, p: usize, d: usize, opener: &str) -> (r: Option<(Vec<ParseNode>, usize)>)
    requires
        src.wf(),
        p <= src.view().len(),
    ensures
        parsed_list_view(r) == guarded_g(src.view(), p as int, d as nat, opener@),
        list_ends_within(r, src.view().len()),
        r matches Some((_, end)) ==> end >= p,
    decreases d, 0nat,
{
    proof {
        src.lemma_fits();
    }
    if d == 0 {
        return None;
    }
    let c = src.skip_blank(p);
    match expression(src, c, d - 1) {
        Some((cond, e)) => {
            let t = src.skip_blank(e);
            if src.word_at(t, opener) {
                let n = opener.unicode_len();
                let (body, q) = block(src, t + n, d - 1);
                Some((join(one(cond), body), q))
            } else {
                None
            }
        },
        None => None,
    }
}

fn elseifs(src: &Source, p: usize, d: usize) -> (r: Option<(Vec<ParseNode>, usize)>)
    requires
        src.wf(),
        p <= src.view().len(),
    ensures
        parsed_list_view(r) == elseifs_g(src.view(), p as int, d as nat),
        list_ends_within(r, src.view().len()),
        r matches Some((_, end)) ==> end >= p,
    decreases d, src.view().len() - p,
{
    proof {
        src.lemma_fits();
    }
    proof {
        reveal_strlit("elseif");
        reveal_strlit("then");
    }
    if !src.word_at(p, "elseif") {
        let none: Vec<ParseNode> = Vec::new();
        assert(nodes_view(none@) =~= Seq::empty());
        return Some((none, p));
    }
    if d == 0 {
        return None;
    }
    match guarded(src, p + 6, d - 1, "then") {
        Some((parts, q)) => {
            if p < q {
                match elseifs(src, q, d) {
                    Some((rest, end)) => {
                        let clause = mk_branch(src, Rule::ElseifClause, p, q, parts);
                        Some((join(one(clause), rest), end))
                    },
                    None => None,
                }
            } else {
                None
            }
        },
        None => None,
    }
}

fn if_stmt(src: &Source, p: usize, e: usize, d: usize) -> (r: Option<(ParseNode, usize)>)
    requires
        src.wf(),
        p <= e <= src.view().len(),
    ensures
        parsed_view(r) == if_g(src.view(), p as int, e as int, d as nat),
        ends_within(r, src.view().len()),
    decreases d, 0nat,
{
    proof {
        src.lemma_fits();
    }
    proof {
        reveal_strlit("else");
        reveal_strlit("end");
        reveal_strlit("then");
    }
    if d == 0 {
        return None;
    }
    match guarded(src, e, d - 1, "then") {
        Some((parts, q)) => match elseifs(src, q, d - 1) {
            Some((clauses, q2)) => {
                if src.word_at(q2, "else") {
                    let (body, q3) = block(src, q2 + 4, d - 1);
                    if src.word_at(q3, "end") {
                        let last = mk_branch(src, Rule::ElseClause, q2, q3, body);
                        let kids = join(join(parts, clauses), one(last));
                        Some((mk_branch(src, Rule::IfStmt, p, q3 + 3, kids), q3 + 3))
                    } else {
                        None
                    }
                } else if src.word_at(q2, "end") {
                    Some((mk_branch(src, Rule::IfStmt, p, q2 + 3, join(parts, clauses)), q2 + 3))
                } else {
                    None
                }
            },
            None => None,
        },
        None => None,
    }
}

fn while_stmt(src: &Source, p: usize, e: usize, d: usize) -> (r: Option<(ParseNode, usize)>)
    requires
        src.wf(),
        p <= e <= src.view().len(),
    ensures
        parsed_view(r) == while_g(src.view(), p as int, e as int, d as nat),
        ends_within(r, src.view().len()),
    decreases d, 0nat,
{
    proof {
        src.lemma_fits();
    }
    proof {
        reveal_strlit("end");
        reveal_strlit("do");
    }
    if d == 0 {
        return None;
    }
    match guarded(src, e, d - 1, "do") {
        Some((parts, q)) => {
            if src.word_at(q, "end") {
                Some((mk_branch(src, Rule::WhileStmt, p, q + 3, parts), q + 3))
            } else {
                None
            }
        },
        None => None,
    }
}

#[verifier::rlimit(100)]
fn for_stmt(src: &Source, p: usize, e: usize, d: usize) -> (r: Option<(ParseNode, usize)>)
    requires
        src.wf(),
        p <= e <= src.view().len(),
    ensures
        parsed_view(r) == for_g(src.view(), p as int, e as int, d as nat),
        ends_within(r, src.view().len()),
    decreases d, 0nat,
{
    proof {
        src.lemma_fits();
    }
    proof {
        reveal_strlit("end");
        reveal_strlit("do");
    }
    let n = src.skip_blank(e);
    let name_end = src.word_end(n);
    let eq = src.skip_blank(name_end);
    if d == 0 || !is_name(src, n) || !is_char(src, eq, '=') {
        return None;
    }
    let first = src.skip_blank(eq + 1);
    let (start, e1) = match expression(src, first, d - 1) {
        Some(found) => found,
        None => {
            return None;
        },
    };
    let comma = src.skip_blank(e1);
    if !is_char(src, comma, ',') {
        return None;
    }
    let var = mk_leaf(src, Rule::Identifier, n, name_end);
    match guarded(src, comma + 1, d - 1, "do") {
        Some((parts, q)) => {
            if src.word_at(q, "end") {
                let head = join(one(var), one(start));
                assert(nodes_view(head@) =~= seq![var@, start@]);
                Some((mk_branch(src, Rule::ForStmt, p, q + 3, join(head, parts)), q + 3))
            } else {
                None
            }
        },
        None => {
            let second = src.skip_blank(comma + 1);
            match expression(src, second, d - 1) {
                Some((end, e2)) => {
                    let comma2 = src.skip_blank(e2);
                    if !is_char(src, comma2, ',') {
                        return None;
                    }
                    match guarded(src, comma2 + 1, d - 1, "do") {
                        Some((parts, q)) => {
                            if src.word_at(q, "end") {
                                let head = join(join(one(var), one(start)), one(end));
                                assert(nodes_view(head@) =~= seq![var@, start@, end@]);
                                Some(
                                    (
                                        mk_branch(
                                            src,
                                            Rule::ForStmt,
                                            p,
                                            q + 3,
                                            join(head, parts),
                                        ),
                                        q + 3,
                                    ),
                                )
                            } else {
                                None
                            }
                        },
                        None => None,
                    }
                },
                None => None,
            }
        },
    }
}

fn catch_var(src: &Source, v: usize) -> (r: bool)
    requires
        src.wf(),
        v <= src.view().len(),
    ensures
        r == catch_var_at(src.view(), v as int),
{
    proof {
        src.lemma_fits();
    }
    if !is_name(src, v) {
        return false;
    }
    let after = src.skip_spaces(src.word_end(v));
    !(after < src.len() && (src.at(after) == '(' || src.at(after) == '.' || src.at(after) == '['
        || src.at(after) == '='))
}

fn try_stmt(src: &Source, p: usize, e: usize, d: usize) -> (r: Option<(ParseNode, usize)>)
    requires
        src.wf(),
        p <= e <= src.view().len(),
    ensures
        parsed_view(r) == try_g(src.view(), p as int, e as int, d as nat),
        ends_within(r, src.view().len()),
    decreases d, 0nat,
{
    proof {
        src.lemma_fits();
    }
    proof {
        reveal_strlit("end");
        reveal_strlit("catch");
    }
    if d == 0 {
        return None;
    }
    let (body, q) = block(src, e, d - 1);
    if src.word_at(q, "catch") {
        let v = src.skip_spaces(q + 5);
        let named = catch_var(src, v);
        let from = if named {
            src.word_end(v)
        } else {
            q + 5
        };
        let (handler, q2) = block(src, from, d - 1);
        if src.word_at(q2, "end") {
            let inner = if named {
                join(one(mk_leaf(src, Rule::Identifier, v, src.word_end(v))), handler)
            } else {
                handler
            };
            let clause = mk_branch(src, Rule::CatchClause, q, q2, inner);
            let ghost before = nodes_view(body@);
            let mut kids = body;
            kids.push(clause);
            assert(nodes_view(kids@) =~= before.push(clause@));
            Some((mk_branch(src, Rule::TryStmt, p, q2 + 3, kids), q2 + 3))
        } else {
            None
        }
    } else if src.word_at(q, "end") {
        Some((mk_branch(src, Rule::TryStmt, p, q + 3, body), q + 3))
    } else {
        None
    }
}

// ---------------------------------------------------------------------------
// The whole text
// ---------------------------------------------------------------------------

/// The grammar of the language.
pub struct PickupParser;

impl PickupParser {
    /// Parses a whole text into its program node; on failure gives the
    /// position at which no statement could be read.
    pub fn parse(source: &str) -> (r: Result<ParseNode, usize>)
        ensures
            match r {
                Ok(node) => program_g(source@) == Ok::<ParseTree, int>(node@),
                Err(offset) => program_g(source@) == Err::<ParseTree, int>(offset as int),
            },
    {
        let src = Source::new(source);
        let (body, end) = block(&src, 0, DEPTH_LIMIT);
        if end == src.len() {
            Ok(mk_branch(&src, Rule::Program, 0, src.len(), body))
        } else {
            Err(end)
        }
    }
}

/// What `tokenize` gives for a text: the program node alone, or a syntax
/// error at the position at which no statement could be read.
pub open spec fn tokenize_spec(source: Seq<char>) -> Result<Seq<ParseTree>, ParseFault> {
    match program_g(source) {
        Ok(tree) => Ok(seq![tree]),
        Err(offset) => Err(
            ParseFault::Syntax { offset: offset as usize, message: "unexpected input"@ },
        ),
    }
}

/// Reads a source text into its parse tree.
pub fn tokenize(source: &str) -> (r: Result<Vec<ParseNode>, ParseError>)
    ensures
        match r {
            Ok(nodes) => tokenize_spec(source@) == Ok::<Seq<ParseTree>, ParseFault>(
                nodes_view(nodes@),
            ),
            Err(e) => tokenize_spec(source@) == Err::<Seq<ParseTree>, ParseFault>(e@),
        },
{
    match PickupParser::parse(source) {
        Ok(node) => Ok(one(node)),
        Err(offset) => Err(
            ParseError::Syntax { offset, message: String::from_str("unexpected input") },
        ),
    }
}

} // verus!
