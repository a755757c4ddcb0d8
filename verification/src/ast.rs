//! The abstract syntax tree.
use vstd::prelude::*;

verus! {

/// A node of the abstract syntax tree. Each node owns its children.
///
/// A numeric literal is kept as the decimal text that was written: turning it
/// into a machine number is the host's work, done when the literal is run.
#[derive(Debug, PartialEq)]
pub enum AstNode {
    /// The root: the top-level statements.
    Program(Vec<AstNode>),
    /// Numeric literal, as written.
    Number(String),
    /// String literal, without its quotes.
    String(String),
    Identifier(String),
    Boolean(bool),
    Nil,
    /// Assignment (target, value).
    Assignment(Box<AstNode>, Box<AstNode>),
    /// A new binding in the current scope (name, value).
    LocalAssignment(String, Box<AstNode>),
    /// Binary operation (left, operator symbol, right).
    BinaryOp(Box<AstNode>, String, Box<AstNode>),
    Not(Box<AstNode>),
    /// Call of a named function (name, arguments).
    FunctionCall(String, Vec<AstNode>),
    /// Call through a member chain (receiver, members, arguments).
    MethodCall(Box<AstNode>, Vec<String>, Vec<AstNode>),
    Print(Box<AstNode>),
    /// Ordered sequence literal.
    Table(Vec<AstNode>),
    /// String-keyed map literal, in source order.
    Dictionary(Vec<(String, AstNode)>),
    /// Index access (base, key).
    Index(Box<AstNode>, Box<AstNode>),
    /// Member access (base, members).
    MemberAccess(Box<AstNode>, Vec<String>),
    Import(String),
    /// Conditional (condition, then-body, elseif clauses, else-body).
    If(Box<AstNode>, Vec<AstNode>, Vec<(AstNode, Vec<AstNode>)>, Option<Vec<AstNode>>),
    While(Box<AstNode>, Vec<AstNode>),
    /// Counting loop (variable, start, end, step, body).
    For(String, Box<AstNode>, Box<AstNode>, Option<Box<AstNode>>, Vec<AstNode>),
    /// Named function (name, parameters, body).
    FunctionDef(String, Vec<String>, Vec<AstNode>),
    /// Anonymous function (parameters, body).
    Lambda(Vec<String>, Vec<AstNode>),
    Return(Option<Box<AstNode>>),
    Break,
    Continue,
    /// Exception handler (try-body, catch variable, catch-body).
    TryCatch(Vec<AstNode>, Option<String>, Vec<AstNode>),
    Throw(Box<AstNode>),
    /// A statement list with a scope of its own.
    Block(Vec<AstNode>),
}

/// The mathematical value of an [`AstNode`].
pub enum Ast {
    Program(Seq<Ast>),
    Number(Seq<char>),
    String(Seq<char>),
    Identifier(Seq<char>),
    Boolean(bool),
    Nil,
    Assignment(Box<Ast>, Box<Ast>),
    LocalAssignment(Seq<char>, Box<Ast>),
    BinaryOp(Box<Ast>, Seq<char>, Box<Ast>),
    Not(Box<Ast>),
    FunctionCall(Seq<char>, Seq<Ast>),
    MethodCall(Box<Ast>, Seq<Seq<char>>, Seq<Ast>),
    Print(Box<Ast>),
    Table(Seq<Ast>),
    Dictionary(Seq<(Seq<char>, Ast)>),
    Index(Box<Ast>, Box<Ast>),
    MemberAccess(Box<Ast>, Seq<Seq<char>>),
    Import(Seq<char>),
    If(Box<Ast>, Seq<Ast>, Seq<(Ast, Seq<Ast>)>, Option<Seq<Ast>>),
    While(Box<Ast>, Seq<Ast>),
    For(Seq<char>, Box<Ast>, Box<Ast>, Option<Box<Ast>>, Seq<Ast>),
    FunctionDef(Seq<char>, Seq<Seq<char>>, Seq<Ast>),
    Lambda(Seq<Seq<char>>, Seq<Ast>),
    Return(Option<Box<Ast>>),
    Break,
    Continue,
    TryCatch(Seq<Ast>, Option<Seq<char>>, Seq<Ast>),
    Throw(Box<Ast>),
    Block(Seq<Ast>),
}

/// The texts of a list of names.
pub open spec fn names_view(names: Seq<String>) -> Seq<Seq<char>> {
    Seq::new(names.len(), |i: int| names[i]@)
}

/// The trees that a list of nodes stands for.
pub open spec fn ast_list_view(nodes: Vec<AstNode>) -> Seq<Ast>
    decreases nodes, 1nat,
{
    Seq::new(
        nodes.len() as nat,
        |i: int|
            if 0 <= i < nodes.len() {
                nodes[i].model()
            } else {
                Ast::Nil
            },
    )
}

/// The entries that a list of dictionary entries stands for.
pub open spec fn ast_entries_view(entries: Vec<(String, AstNode)>) -> Seq<(Seq<char>, Ast)>
    decreases entries, 1nat,
{
    Seq::new(
        entries.len() as nat,
        |i: int|
            if 0 <= i < entries.len() {
                (entries[i].0@, entries[i].1.model())
            } else {
                (Seq::empty(), Ast::Nil)
            },
    )
}

/// The clauses that a list of elseif clauses stands for.
pub open spec fn ast_clauses_view(clauses: Vec<(AstNode, Vec<AstNode>)>) -> Seq<(Ast, Seq<Ast>)>
    decreases clauses, 1nat,
{
    Seq::new(
        clauses.len() as nat,
        |i: int|
            if 0 <= i < clauses.len() {
                (clauses[i].0.model(), ast_list_view(clauses[i].1))
            } else {
                (Ast::Nil, Seq::empty())
            },
    )
}

impl AstNode {
    /// The tree that this node stands for.
    pub open spec fn model(self) -> Ast
        decreases self, 0nat,
    {
        match self {
            AstNode::Program(body) => Ast::Program(ast_list_view(body)),
            AstNode::Number(text) => Ast::Number(text@),
            AstNode::String(text) => Ast::String(text@),
            AstNode::Identifier(name) => Ast::Identifier(name@),
            AstNode::Boolean(b) => Ast::Boolean(b),
            AstNode::Nil => Ast::Nil,
            AstNode::Assignment(target, value) => Ast::Assignment(
                Box::new(target.model()),
                Box::new(value.model()),
            ),
            AstNode::LocalAssignment(name, value) => Ast::LocalAssignment(
                name@,
                Box::new(value.model()),
            ),
            AstNode::BinaryOp(left, op, right) => Ast::BinaryOp(
                Box::new(left.model()),
                op@,
                Box::new(right.model()),
            ),
            AstNode::Not(operand) => Ast::Not(Box::new(operand.model())),
            AstNode::FunctionCall(name, args) => Ast::FunctionCall(name@, ast_list_view(args)),
            AstNode::MethodCall(receiver, members, args) => Ast::MethodCall(
                Box::new(receiver.model()),
                names_view(members@),
                ast_list_view(args),
            ),
            AstNode::Print(value) => Ast::Print(Box::new(value.model())),
            AstNode::Table(elements) => Ast::Table(ast_list_view(elements)),
            AstNode::Dictionary(entries) => Ast::Dictionary(ast_entries_view(entries)),
            AstNode::Index(base, key) => Ast::Index(
                Box::new(base.model()),
                Box::new(key.model()),
            ),
            AstNode::MemberAccess(base, members) => Ast::MemberAccess(
                Box::new(base.model()),
                names_view(members@),
            ),
            AstNode::Import(name) => Ast::Import(name@),
            AstNode::If(cond, then_body, clauses, else_body) => Ast::If(
                Box::new(cond.model()),
                ast_list_view(then_body),
                ast_clauses_view(clauses),
                match else_body {
                    Some(body) => Some(ast_list_view(body)),
                    None => None,
                },
            ),
            AstNode::While(cond, body) => Ast::While(
                Box::new(cond.model()),
                ast_list_view(body),
            ),
            AstNode::For(var, start, end, step, body) => Ast::For(
                var@,
                Box::new(start.model()),
                Box::new(end.model()),
                match step {
                    Some(s) => Some(Box::new(s.model())),
                    None => None,
                },
                ast_list_view(body),
            ),
            AstNode::FunctionDef(name, params, body) => Ast::FunctionDef(
                name@,
                names_view(params@),
                ast_list_view(body),
            ),
            AstNode::Lambda(params, body) => Ast::Lambda(names_view(params@), ast_list_view(body)),
            AstNode::Return(value) => Ast::Return(
                match value {
                    Some(v) => Some(Box::new(v.model())),
                    None => None,
                },
            ),
            AstNode::Break => Ast::Break,
            AstNode::Continue => Ast::Continue,
            AstNode::TryCatch(try_body, catch_var, catch_body) => Ast::TryCatch(
                ast_list_view(try_body),
                match catch_var {
                    Some(v) => Some(v@),
                    None => None,
                },
                ast_list_view(catch_body),
            ),
            AstNode::Throw(value) => Ast::Throw(Box::new(value.model())),
            AstNode::Block(body) => Ast::Block(ast_list_view(body)),
        }
    }
}

impl View for AstNode {
    type V = Ast;

    open spec fn view(&self) -> Ast {
        self.model()
    }
}

} // verus!
