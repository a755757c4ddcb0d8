//! The tree of rule nodes that the grammar hands to the parser.
use vstd::prelude::*;

verus! {

/// The kind of a node of the parse tree.
#[derive(Clone, Copy, Debug, PartialEq, Eq, Structural)]
pub enum Rule {
    Program,
    ImportStmt,
    Assignment,
    LocalAssignment,
    FunctionCall,
    MethodCall,
    PrintStmt,
    IfStmt,
    ElseifClause,
    ElseClause,
    WhileStmt,
    ForStmt,
    FunctionDef,
    ReturnStmt,
    BreakStmt,
    ContinueStmt,
    TryStmt,
    CatchClause,
    ThrowStmt,
    Block,
    Expression,
    Term,
    Number,
    String,
    Boolean,
    Nil,
    NotExpr,
    Identifier,
    MemberAccess,
    IndexAccess,
    Lambda,
    Dictionary,
    DictEntry,
    Table,
    OpAdd,
    OpSub,
    OpMul,
    OpDiv,
    OpMod,
    OpConcat,
    OpEq,
    OpNe,
    OpLt,
    OpGt,
    OpLe,
    OpGe,
    OpAnd,
    OpOr,
}

/// A node of the parse tree: its rule, the source text it covers, and the
/// nodes of the rules matched inside it, in source order.
#[derive(Debug, PartialEq)]
pub struct ParseNode {
    pub rule: Rule,
    pub text: String,
    pub children: Vec<ParseNode>,
}

/// The mathematical value of a [`ParseNode`].
pub struct ParseTree {
    pub rule: Rule,
    pub text: Seq<char>,
    pub children: Seq<ParseTree>,
}

impl ParseNode {
    /// The tree that this node stands for.
    pub open spec fn model(self) -> ParseTree
        decreases self,
    {
        ParseTree {
            rule: self.rule,
            text: self.text@,
            children: Seq::new(
                self.children.len() as nat,
                |i: int|
                    if 0 <= i < self.children.len() {
                        self.children[i].model()
                    } else {
                        ParseTree { rule: Rule::Nil, text: Seq::empty(), children: Seq::empty() }
                    },
            ),
        }
    }

    /// A node without children.
    pub fn leaf(rule: Rule, text: &str) -> (r: ParseNode)
        ensures
            r@ == (ParseTree { rule, text: text@, children: Seq::empty() }),
    {
        let r = ParseNode { rule, text: text.to_owned(), children: Vec::new() };
        assert(r@.children =~= Seq::empty());
        r
    }

    /// A node with the given children.
    pub fn branch(rule: Rule, text: &str, children: Vec<ParseNode>) -> (r: ParseNode)
        ensures
            r@ == (ParseTree { rule, text: text@, children: nodes_view(children@) }),
    {
        let r = ParseNode { rule, text: text.to_owned(), children };
        assert(r@.children =~= nodes_view(children@));
        r
    }
}

impl View for ParseNode {
    type V = ParseTree;

    open spec fn view(&self) -> ParseTree {
        self.model()
    }
}

/// The trees that a sequence of nodes stands for.
pub open spec fn nodes_view(nodes: Seq<ParseNode>) -> Seq<ParseTree> {
    Seq::new(nodes.len(), |i: int| nodes[i]@)
}

/// A node's children, seen as trees, are the views of its child nodes.
pub proof fn lemma_children_view(node: ParseNode)
    ensures
        node@.children == nodes_view(node.children@),
        node@.children.len() == node.children.len(),
        forall|i: int| 0 <= i < node.children.len() ==> node@.children[i] == node.children[i]@,
{
    assert(node@.children =~= nodes_view(node.children@));
}

/// A list of one node.
pub fn one(node: ParseNode) -> (r: Vec<ParseNode>)
    ensures
        nodes_view(r@) == seq![node@],
{
    let mut out: Vec<ParseNode> = Vec::new();
    out.push(node);
    assert(nodes_view(out@) =~= seq![node@]);
    out
}

/// Two lists of nodes, one after the other.
pub fn join(first: Vec<ParseNode>, second: Vec<ParseNode>) -> (r: Vec<ParseNode>)
    ensures
        nodes_view(r@) == nodes_view(first@) + nodes_view(second@),
{
    let mut out = first;
    let mut rest = second;
    out.append(&mut rest);
    assert(nodes_view(out@) =~= nodes_view(first@) + nodes_view(second@));
    out
}

} // verus!
