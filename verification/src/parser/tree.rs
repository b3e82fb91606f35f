//! The syntax tree: nodes over ranges of tokens.
use crate::parser::operators::{
    assigns, is_assignment, operator_at, table_entry, Assoc, RESOLVED_LEN,
};
use vstd::prelude::*;

verus! {

/// What a node of the tree stands for.
#[derive(Clone, Copy, Debug, PartialEq, Eq, Structural)]
pub enum NodeKind {
    /// The whole text: statements, their terminators, and the `Eof` token.
    Program,
    /// `function`, the parameter list in parentheses, and the body.
    FunctionDef,
    /// One formal parameter: a name, or a name, `=` and a default value.
    Parameter,
    /// A callee and its argument list in parentheses.
    Call,
    /// An object and its subscripts in `[ ]` or `[[ ]]`.
    Index,
    /// An object, one of `$`, `@`, `::`, `:::`, and a name.
    Member,
    /// A name and `=` with no value behind it, in an argument list.
    Argument,
    /// Statements in braces.
    Block,
    If,
    For,
    While,
    Repeat,
    /// The word `break`.
    Break,
    /// The word `next`.
    Next,
    /// Left operand, operator, right operand.
    Binary,
    /// Operator and operand.
    Unary,
    /// Target, assignment operator, value; for `->` and `->>` value first.
    Assignment,
    /// An expression in parentheses.
    Paren,
    /// A number, a string or a constant word.
    Literal,
    /// A name.
    Symbol,
    /// Any other single token.
    Token,
    /// Nothing, where something had to stand.
    Missing,
    /// Tokens that could not be read as what was expected there.
    Error,
}

/// A node of the syntax tree. It covers the tokens `[lo, hi)` and owns its
/// children, which lie in source order.
#[derive(Debug)]
pub struct Node {
    pub kind: NodeKind,
    pub lo: usize,
    pub hi: usize,
    pub children: Vec<Node>,
}

/// The mathematical value of a tree.
pub struct NodeModel {
    pub kind: NodeKind,
    pub lo: int,
    pub hi: int,
    pub children: Seq<NodeModel>,
}

/// The value of a tree: its own fields, and the values of its children.
pub open spec fn model_of(n: Node) -> NodeModel
    decreases n,
{
    NodeModel {
        kind: n.kind,
        lo: n.lo as int,
        hi: n.hi as int,
        children: Seq::new(
            n.children@.len(),
            |i: int|
                if 0 <= i < n.children@.len() {
                    model_of(n.children@[i])
                } else {
                    arbitrary()
                },
        ),
    }
}

impl View for Node {
    type V = NodeModel;

    open spec fn view(&self) -> NodeModel {
        model_of(*self)
    }
}

/// The views of a list of nodes.
pub open spec fn views(nodes: Seq<Node>) -> Seq<NodeModel> {
    Seq::new(nodes.len(), |i: int| nodes[i]@)
}

/// Child `i` ends where child `i + 1` starts.
pub open spec fn joined(children: Seq<NodeModel>, i: int) -> bool {
    children[i].hi == children[i + 1].lo
}

impl NodeModel {
    /// A node without children covers one token or none; the children of any
    /// other node are themselves well formed, lie end to end, and cover
    /// exactly the node's range.
    pub open spec fn wf(self) -> bool
        decreases self,
    {
        &&& 0 <= self.lo <= self.hi
        &&& self.children.len() == 0 ==> self.hi <= self.lo + 1
        &&& self.children.len() > 0 ==> self.children[0].lo == self.lo
            && self.children.last().hi == self.hi
        &&& forall|i: int| 0 <= i < self.children.len() ==> (#[trigger] self.children[i]).wf()
        &&& forall|i: int| 0 <= i < self.children.len() - 1 ==> #[trigger] joined(self.children, i)
    }
}

/// Whether the binary operator of line `line` may not stand over operands
/// whose roots have the tiers `left` and `right`: it does not associate and
/// one of them is of its own tier.
pub open spec fn clashes(line: int, left: int, right: int) -> bool {
    0 <= line < RESOLVED_LEN && table_entry(line).assoc == Assoc::NonAssoc && (left == table_entry(
        line,
    ).tier || right == table_entry(line).tier)
}

/// The kind of the node over a binary operator of line `line`.
pub open spec fn binary_kind(line: int, left: int, right: int) -> NodeKind {
    if clashes(line, left, right) {
        NodeKind::Error
    } else if 0 <= line < RESOLVED_LEN && is_assignment(table_entry(line).symbol) {
        NodeKind::Assignment
    } else {
        NodeKind::Binary
    }
}

pub open spec fn line_tier(line: int) -> int {
    if 0 <= line < RESOLVED_LEN {
        table_entry(line).tier as int
    } else {
        0
    }
}

/// The node of a prefix operator over its operand.
pub open spec fn unary_of(op: NodeModel, operand: NodeModel) -> NodeModel {
    NodeModel { kind: NodeKind::Unary, lo: op.lo, hi: operand.hi, children: seq![op, operand] }
}

/// The node of the binary operator of line `line` over two operands whose
/// roots have the tiers `left_tier` and `right_tier`: an `Assignment` or a
/// `Binary`, or an `Error` if the operator may not stand over them.
pub open spec fn binary_of(
    left: NodeModel,
    left_tier: int,
    op: NodeModel,
    line: int,
    right: NodeModel,
    right_tier: int,
) -> NodeModel {
    NodeModel {
        kind: binary_kind(line, left_tier, right_tier),
        lo: left.lo,
        hi: right.hi,
        children: seq![left, op, right],
    }
}

impl Node {
    /// A node without children over `[lo, hi)`.
    pub fn leaf(kind: NodeKind, lo: usize, hi: usize) -> (n: Node)
        ensures
            n@ == (NodeModel { kind, lo: lo as int, hi: hi as int, children: Seq::empty() }),
    {
        let n = Node { kind, lo, hi, children: Vec::new() };
        assert(n@.children =~= Seq::empty());
        n
    }

    /// The node of a prefix operator over its operand, which follows it.
    pub fn unary(op: Node, operand: Node) -> (n: Node)
        requires
            op@.wf(),
            operand@.wf(),
            op@.hi == operand@.lo,
        ensures
            n@ == unary_of(op@, operand@),
            n@.wf(),
    {
        let lo = op.lo;
        let hi = operand.hi;
        let ghost kids = seq![op@, operand@];
        let mut children: Vec<Node> = Vec::new();
        children.push(op);
        children.push(operand);
        proof {
            assert(views(children@) =~= kids);
            assert(joined(kids, 0));
            assert(tiles(kids, kids[0].lo, kids[1].hi));
        }
        Node::inner(NodeKind::Unary, lo, hi, children)
    }

    /// The node of a binary operator over its operands, which lie around it.
    /// `line` is the operator's line in the operator table; the tiers are
    /// those of the binary operators at the roots of the operands, zero where
    /// there is none. An operator that does not associate is rejected over an
    /// operand of its own tier: the node then comes back as the error, with
    /// the kind `Error`.
    pub fn binary(left: Node, left_tier: u8, op: Node, line: usize, right: Node, right_tier: u8) -> (r:
        Result<Node, Node>)
        requires
            left@.wf(),
            op@.wf(),
            right@.wf(),
            left@.hi == op@.lo,
            op@.hi == right@.lo,
        ensures
            r.is_err() == clashes(line as int, left_tier as int, right_tier as int),
            r.is_ok() ==> r.unwrap()@ == binary_of(
                left@,
                left_tier as int,
                op@,
                line as int,
                right@,
                right_tier as int,
            ) && r.unwrap()@.wf(),
            r.is_err() ==> r.unwrap_err()@ == binary_of(
                left@,
                left_tier as int,
                op@,
                line as int,
                right@,
                right_tier as int,
            ) && r.unwrap_err()@.wf(),
    {
        let d = operator_at(line);
        let strict = match d.assoc {
            Assoc::NonAssoc => true,
            _ => false,
        };
        let clash = line < RESOLVED_LEN && strict && (left_tier == d.tier || right_tier == d.tier);
        let kind = if clash {
            NodeKind::Error
        } else if line < RESOLVED_LEN && assigns(d.symbol) {
            NodeKind::Assignment
        } else {
            NodeKind::Binary
        };
        let lo = left.lo;
        let hi = right.hi;
        let ghost kids = seq![left@, op@, right@];
        let mut children: Vec<Node> = Vec::new();
        children.push(left);
        children.push(op);
        children.push(right);
        proof {
            assert(views(children@) =~= kids);
            assert(joined(kids, 0));
            assert(joined(kids, 1));
            assert(tiles(kids, kids[0].lo, kids[2].hi));
        }
        let node = Node::inner(kind, lo, hi, children);
        if clash {
            Err(node)
        } else {
            Ok(node)
        }
    }

    /// A node over `[lo, hi)` with the given children.
    pub fn inner(kind: NodeKind, lo: usize, hi: usize, children: Vec<Node>) -> (n: Node)
        ensures
            n@ == (NodeModel { kind, lo: lo as int, hi: hi as int, children: views(children@) }),
    {
        let n = Node { kind, lo, hi, children };
        assert(n@.children =~= views(n.children@));
        n
    }
}

/// Whether a node of this kind marks a fault in the text.
pub open spec fn marks_fault(kind: NodeKind) -> bool {
    kind == NodeKind::Error || kind == NodeKind::Missing
}

/// The number of `Error` and `Missing` nodes in a tree.
pub open spec fn faults(node: NodeModel) -> nat
    decreases node, 0nat,
{
    faults_upto(node.children, node.children.len()) + if marks_fault(node.kind) {
        1nat
    } else {
        0nat
    }
}

/// The number of `Error` and `Missing` nodes in the first `n` of `nodes`.
pub open spec fn faults_upto(nodes: Seq<NodeModel>, n: nat) -> nat
    decreases nodes, n,
{
    if 0 < n <= nodes.len() {
        faults_upto(nodes, (n - 1) as nat) + faults(nodes[n - 1])
    } else {
        0
    }
}

/// The count over the first nodes does not depend on what follows them.
pub proof fn lemma_faults_prefix(nodes: Seq<NodeModel>, more: Seq<NodeModel>, n: nat)
    requires
        n <= nodes.len(),
    ensures
        faults_upto(nodes + more, n) == faults_upto(nodes, n),
    decreases n,
{
    if n > 0 {
        lemma_faults_prefix(nodes, more, (n - 1) as nat);
        assert((nodes + more)[n - 1] == nodes[n - 1]);
    }
}

/// One more node adds its own count.
pub proof fn lemma_faults_push(nodes: Seq<NodeModel>, node: NodeModel)
    ensures
        faults_upto(nodes.push(node), nodes.len() + 1) == faults_upto(nodes, nodes.len())
            + faults(node),
{
    assert(nodes.push(node) =~= nodes + seq![node]);
    lemma_faults_prefix(nodes, seq![node], nodes.len());
}

/// The count of a node with the given children.
pub proof fn lemma_faults_of(node: NodeModel)
    ensures
        node.children.len() == 0 ==> faults_upto(node.children, 0) == 0,
        node.children.len() == 1 ==> faults_upto(node.children, 1) == faults(node.children[0]),
        node.children.len() == 2 ==> faults_upto(node.children, 2) == faults(node.children[0])
            + faults(node.children[1]),
        node.children.len() == 3 ==> faults_upto(node.children, 3) == faults(node.children[0])
            + faults(node.children[1]) + faults(node.children[2]),
{
    reveal_with_fuel(faults_upto, 4);
}

/// The nodes `items` are well formed, lie end to end and cover exactly
/// `[lo, hi)`.
pub open spec fn tiles(items: Seq<NodeModel>, lo: int, hi: int) -> bool {
    &&& 0 <= lo <= hi
    &&& items.len() == 0 ==> lo == hi
    &&& items.len() > 0 ==> items[0].lo == lo && items.last().hi == hi
    &&& forall|i: int| 0 <= i < items.len() ==> (#[trigger] items[i]).wf()
    &&& forall|i: int| 0 <= i < items.len() - 1 ==> #[trigger] joined(items, i)
}

/// One more node behind nodes that lie end to end.
pub proof fn lemma_tiles_push(items: Seq<NodeModel>, lo: int, hi: int, node: NodeModel)
    requires
        tiles(items, lo, hi),
        node.wf(),
        node.lo == hi,
    ensures
        tiles(items.push(node), lo, node.hi),
{
    let next = items.push(node);
    assert forall|i: int| 0 <= i < next.len() implies (#[trigger] next[i]).wf() by {
        if i < items.len() {
            assert(items[i].wf());
        }
    }
    assert forall|i: int| 0 <= i < next.len() - 1 implies #[trigger] joined(next, i) by {
        if i < items.len() - 1 {
            assert(joined(items, i));
        }
    }
    if items.len() > 0 {
        assert(items[0].wf());
    }
}

/// Nodes that lie end to end make a well-formed parent.
pub proof fn lemma_tiles_parent(kind: NodeKind, items: Seq<NodeModel>, lo: int, hi: int)
    requires
        tiles(items, lo, hi),
        items.len() > 0,
    ensures
        (NodeModel { kind, lo, hi, children: items }).wf(),
{
}

} // verus!
