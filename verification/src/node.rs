//! The semantic tree: what a parse of ABAP source yields.
use crate::text;
use vstd::prelude::*;

verus! {

/// The span of a node: lines and columns counted from zero.
#[derive(Clone, Copy, Debug, PartialEq, Eq, Structural)]
pub struct Position {
    pub start_line: u32,
    pub start_col: u32,
    pub end_line: u32,
    pub end_col: u32,
}

/// A node of the semantic tree.
#[derive(Debug)]
pub struct SemanticNode {
    pub id: String,
    pub node_type: String,
    pub label: String,
    pub position: Position,
    pub children: Vec<SemanticNode>,
}

/// What a `SemanticNode` stands for: the same tree over character sequences.
#[verifier::ext_equal]
pub struct SemanticTree {
    pub id: Seq<char>,
    pub node_type: Seq<char>,
    pub label: Seq<char>,
    pub position: Position,
    pub children: Seq<SemanticTree>,
}

impl SemanticNode {
    /// The tree that the node stands for.
    pub open spec fn model(self) -> SemanticTree
        decreases self,
    {
        SemanticTree {
            id: self.id@,
            node_type: self.node_type@,
            label: self.label@,
            position: self.position,
            children: Seq::new(
                self.children@.len(),
                |i: int|
                    if 0 <= i < self.children@.len() {
                        self.children@[i].model()
                    } else {
                        arbitrary()
                    },
            ),
        }
    }
}

/// The trees that a list of nodes stands for.
pub open spec fn models(nodes: Seq<SemanticNode>) -> Seq<SemanticTree> {
    nodes.map_values(|n: SemanticNode| n.model())
}

/// The children of a node's tree are the trees of its children.
pub broadcast proof fn lemma_model_children(n: SemanticNode)
    ensures
        #[trigger] n.model().children == models(n.children@),
{
    assert(n.model().children =~= models(n.children@));
}

/// The tree with the given fields.
pub open spec fn tree(
    id: Seq<char>,
    node_type: Seq<char>,
    label: Seq<char>,
    position: Position,
    children: Seq<SemanticTree>,
) -> SemanticTree {
    SemanticTree { id, node_type, label, position, children }
}

/// The span from the start of line `start` to the column `end_col` of line
/// `end`.
pub open spec fn span(start: u32, end: u32, end_col: u32) -> Position {
    Position { start_line: start, start_col: 0, end_line: end, end_col }
}

/// Builds a node.
pub fn build_node(
    id: &str,
    node_type: &str,
    label: &str,
    position: Position,
    children: Vec<SemanticNode>,
) -> (r: SemanticNode)
    ensures
        r.model() == tree(id@, node_type@, label@, position, models(children@)),
        r.children == children,
{
    let r = SemanticNode {
        id: id.to_string(),
        node_type: node_type.to_string(),
        label: label.to_string(),
        position,
        children,
    };
    proof {
        lemma_model_children(r);
    }
    r
}

/// A node without children at the start of a line.
pub fn leaf(id: &str, node_type: &str, label: &str, line: u32) -> (r: SemanticNode)
    ensures
        r.model() == tree(id@, node_type@, label@, span(line, line, 0), Seq::empty()),
{
    leaf_span(id, node_type, label, line, 0)
}

/// A node without children that covers a line up to the column `end_col`.
pub fn leaf_span(id: &str, node_type: &str, label: &str, line: u32, end_col: u32) -> (r:
    SemanticNode)
    ensures
        r.model() == tree(id@, node_type@, label@, span(line, line, end_col), Seq::empty()),
{
    let children: Vec<SemanticNode> = Vec::new();
    proof {
        assert(models(children@) == Seq::<SemanticTree>::empty());
    }
    build_node(
        id,
        node_type,
        label,
        Position { start_line: line, start_col: 0, end_line: line, end_col },
        children,
    )
}

/// A node that covers the lines from `start` to `end`.
pub fn block_node(
    id: &str,
    node_type: &str,
    label: &str,
    start: u32,
    end: u32,
    children: Vec<SemanticNode>,
) -> (r: SemanticNode)
    ensures
        r.model() == tree(id@, node_type@, label@, span(start, end, 0), models(children@)),
{
    build_node(
        id,
        node_type,
        label,
        Position { start_line: start, start_col: 0, end_line: end, end_col: 0 },
        children,
    )
}

/// The identifier of the child at `index` below the node `parent`: the two,
/// joined by a full stop.
pub open spec fn child_id(parent: Seq<char>, index: nat) -> Seq<char> {
    parent.push('.') + text::decimal(index)
}

/// Makes the identifier of the child at `index` below the node `parent`.
pub fn make_child_id(parent: &str, index: usize) -> (r: String)
    ensures
        r@ == child_id(parent@, index as nat),
{
    let mut id = parent.to_string();
    id.push('.');
    text::push_decimal(&mut id, index);
    id
}

} // verus!
