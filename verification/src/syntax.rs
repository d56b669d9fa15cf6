//! The concrete syntax tree: what the grammar makes of a source, as plain
//! values.
//!
//! `tree_sitter` parses with the ABAP grammar of `tree_sitter_abap_sqry`. Its
//! nodes are handles into memory of its own. This module reads them out into
//! `SyntaxTree`, which holds what the conversion to a semantic tree needs.
use vstd::prelude::*;

verus! {

// ---------------------------------------------------------------------------
// The grammar's tree
// ---------------------------------------------------------------------------

/// A row and a column, both counted from zero; the column counts bytes.
#[derive(Clone, Copy, Debug, PartialEq, Eq, Structural)]
pub struct Point {
    pub row: usize,
    pub column: usize,
}

/// What a node of the grammar's tree holds.
pub struct GrammarNode {
    /// The type of the node.
    pub kind: Seq<char>,
    /// Whether the node stands for text that the grammar does not accept.
    pub error: bool,
    /// Whether the parser made the node up to go on after an error.
    pub missing: bool,
    /// The offset of the node's first byte in the source.
    pub start_byte: usize,
    /// The offset behind the node's last byte.
    pub end_byte: usize,
    pub start: Point,
    pub end: Point,
    /// The first and last offset of the child in the field `name`.
    pub name: Option<(usize, usize)>,
    /// All children, by index.
    pub children: Seq<Option<GrammarNode>>,
    /// The children that are named rules of the grammar, by index.
    pub named_children: Seq<Option<GrammarNode>>,
}

/// A syntax tree of `tree_sitter`.
#[verifier::external_type_specification]
#[verifier::external_body]
pub struct ExTree(tree_sitter::Tree);

/// A node of a syntax tree of `tree_sitter`.
#[verifier::external_type_specification]
#[verifier::external_body]
pub struct ExNode<'tree>(tree_sitter::Node<'tree>);

/// The tree that `tree_sitter::Parser::parse` builds for a source with the
/// ABAP grammar.
pub uninterp spec fn grammar_tree(source: Seq<char>) -> Option<GrammarNode>;

/// What the root of a tree holds, with all that is below it.
pub uninterp spec fn tree_contents(tree: tree_sitter::Tree) -> GrammarNode;

/// What a node holds, with all that is below it.
pub uninterp spec fn node_contents(node: tree_sitter::Node<'_>) -> GrammarNode;

/// `tree_sitter::Parser::parse` of a whole text, on a new parser that was given
/// the ABAP grammar and neither an earlier tree nor a way to stop early. The
/// tree is a function of the text. There is none where the grammar and the
/// parser do not fit together.
#[verifier::external_body]
fn parse_with_grammar(source: &str) -> (r: Option<tree_sitter::Tree>)
    ensures
        match r {
            Some(tree) => grammar_tree(source@) == Some(tree_contents(tree)),
            None => grammar_tree(source@) is None,
        },
{
    let language = tree_sitter_abap_sqry::try_language().ok()?;
    let mut parser = tree_sitter::Parser::new();
    parser.set_language(&language).ok()?;
    parser.parse(source, None)
}

/// `tree_sitter::Tree::root_node`: the root of the tree.
#[verifier::external_body]
fn root_node<'tree>(tree: &'tree tree_sitter::Tree) -> (r: tree_sitter::Node<'tree>)
    ensures
        node_contents(r) == tree_contents(*tree),
{
    tree.root_node()
}

/// `tree_sitter::Node::kind`: the type of the node.
#[verifier::external_body]
fn node_kind(node: tree_sitter::Node<'_>) -> (r: &'static str)
    ensures
        r@ == node_contents(node).kind,
{
    node.kind()
}

/// `tree_sitter::Node::is_error`: whether the node is an error.
#[verifier::external_body]
fn node_is_error(node: tree_sitter::Node<'_>) -> (r: bool)
    ensures
        r == node_contents(node).error,
{
    node.is_error()
}

/// `tree_sitter::Node::is_missing`: whether the node was made up.
#[verifier::external_body]
fn node_is_missing(node: tree_sitter::Node<'_>) -> (r: bool)
    ensures
        r == node_contents(node).missing,
{
    node.is_missing()
}

/// `tree_sitter::Node::start_byte`: the offset of the first byte.
#[verifier::external_body]
fn node_start_byte(node: tree_sitter::Node<'_>) -> (r: usize)
    ensures
        r == node_contents(node).start_byte,
{
    node.start_byte()
}

/// `tree_sitter::Node::end_byte`: the offset behind the last byte.
#[verifier::external_body]
fn node_end_byte(node: tree_sitter::Node<'_>) -> (r: usize)
    ensures
        r == node_contents(node).end_byte,
{
    node.end_byte()
}

/// `tree_sitter::Node::start_position`: row and column of the start.
#[verifier::external_body]
fn node_start(node: tree_sitter::Node<'_>) -> (r: Point)
    ensures
        r == node_contents(node).start,
{
    let point = node.start_position();
    Point { row: point.row, column: point.column }
}

/// `tree_sitter::Node::end_position`: row and column of the end.
#[verifier::external_body]
fn node_end(node: tree_sitter::Node<'_>) -> (r: Point)
    ensures
        r == node_contents(node).end,
{
    let point = node.end_position();
    Point { row: point.row, column: point.column }
}

/// `tree_sitter::Node::child_count`: the number of children, which the C
/// library counts in 32 bits.
#[verifier::external_body]
fn node_child_count(node: tree_sitter::Node<'_>) -> (r: usize)
    ensures
        r == node_contents(node).children.len(),
        r <= u32::MAX,
{
    node.child_count()
}

/// `tree_sitter::Node::child`: the child at an index below the number of
/// children.
#[verifier::external_body]
fn node_child<'tree>(node: tree_sitter::Node<'tree>, i: u32) -> (r: Option<
    tree_sitter::Node<'tree>,
>)
    requires
        i < node_contents(node).children.len(),
    ensures
        match r {
            Some(child) => node_contents(node).children[i as int] == Some(node_contents(child)),
            None => node_contents(node).children[i as int] is None,
        },
{
    node.child(i)
}

/// `tree_sitter::Node::named_child_count`: the number of named children, which
/// the C library counts in 32 bits.
#[verifier::external_body]
fn node_named_child_count(node: tree_sitter::Node<'_>) -> (r: usize)
    ensures
        r == node_contents(node).named_children.len(),
        r <= u32::MAX,
{
    node.named_child_count()
}

/// `tree_sitter::Node::named_child`: the named child at an index below the
/// number of named children.
#[verifier::external_body]
fn node_named_child<'tree>(node: tree_sitter::Node<'tree>, i: u32) -> (r: Option<
    tree_sitter::Node<'tree>,
>)
    requires
        i < node_contents(node).named_children.len(),
    ensures
        match r {
            Some(child) => node_contents(node).named_children[i as int] == Some(
                node_contents(child),
            ),
            None => node_contents(node).named_children[i as int] is None,
        },
{
    node.named_child(i)
}

/// `tree_sitter::Node::child_by_field_name` for the field `name`: the first
/// child in that field.
#[verifier::external_body]
fn node_name_field<'tree>(node: tree_sitter::Node<'tree>) -> (r: Option<tree_sitter::Node<'tree>>)
    ensures
        match r {
            Some(child) => node_contents(node).name == Some(
                (node_contents(child).start_byte, node_contents(child).end_byte),
            ),
            None => node_contents(node).name is None,
        },
{
    node.child_by_field_name("name")
}

/// `tree_sitter::Node::utf8_text`: the node's part of the source as text, where
/// it is valid UTF-8.
#[verifier::external_body]
fn node_text<'a>(node: tree_sitter::Node<'_>, source: &'a str) -> (r: Option<&'a str>)
    requires
        node_contents(node).start_byte <= node_contents(node).end_byte,
        node_contents(node).end_byte <= vstd::utf8::encode_utf8(source@).len(),
    ensures
        ({
            let part = vstd::utf8::encode_utf8(source@).subrange(
                node_contents(node).start_byte as int,
                node_contents(node).end_byte as int,
            );
            match r {
                Some(text) => vstd::utf8::valid_utf8(part) && text@ == vstd::utf8::decode_utf8(part),
                None => !vstd::utf8::valid_utf8(part),
            }
        }),
{
    node.utf8_text(source.as_bytes()).ok()
}

// ---------------------------------------------------------------------------
// Shape
// ---------------------------------------------------------------------------

/// A tree with all its nodes, reduced to where the errors are.
#[derive(Debug)]
pub struct Shape {
    pub error: bool,
    pub missing: bool,
    pub children: Vec<Option<Shape>>,
}

/// What a `Shape` stands for.
#[verifier::ext_equal]
pub struct ShapeModel {
    pub error: bool,
    pub missing: bool,
    pub children: Seq<Option<ShapeModel>>,
}

impl Shape {
    /// The tree that the shape stands for.
    pub open spec fn model(self) -> ShapeModel
        decreases self,
    {
        ShapeModel {
            error: self.error,
            missing: self.missing,
            children: Seq::new(
                self.children@.len(),
                |i: int|
                    if 0 <= i < self.children@.len() {
                        match self.children@[i] {
                            Some(child) => Some(child.model()),
                            None => None,
                        }
                    } else {
                        None
                    },
            ),
        }
    }
}

/// The shape of a node of the grammar's tree.
pub open spec fn shape_of(node: GrammarNode) -> ShapeModel
    decreases node,
{
    ShapeModel {
        error: node.error,
        missing: node.missing,
        children: Seq::new(
            node.children.len(),
            |i: int|
                if 0 <= i < node.children.len() {
                    match node.children[i] {
                        Some(child) => Some(shape_of(child)),
                        None => None,
                    }
                } else {
                    None
                },
        ),
    }
}

/// The number of nodes in a tree.
pub open spec fn node_count(shape: ShapeModel) -> nat
    decreases shape,
{
    1 + node_counts(shape.children)
}

/// The number of nodes in a list of trees.
pub open spec fn node_counts(shapes: Seq<Option<ShapeModel>>) -> nat
    decreases shapes,
{
    if shapes.len() == 0 {
        0
    } else {
        node_counts(shapes.drop_last()) + match shapes.last() {
            Some(shape) => node_count(shape),
            None => 0,
        }
    }
}

/// A part of a list of trees has no more nodes than the list.
pub proof fn lemma_node_counts_take(shapes: Seq<Option<ShapeModel>>, n: int)
    requires
        0 <= n <= shapes.len(),
    ensures
        node_counts(shapes.take(n)) <= node_counts(shapes),
    decreases shapes.len(),
{
    if n < shapes.len() {
        lemma_node_counts_take(shapes.drop_last(), n);
        assert(shapes.drop_last().take(n) == shapes.take(n));
    } else {
        assert(shapes.take(n) == shapes);
    }
}

/// Reads the shape of a node.
fn read_shape(node: tree_sitter::Node<'_>) -> (r: Shape)
    ensures
        r.model() == shape_of(node_contents(node)),
    decreases node_contents(node),
{
    let ghost contents = node_contents(node);
    let n: usize = node_child_count(node);
    let mut children: Vec<Option<Shape>> = Vec::new();
    let mut i: usize = 0;
    while i < n
        invariant
            i <= n <= u32::MAX,
            contents == node_contents(node),
            n == contents.children.len(),
            children@.len() == i,
            forall|k: int|
                0 <= k < i ==> match #[trigger] children@[k] {
                    Some(child) => shape_of(contents).children[k] == Some(child.model()),
                    None => shape_of(contents).children[k] is None,
                },
        decreases n - i,
    {
        assert(contents.children[i as int] is Some ==> decreases_to!(
            contents => contents.children[i as int]->0
        ));
        let child: Option<Shape> = match node_child(node, i as u32) {
            Some(child) => Some(read_shape(child)),
            None => None,
        };
        children.push(child);
        i += 1;
    }
    let r = Shape { error: node_is_error(node), missing: node_is_missing(node), children };
    proof {
        assert forall|k: int| 0 <= k < n implies r.model().children[k] == shape_of(
            contents,
        ).children[k] by {
            assert(r.children@[k] == children@[k]);
        }
        assert(r.model().children =~= shape_of(contents).children);
    }
    r
}

/// Counts the nodes of a tree, as long as the number fits.
fn checked_size(shape: &Shape) -> (r: Option<usize>)
    ensures
        match r {
            Some(n) => n == node_count(shape.model()),
            None => node_count(shape.model()) > usize::MAX,
        },
    decreases *shape,
{
    let ghost all = shape.model().children;
    let mut total: usize = 1;
    let mut i: usize = 0;
    proof {
        assert(all.take(0).len() == 0);
    }
    while i < shape.children.len()
        invariant
            i <= shape.children@.len(),
            all == shape.model().children,
            total == 1 + node_counts(all.take(i as int)),
        decreases shape.children@.len() - i,
    {
        proof {
            assert(all.take(i + 1).drop_last() == all.take(i as int));
            lemma_node_counts_take(all, i + 1);
        }
        if let Some(child) = &shape.children[i] {
            match checked_size(child) {
                Some(n) => match total.checked_add(n) {
                    Some(sum) => {
                        total = sum;
                    },
                    None => {
                        return None;
                    },
                },
                None => {
                    return None;
                },
            }
        }
        i += 1;
    }
    proof {
        assert(all.take(i as int) == all);
    }
    Some(total)
}

// ---------------------------------------------------------------------------
// Named nodes
// ---------------------------------------------------------------------------

/// A node with its named children.
#[derive(Debug)]
pub struct SyntaxNode<'a> {
    /// The type of the node.
    pub kind: &'a str,
    /// Whether the node stands for text that the grammar does not accept.
    pub error: bool,
    /// Whether the parser made the node up to go on after an error.
    pub missing: bool,
    /// The node's part of the source.
    pub text: &'a str,
    /// The text of the child in the field `name`.
    pub name: Option<&'a str>,
    pub start: Point,
    pub end: Point,
    /// The named children, by index.
    pub children: Vec<Option<SyntaxNode<'a>>>,
}

/// What a `SyntaxNode` stands for.
#[verifier::ext_equal]
pub struct SyntaxModel {
    pub kind: Seq<char>,
    pub error: bool,
    pub missing: bool,
    pub text: Seq<char>,
    pub name: Option<Seq<char>>,
    pub start: Point,
    pub end: Point,
    pub children: Seq<Option<SyntaxModel>>,
}

impl<'a> SyntaxNode<'a> {
    /// The tree that the node stands for.
    pub open spec fn model(self) -> SyntaxModel
        decreases self,
    {
        SyntaxModel {
            kind: self.kind@,
            error: self.error,
            missing: self.missing,
            text: self.text@,
            name: match self.name {
                Some(name) => Some(name@),
                None => None,
            },
            start: self.start,
            end: self.end,
            children: Seq::new(
                self.children@.len(),
                |i: int|
                    if 0 <= i < self.children@.len() {
                        match self.children@[i] {
                            Some(child) => Some(child.model()),
                            None => None,
                        }
                    } else {
                        None
                    },
            ),
        }
    }
}

/// The text between two offsets of a source; empty, where the bytes there are
/// not valid UTF-8.
pub open spec fn text_between(source: Seq<char>, start: int, end: int) -> Seq<char> {
    let part = vstd::utf8::encode_utf8(source).subrange(start, end);
    if vstd::utf8::valid_utf8(part) {
        vstd::utf8::decode_utf8(part)
    } else {
        Seq::empty()
    }
}

/// A node of the grammar's tree for `source`, with its named children.
pub open spec fn named_tree(node: GrammarNode, source: Seq<char>) -> SyntaxModel
    decreases node,
{
    SyntaxModel {
        kind: node.kind,
        error: node.error,
        missing: node.missing,
        text: text_between(source, node.start_byte as int, node.end_byte as int),
        name: match node.name {
            Some((start, end)) => Some(text_between(source, start as int, end as int)),
            None => None,
        },
        start: node.start,
        end: node.end,
        children: Seq::new(
            node.named_children.len(),
            |i: int|
                if 0 <= i < node.named_children.len() {
                    match node.named_children[i] {
                        Some(child) => Some(named_tree(child, source)),
                        None => None,
                    }
                } else {
                    None
                },
        ),
    }
}

/// Whether the named nodes of a tree lie within a source of `len` bytes.
pub open spec fn in_bounds(node: GrammarNode, len: int) -> bool
    decreases node,
{
    &&& node.start_byte <= node.end_byte <= len
    &&& match node.name {
        Some((start, end)) => start <= end <= len,
        None => true,
    }
    &&& forall|i: int|
        0 <= i < node.named_children.len() ==> match #[trigger] node.named_children[i] {
            Some(child) => in_bounds(child, len),
            None => true,
        }
}

/// Tells whether the named nodes from `node` on lie within a source of `len`
/// bytes.
fn check_bounds(node: tree_sitter::Node<'_>, len: usize) -> (r: bool)
    ensures
        r == in_bounds(node_contents(node), len as int),
    decreases node_contents(node),
{
    let ghost contents = node_contents(node);
    if node_start_byte(node) > node_end_byte(node) || node_end_byte(node) > len {
        return false;
    }
    if let Some(name) = node_name_field(node) {
        if node_start_byte(name) > node_end_byte(name) || node_end_byte(name) > len {
            return false;
        }
    }
    let n: usize = node_named_child_count(node);
    let mut i: usize = 0;
    while i < n
        invariant
            i <= n <= u32::MAX,
            contents == node_contents(node),
            n == contents.named_children.len(),
            forall|k: int|
                0 <= k < i ==> match #[trigger] contents.named_children[k] {
                    Some(child) => in_bounds(child, len as int),
                    None => true,
                },
        decreases n - i,
    {
        if let Some(child) = node_named_child(node, i as u32) {
            if !check_bounds(child, len) {
                assert(contents.named_children[i as int] is Some);
                return false;
            }
        }
        i += 1;
    }
    true
}

/// Returns the node's part of the source, or nothing where it is not valid
/// UTF-8.
fn ts_text<'a>(node: tree_sitter::Node<'_>, source: &'a str) -> (r: &'a str)
    requires
        node_contents(node).start_byte <= node_contents(node).end_byte,
        node_contents(node).end_byte <= vstd::utf8::encode_utf8(source@).len(),
    ensures
        r@ == text_between(
            source@,
            node_contents(node).start_byte as int,
            node_contents(node).end_byte as int,
        ),
{
    match node_text(node, source) {
        Some(text) => text,
        None => {
            proof {
                reveal_strlit("");
                assert(""@ =~= Seq::<char>::empty());
            }
            ""
        },
    }
}

/// Reads a node with its named children.
fn read_node<'a>(node: tree_sitter::Node<'_>, source: &'a str) -> (r: SyntaxNode<'a>)
    requires
        in_bounds(node_contents(node), vstd::utf8::encode_utf8(source@).len() as int),
    ensures
        r.model() == named_tree(node_contents(node), source@),
    decreases node_contents(node),
{
    let ghost contents = node_contents(node);
    let n: usize = node_named_child_count(node);
    let mut children: Vec<Option<SyntaxNode<'a>>> = Vec::new();
    let mut i: usize = 0;
    while i < n
        invariant
            i <= n <= u32::MAX,
            contents == node_contents(node),
            in_bounds(contents, vstd::utf8::encode_utf8(source@).len() as int),
            n == contents.named_children.len(),
            children@.len() == i,
            forall|k: int|
                0 <= k < i ==> match #[trigger] children@[k] {
                    Some(child) => named_tree(contents, source@).children[k] == Some(child.model()),
                    None => named_tree(contents, source@).children[k] is None,
                },
        decreases n - i,
    {
        assert(contents.named_children[i as int] is Some ==> in_bounds(
            contents.named_children[i as int]->0,
            vstd::utf8::encode_utf8(source@).len() as int,
        ));
        let child: Option<SyntaxNode<'a>> = match node_named_child(node, i as u32) {
            Some(child) => Some(read_node(child, source)),
            None => None,
        };
        children.push(child);
        i += 1;
    }
    let text: &'a str = ts_text(node, source);
    let name: Option<&'a str> = match node_name_field(node) {
        Some(child) => Some(ts_text(child, source)),
        None => None,
    };
    let r = SyntaxNode {
        kind: node_kind(node),
        error: node_is_error(node),
        missing: node_is_missing(node),
        text,
        name,
        start: node_start(node),
        end: node_end(node),
        children,
    };
    proof {
        assert forall|k: int| 0 <= k < n implies r.model().children[k] == named_tree(
            contents,
            source@,
        ).children[k] by {
            assert(r.children@[k] == children@[k]);
        }
        assert(r.model().children =~= named_tree(contents, source@).children);
    }
    r
}

// ---------------------------------------------------------------------------
// Trees
// ---------------------------------------------------------------------------

/// The concrete syntax tree of a source.
#[derive(Debug)]
pub struct SyntaxTree<'a> {
    /// All nodes, reduced to where the errors are.
    pub shape: Shape,
    /// The root with its named children.
    pub root: SyntaxNode<'a>,
}

impl<'a> SyntaxTree<'a> {
    /// The number of nodes fits the machine.
    pub open spec fn well_formed(self) -> bool {
        node_count(self.shape.model()) <= usize::MAX
    }
}

/// Whether a tree of the grammar can be read: its named nodes lie within the
/// source, and the number of its nodes fits the machine.
pub open spec fn readable(root: GrammarNode, source: Seq<char>) -> bool {
    &&& in_bounds(root, vstd::utf8::encode_utf8(source).len() as int)
    &&& node_count(shape_of(root)) <= usize::MAX
}

/// Parses a source with the ABAP grammar.
///
/// There is no tree where the grammar yields none that can be read.
pub fn parse_tree<'a>(source: &'a str) -> (r: Option<SyntaxTree<'a>>)
    ensures
        match r {
            Some(tree) => grammar_tree(source@) matches Some(root) && readable(root, source@)
                && tree.well_formed() && tree.shape.model() == shape_of(root) && tree.root.model()
                == named_tree(root, source@),
            None => grammar_tree(source@) matches Some(root) ==> !readable(root, source@),
        },
{
    let tree = match parse_with_grammar(source) {
        Some(tree) => tree,
        None => {
            return None;
        },
    };
    let root = root_node(&tree);
    let bytes: &[u8] = source.as_bytes();
    if !check_bounds(root, bytes.len()) {
        return None;
    }
    let shape = read_shape(root);
    if checked_size(&shape).is_none() {
        return None;
    }
    Some(SyntaxTree { shape, root: read_node(root, source) })
}

} // verus!
