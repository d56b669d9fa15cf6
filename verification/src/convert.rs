//! From the concrete syntax tree to the semantic tree.
use crate::node;
use crate::node::{Position, SemanticNode, SemanticTree};
use crate::scanner;
use crate::syntax;
use crate::syntax::{Shape, SyntaxNode, SyntaxTree};
use crate::text;
use crate::text::CharClass;
use vstd::prelude::*;

verus! {

// ---------------------------------------------------------------------------
// Kinds of nodes
// ---------------------------------------------------------------------------

/// The kinds of nodes that declare or implement something with a signature.
pub open spec fn is_entity(kind: Seq<char>) -> bool {
    ||| kind == "class_declaration"@
    ||| kind == "class_implementation"@
    ||| kind == "function_implementation"@
    ||| kind == "interface_declaration"@
    ||| kind == "method_implementation"@
    ||| kind == "method_declaration"@
    ||| kind == "class_method_declaration"@
}

/// The kinds of nodes that are statements.
pub open spec fn is_statement(kind: Seq<char>) -> bool {
    ||| kind == "assignment"@
    ||| kind == "call_function"@
    ||| kind == "call_method"@
    ||| kind == "call_method_instance"@
    ||| kind == "call_method_static"@
    ||| kind == "chained_variable_declaration"@
    ||| kind == "chained_write_statement"@
    ||| kind == "variable_declaration"@
    ||| kind == "write_statement"@
}

/// The kinds of nodes that are kept though they have no children.
pub open spec fn is_leaf(kind: Seq<char>) -> bool {
    ||| kind == "character_literal"@
    ||| kind == "field_symbol_name"@
    ||| kind == "name"@
    ||| kind == "numeric_literal"@
    ||| kind == "string"@
    ||| kind == "structured_data_object"@
}

/// The kinds of nodes that are names.
pub open spec fn is_name(kind: Seq<char>) -> bool {
    ||| kind == "name"@
    ||| kind == "structured_data_object"@
    ||| kind == "field_symbol_name"@
}

/// Tells whether a node of the given kind has a signature.
pub fn is_entity_kind(kind: &str) -> (r: bool)
    ensures
        r == is_entity(kind@),
{
    text::same_text(kind, "class_declaration") || text::same_text(kind, "class_implementation")
        || text::same_text(kind, "function_implementation") || text::same_text(
        kind,
        "interface_declaration",
    ) || text::same_text(kind, "method_implementation") || text::same_text(
        kind,
        "method_declaration",
    ) || text::same_text(kind, "class_method_declaration")
}

/// Tells whether a node of the given kind is a statement.
pub fn is_statement_kind(kind: &str) -> (r: bool)
    ensures
        r == is_statement(kind@),
{
    text::same_text(kind, "assignment") || text::same_text(kind, "call_function")
        || text::same_text(kind, "call_method") || text::same_text(kind, "call_method_instance")
        || text::same_text(kind, "call_method_static") || text::same_text(
        kind,
        "chained_variable_declaration",
    ) || text::same_text(kind, "chained_write_statement") || text::same_text(
        kind,
        "variable_declaration",
    ) || text::same_text(kind, "write_statement")
}

/// Tells whether a node of the given kind is kept though it has no children.
pub fn is_leaf_kind(kind: &str) -> (r: bool)
    ensures
        r == is_leaf(kind@),
{
    text::same_text(kind, "character_literal") || text::same_text(kind, "field_symbol_name")
        || text::same_text(kind, "name") || text::same_text(kind, "numeric_literal")
        || text::same_text(kind, "string") || text::same_text(kind, "structured_data_object")
}

/// Tells whether a node of the given kind is a name.
pub fn is_name_kind(kind: &str) -> (r: bool)
    ensures
        r == is_name(kind@),
{
    text::same_text(kind, "name") || text::same_text(kind, "structured_data_object")
        || text::same_text(kind, "field_symbol_name")
}

/// The type of the semantic node for a kind of node, where it has one.
pub open spec fn semantic_type(kind: Seq<char>) -> Option<Seq<char>> {
    if kind == "program"@ {
        Some("program"@)
    } else if kind == "report_statement"@ {
        Some("report"@)
    } else if kind == "class_declaration"@ {
        Some("class_definition"@)
    } else if kind == "class_implementation"@ {
        Some("class_impl"@)
    } else if kind == "function_implementation"@ {
        Some("function_module"@)
    } else if kind == "interface_declaration"@ {
        Some("interface"@)
    } else if kind == "method_implementation"@ || kind == "method_declaration"@ || kind
        == "class_method_declaration"@ {
        Some("method"@)
    } else if kind == "method_body"@ {
        Some("statement_list"@)
    } else if kind == "assignment"@ {
        Some("assignment_statement"@)
    } else if kind == "chained_variable_declaration"@ || kind == "variable_declaration"@ {
        Some("data_declaration"@)
    } else if kind == "chained_write_statement"@ || kind == "write_statement"@ {
        Some("write_statement"@)
    } else if kind == "call_function"@ || kind == "call_method"@ || kind
        == "call_method_instance"@ || kind == "call_method_static"@ {
        Some("call_expression"@)
    } else if kind == "character_literal"@ || kind == "string"@ {
        Some("string_literal"@)
    } else if kind == "numeric_literal"@ {
        Some("numeric_literal"@)
    } else if is_name(kind) {
        Some("identifier"@)
    } else {
        None
    }
}

/// Returns the type of the semantic node for a kind of node, where it has one.
pub fn ts_semantic_type(kind: &str) -> (r: Option<&'static str>)
    ensures
        match r {
            Some(node_type) => semantic_type(kind@) == Some(node_type@),
            None => semantic_type(kind@) is None,
        },
{
    if text::same_text(kind, "program") {
        Some("program")
    } else if text::same_text(kind, "report_statement") {
        Some("report")
    } else if text::same_text(kind, "class_declaration") {
        Some("class_definition")
    } else if text::same_text(kind, "class_implementation") {
        Some("class_impl")
    } else if text::same_text(kind, "function_implementation") {
        Some("function_module")
    } else if text::same_text(kind, "interface_declaration") {
        Some("interface")
    } else if text::same_text(kind, "method_implementation") || text::same_text(
        kind,
        "method_declaration",
    ) || text::same_text(kind, "class_method_declaration") {
        Some("method")
    } else if text::same_text(kind, "method_body") {
        Some("statement_list")
    } else if text::same_text(kind, "assignment") {
        Some("assignment_statement")
    } else if text::same_text(kind, "chained_variable_declaration") || text::same_text(
        kind,
        "variable_declaration",
    ) {
        Some("data_declaration")
    } else if text::same_text(kind, "chained_write_statement") || text::same_text(
        kind,
        "write_statement",
    ) {
        Some("write_statement")
    } else if text::same_text(kind, "call_function") || text::same_text(kind, "call_method")
        || text::same_text(kind, "call_method_instance") || text::same_text(
        kind,
        "call_method_static",
    ) {
        Some("call_expression")
    } else if text::same_text(kind, "character_literal") || text::same_text(kind, "string") {
        Some("string_literal")
    } else if text::same_text(kind, "numeric_literal") {
        Some("numeric_literal")
    } else if is_name_kind(kind) {
        Some("identifier")
    } else {
        None
    }
}

// ---------------------------------------------------------------------------
// Labels
// ---------------------------------------------------------------------------

/// A text without white space around it and without the full stops at its end.
pub open spec fn bare_text(s: Seq<char>) -> Seq<char> {
    text::trim(text::trim_end(text::trim(s), CharClass::Dot))
}

/// Removes white space around a text and the full stops at its end.
pub fn strip_text<'a>(s: &'a str) -> (r: &'a str)
    ensures
        r@ == bare_text(s@),
{
    text::trimmed(text::trim_end_matches(text::trimmed(s), CharClass::Dot))
}

/// Returns the text of a node without white space around it and without the
/// full stops at its end.
pub fn ts_trimmed(node: &SyntaxNode<'_>) -> (r: String)
    ensures
        r@ == bare_text(node.model().text),
{
    strip_text(node.text).to_string()
}

/// The first of the first `n` named children that is a name and not empty.
pub open spec fn first_name(children: Seq<Option<syntax::SyntaxModel>>, n: nat) -> Option<Seq<char>>
    decreases n,
{
    if n == 0 || n > children.len() {
        None
    } else {
        match first_name(children, (n - 1) as nat) {
            Some(name) => Some(name),
            None => match children[n - 1] {
                Some(child) => if is_name(child.kind) && bare_text(child.text).len() > 0 {
                    Some(bare_text(child.text))
                } else {
                    None
                },
                None => None,
            },
        }
    }
}

/// The text that names a node: that in its field `name`, else that of its first
/// child that is a name, else its own, none of which is empty.
pub open spec fn naming_text(n: syntax::SyntaxModel) -> Option<Seq<char>> {
    if n.name is Some && bare_text(n.name->0).len() > 0 {
        Some(bare_text(n.name->0))
    } else if first_name(n.children, n.children.len()) is Some {
        first_name(n.children, n.children.len())
    } else if bare_text(n.text).len() > 0 {
        Some(bare_text(n.text))
    } else {
        None
    }
}

/// The name of a node: the text that names it in upper case, or its kind.
pub open spec fn name_of(n: syntax::SyntaxModel) -> Seq<char> {
    match naming_text(n) {
        Some(name) => text::upper(name),
        None => n.kind,
    }
}

/// Returns the text that names a node, which is never empty.
pub fn find_name<'a>(node: &SyntaxNode<'a>) -> (r: Option<&'a str>)
    ensures
        match r {
            Some(name) => naming_text(node.model()) == Some(name@) && name@.len() > 0,
            None => naming_text(node.model()) is None,
        },
{
    let ghost children = node.model().children;
    if let Some(name) = node.name {
        let label = strip_text(name);
        if !label.is_empty() {
            return Some(label);
        }
    }
    let mut i: usize = 0;
    while i < node.children.len()
        invariant
            i <= node.children@.len(),
            children == node.model().children,
            node.model().name is Some ==> bare_text(node.model().name->0).len() == 0,
            first_name(children, i as nat) is None,
        decreases node.children@.len() - i,
    {
        proof {
            assert(node.children@[i as int] is Some ==> children[i as int] == Some(
                node.children@[i as int]->0.model(),
            ));
            assert(node.children@[i as int] is None ==> children[i as int] is None);
        }
        if let Some(child) = &node.children[i] {
            if is_name_kind(child.kind) {
                let label = strip_text(child.text);
                if !label.is_empty() {
                    proof {
                        lemma_first_name_stays(children, (i + 1) as nat, children.len());
                    }
                    return Some(label);
                }
            }
        }
        i += 1;
    }
    let label = strip_text(node.text);
    if label.is_empty() {
        None
    } else {
        Some(label)
    }
}

/// The first name among some children stays the first among more.
proof fn lemma_first_name_stays(children: Seq<Option<syntax::SyntaxModel>>, n: nat, m: nat)
    requires
        n <= m <= children.len(),
        first_name(children, n) is Some,
    ensures
        first_name(children, m) == first_name(children, n),
    decreases m,
{
    if n < m {
        lemma_first_name_stays(children, n, (m - 1) as nat);
    }
}

/// Returns the name of a node, which is empty only where the node is not named
/// and its kind is empty.
pub fn ts_name(node: &SyntaxNode<'_>) -> (r: String)
    ensures
        r@ == name_of(node.model()),
        r@.len() == 0 <==> naming_text(node.model()) is None && node.model().kind.len() == 0,
{
    match find_name(node) {
        Some(name) => text::uppercase(name),
        None => node.kind.to_string(),
    }
}

/// What a write statement writes.
pub open spec fn written(s: Seq<char>) -> Seq<char> {
    text::trim(
        if text::has_prefix(s, "WRITE:"@) {
            s.skip("WRITE:"@.len() as int)
        } else if text::has_prefix(s, "write:"@) {
            s.skip("write:"@.len() as int)
        } else {
            s
        },
    )
}

/// Returns what a write statement writes.
pub fn strip_write<'a>(s: &'a str) -> (r: &'a str)
    ensures
        r@ == written(s@),
{
    let rest: &'a str = match text::strip_prefix(s, "WRITE:") {
        Some(rest) => rest,
        None => match text::strip_prefix(s, "write:") {
            Some(rest) => rest,
            None => s,
        },
    };
    text::trimmed(rest)
}

/// The types of semantic nodes that bear the name of their node.
pub open spec fn is_named_type(node_type: Seq<char>) -> bool {
    ||| node_type == "report"@
    ||| node_type == "class_definition"@
    ||| node_type == "class_impl"@
    ||| node_type == "function_module"@
    ||| node_type == "interface"@
    ||| node_type == "method"@
    ||| node_type == "call_expression"@
    ||| node_type == "data_declaration"@
}

/// The label of the semantic node of the given type.
pub open spec fn label_of(n: syntax::SyntaxModel, node_type: Seq<char>) -> Seq<char> {
    if node_type == "program"@ || node_type == "statement_list"@ {
        node_type
    } else if is_named_type(node_type) {
        name_of(n)
    } else if node_type == "identifier"@ {
        text::upper(bare_text(n.text))
    } else if node_type == "write_statement"@ {
        written(bare_text(n.text))
    } else {
        bare_text(n.text)
    }
}

/// Returns the label of the semantic node of the given type. A node that bears a
/// name has a label, unless its kind is empty.
pub fn ts_label(node: &SyntaxNode<'_>, node_type: &str) -> (r: String)
    ensures
        r@ == label_of(node.model(), node_type@),
        is_named_type(node_type@) && node.model().kind.len() > 0 ==> r@.len() > 0,
{
    proof {
        reveal_strlit("program");
        reveal_strlit("statement_list");
    }
    if text::same_text(node_type, "program") {
        "program".to_string()
    } else if text::same_text(node_type, "statement_list") {
        "statement_list".to_string()
    } else if text::same_text(node_type, "report") || text::same_text(
        node_type,
        "class_definition",
    ) || text::same_text(node_type, "class_impl") || text::same_text(node_type, "function_module")
        || text::same_text(node_type, "interface") || text::same_text(node_type, "method")
        || text::same_text(node_type, "call_expression") || text::same_text(
        node_type,
        "data_declaration",
    ) {
        ts_name(node)
    } else if text::same_text(node_type, "identifier") {
        text::uppercase(strip_text(node.text))
    } else if text::same_text(node_type, "write_statement") {
        strip_write(strip_text(node.text)).to_string()
    } else {
        ts_trimmed(node)
    }
}

// ---------------------------------------------------------------------------
// Nodes
// ---------------------------------------------------------------------------

/// The span of the semantic node for a node.
pub open spec fn place(n: syntax::SyntaxModel) -> Position {
    Position {
        start_line: n.start.row as u32,
        start_col: n.start.column as u32,
        end_line: n.end.row as u32,
        end_col: n.end.column as u32,
    }
}

/// Returns the span of the semantic node for a node.
pub fn ts_position(node: &SyntaxNode<'_>) -> (r: Position)
    ensures
        r == place(node.model()),
{
    Position {
        start_line: node.start.row as u32,
        start_col: node.start.column as u32,
        end_line: node.end.row as u32,
        end_col: node.end.column as u32,
    }
}

/// The signature of a node: its first line in upper case, without white space
/// around it and without the full stops at its end.
pub open spec fn header_of(n: syntax::SyntaxModel) -> Seq<char> {
    text::upper(bare_text(text::first_line_of(n.text)))
}

/// The node for the signature `header` of a node.
pub open spec fn header_tree(
    id: Seq<char>,
    n: syntax::SyntaxModel,
    header: Seq<char>,
) -> SemanticTree {
    node::tree(
        node::child_id(id, 0),
        "signature"@,
        header,
        node::span(n.start.row as u32, n.start.row as u32, n.end.column as u32),
        Seq::empty(),
    )
}

/// Builds the node for the signature of a node, where it has one.
pub fn ts_signature_child(id_prefix: &str, node: &SyntaxNode<'_>) -> (r: Option<SemanticNode>)
    ensures
        match r {
            Some(child) => header_of(node.model()).len() > 0 && child.model() == header_tree(
                id_prefix@,
                node.model(),
                header_of(node.model()),
            ),
            None => header_of(node.model()).len() == 0,
        },
{
    let header = text::uppercase(strip_text(text::first_line(node.text)));
    if header.as_str().is_empty() {
        return None;
    }
    let id = node::make_child_id(id_prefix, 0);
    Some(
        node::leaf_span(
            id.as_str(),
            "signature",
            header.as_str(),
            node.start.row as u32,
            node.end.column as u32,
        ),
    )
}

/// Whether a node keeps its place in the semantic tree without children.
pub open spec fn stands_alone(kind: Seq<char>) -> bool {
    ||| is_entity(kind)
    ||| is_statement(kind)
    ||| is_leaf(kind)
    ||| kind == "report_statement"@
    ||| kind == "program"@
}

/// The semantic tree for a node, with the identifier `id`.
///
/// Errors and nodes that the parser made up have none. A node whose kind has no
/// semantic type gives way to its only child, vanishes without children, and
/// else keeps its kind.
pub open spec fn converted(n: syntax::SyntaxModel, id: Seq<char>) -> Option<SemanticTree>
    decreases n, n.children.len() + 1,
{
    let children = signature_part(n, id) + converted_children(n, id, n.children.len());
    if n.error || n.missing {
        None
    } else {
        match semantic_type(n.kind) {
            Some(node_type) => if children.len() == 0 && !stands_alone(n.kind) {
                None
            } else {
                Some(node::tree(id, node_type, label_of(n, node_type), place(n), children))
            },
            None => if children.len() == 0 {
                None
            } else if children.len() == 1 {
                Some(children[0])
            } else {
                Some(node::tree(id, n.kind, n.kind, place(n), children))
            },
        }
    }
}

/// The node for the signature of a node, where its kind has one.
pub open spec fn signature_part(n: syntax::SyntaxModel, id: Seq<char>) -> Seq<SemanticTree> {
    if is_entity(n.kind) && header_of(n).len() > 0 {
        seq![header_tree(id, n, header_of(n))]
    } else {
        Seq::empty()
    }
}

/// The semantic trees for the first `k` named children of a node. The name of
/// an entity is in its label and gets no node of its own.
pub open spec fn converted_children(n: syntax::SyntaxModel, id: Seq<char>, k: nat) -> Seq<
    SemanticTree,
>
    decreases n, k,
{
    if k == 0 || k > n.children.len() {
        Seq::empty()
    } else {
        let before = converted_children(n, id, (k - 1) as nat);
        match n.children[k - 1] {
            Some(child) => if child.kind == "name"@ && is_entity(n.kind) {
                before
            } else {
                match converted(child, node::child_id(id, (k - 1) as nat)) {
                    Some(t) => before.push(t),
                    None => before,
                }
            },
            None => before,
        }
    }
}

/// Converts a node to a semantic node.
pub fn ts_convert(node: &SyntaxNode<'_>, id_prefix: &str) -> (r: Option<SemanticNode>)
    ensures
        match r {
            Some(t) => converted(node.model(), id_prefix@) == Some(t.model()),
            None => converted(node.model(), id_prefix@) is None,
        },
    decreases *node,
{
    if node.error || node.missing {
        return None;
    }
    let ghost n = node.model();
    let entity = is_entity_kind(node.kind);
    let mut children: Vec<SemanticNode> = Vec::new();
    if entity {
        if let Some(signature) = ts_signature_child(id_prefix, node) {
            children.push(signature);
        }
    }
    proof {
        assert(node::models(children@) =~= signature_part(n, id_prefix@) + converted_children(
            n,
            id_prefix@,
            0,
        ));
    }
    let mut i: usize = 0;
    while i < node.children.len()
        invariant
            i <= node.children@.len(),
            n == node.model(),
            entity == is_entity(n.kind),
            node::models(children@) == signature_part(n, id_prefix@) + converted_children(
                n,
                id_prefix@,
                i as nat,
            ),
        decreases node.children@.len() - i,
    {
        let ghost before = children@;
        proof {
            assert(node.children@[i as int] is Some ==> n.children[i as int] == Some(
                node.children@[i as int]->0.model(),
            ));
            assert(node.children@[i as int] is None ==> n.children[i as int] is None);
        }
        if let Some(child) = &node.children[i] {
            if !(entity && text::same_text(child.kind, "name")) {
                let id = node::make_child_id(id_prefix, i);
                if let Some(t) = ts_convert(child, id.as_str()) {
                    children.push(t);
                    proof {
                        assert(node::models(children@) =~= node::models(before).push(t.model()));
                    }
                }
            }
        }
        proof {
            assert(node::models(children@) =~= signature_part(n, id_prefix@) + converted_children(
                n,
                id_prefix@,
                (i + 1) as nat,
            ));
        }
        i += 1;
    }
    proof {
        assert(node::models(children@).len() == children@.len());
    }
    match ts_semantic_type(node.kind) {
        Some(node_type) => {
            if children.len() == 0 && !entity && !is_statement_kind(node.kind) && !is_leaf_kind(
                node.kind,
            ) && !text::same_text(node.kind, "report_statement") && !text::same_text(
                node.kind,
                "program",
            ) {
                return None;
            }
            let label = ts_label(node, node_type);
            Some(
                node::build_node(
                    id_prefix,
                    node_type,
                    label.as_str(),
                    ts_position(node),
                    children,
                ),
            )
        },
        None => {
            if children.len() == 1 {
                proof {
                    assert(node::models(children@)[0] == children@[0].model());
                }
                return children.pop();
            }
            if children.len() == 0 {
                return None;
            }
            Some(node::build_node(id_prefix, node.kind, node.kind, ts_position(node), children))
        },
    }
}

// ---------------------------------------------------------------------------
// Trees
// ---------------------------------------------------------------------------

/// The number of errors and made up nodes in a tree.
pub open spec fn fault_count(shape: syntax::ShapeModel) -> nat
    decreases shape,
{
    (if shape.error || shape.missing {
        1nat
    } else {
        0nat
    }) + fault_counts(shape.children)
}

/// The number of errors and made up nodes in a list of trees.
pub open spec fn fault_counts(shapes: Seq<Option<syntax::ShapeModel>>) -> nat
    decreases shapes,
{
    if shapes.len() == 0 {
        0
    } else {
        fault_counts(shapes.drop_last()) + match shapes.last() {
            Some(shape) => fault_count(shape),
            None => 0,
        }
    }
}

/// A tree has no more errors than nodes.
pub proof fn lemma_faults_are_nodes(shape: syntax::ShapeModel)
    ensures
        fault_count(shape) <= syntax::node_count(shape),
    decreases shape,
{
    lemma_faults_are_nodes_in_list(shape.children);
}

proof fn lemma_faults_are_nodes_in_list(shapes: Seq<Option<syntax::ShapeModel>>)
    ensures
        fault_counts(shapes) <= syntax::node_counts(shapes),
    decreases shapes,
{
    if shapes.len() > 0 {
        lemma_faults_are_nodes_in_list(shapes.drop_last());
        if let Some(shape) = shapes.last() {
            lemma_faults_are_nodes(shape);
        }
    }
}

/// Counts the nodes of a tree, and the errors and made up nodes among them.
pub fn ts_counts(shape: &Shape) -> (r: (usize, usize))
    requires
        syntax::node_count(shape.model()) <= usize::MAX,
    ensures
        r.0 == syntax::node_count(shape.model()),
        r.1 == fault_count(shape.model()),
    decreases *shape,
{
    let ghost all = shape.model().children;
    let mut total: usize = 1;
    let mut errors: usize = if shape.error || shape.missing {
        1
    } else {
        0
    };
    let ghost own = errors;
    let mut i: usize = 0;
    proof {
        assert(all.take(0).len() == 0);
    }
    while i < shape.children.len()
        invariant
            i <= shape.children@.len(),
            all == shape.model().children,
            syntax::node_count(shape.model()) <= usize::MAX,
            total == 1 + syntax::node_counts(all.take(i as int)),
            own <= 1,
            errors == own + fault_counts(all.take(i as int)),
        decreases shape.children@.len() - i,
    {
        proof {
            assert(all.take(i + 1).drop_last() == all.take(i as int));
            syntax::lemma_node_counts_take(all, i + 1);
            lemma_faults_are_nodes_in_list(all.take(i + 1));
            assert(shape.children@[i as int] is Some ==> all[i as int] == Some(
                shape.children@[i as int]->0.model(),
            ));
        }
        if let Some(child) = &shape.children[i] {
            let (child_total, child_errors) = ts_counts(child);
            total += child_total;
            errors += child_errors;
        }
        i += 1;
    }
    proof {
        assert(all.take(i as int) == all);
    }
    (total, errors)
}

/// The kinds of nodes that the top level of a program consists of.
pub open spec fn is_top_level(kind: Seq<char>) -> bool {
    kind == "report_statement"@ || is_entity(kind) || is_statement(kind)
}

/// Whether one of the named children of the root is a construct of the top
/// level.
pub open spec fn has_top_level(root: syntax::SyntaxModel) -> bool {
    exists|i: int|
        0 <= i < root.children.len() && (#[trigger] root.children[i] matches Some(child)
            && is_top_level(child.kind))
}

/// Tells whether the root has a construct of the top level below it.
pub fn ts_has_top_level_construct(root: &SyntaxNode<'_>) -> (r: bool)
    ensures
        r == has_top_level(root.model()),
{
    let ghost all = root.model().children;
    let mut i: usize = 0;
    while i < root.children.len()
        invariant
            i <= root.children@.len(),
            all == root.model().children,
            forall|k: int|
                0 <= k < i ==> !(#[trigger] all[k] matches Some(child) && is_top_level(
                    child.kind,
                )),
        decreases root.children@.len() - i,
    {
        proof {
            assert(root.children@[i as int] is Some ==> all[i as int] == Some(
                root.children@[i as int]->0.model(),
            ));
            assert(root.children@[i as int] is None ==> all[i as int] is None);
        }
        if let Some(child) = &root.children[i] {
            if text::same_text(child.kind, "report_statement") || is_entity_kind(child.kind)
                || is_statement_kind(child.kind) {
                return true;
            }
        }
        i += 1;
    }
    false
}

/// The semantic tree for a concrete syntax tree, for a source whose last line
/// is `last`.
///
/// There is none where the root has no construct of the top level below it,
/// where a third of the nodes or more are errors, or where nothing is left
/// below the program.
pub open spec fn semantic_program(
    shape: syntax::ShapeModel,
    root: syntax::SyntaxModel,
    last: u32,
) -> Option<SemanticTree> {
    if !has_top_level(root) || fault_count(shape) * 3 >= syntax::node_count(shape) {
        None
    } else {
        match converted(root, "0"@) {
            None => None,
            Some(t) => if t.node_type != "program"@ {
                Some(scanner::program(last, seq![t]))
            } else if t.children.len() == 0 {
                None
            } else {
                Some(t)
            },
        }
    }
}

/// Converts a concrete syntax tree to a semantic tree, for a source whose last
/// line is `last`.
pub fn convert_tree(tree: &SyntaxTree<'_>, last: u32) -> (r: Option<SemanticNode>)
    requires
        tree.well_formed(),
    ensures
        match r {
            Some(t) => semantic_program(tree.shape.model(), tree.root.model(), last) == Some(
                t.model(),
            ),
            None => semantic_program(tree.shape.model(), tree.root.model(), last) is None,
        },
{
    let (total_nodes, error_nodes) = ts_counts(&tree.shape);
    if !ts_has_top_level_construct(&tree.root) {
        return None;
    }
    if (error_nodes as u128) * 3 >= total_nodes as u128 {
        return None;
    }
    let converted_root = match ts_convert(&tree.root, "0") {
        Some(t) => t,
        None => {
            return None;
        },
    };
    if !text::same_text(converted_root.node_type.as_str(), "program") {
        let mut children: Vec<SemanticNode> = Vec::new();
        children.push(converted_root);
        proof {
            assert(node::models(children@) =~= seq![converted_root.model()]);
        }
        return Some(scanner::program_node(last, children));
    }
    proof {
        node::lemma_model_children(converted_root);
        assert(converted_root.model().children.len() == converted_root.children@.len());
    }
    if converted_root.children.len() == 0 {
        None
    } else {
        Some(converted_root)
    }
}

} // verus!
