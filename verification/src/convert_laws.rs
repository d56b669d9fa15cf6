//! Laws of the conversion: which nodes of the concrete syntax tree have a place
//! in the semantic tree, with which type, label and children.
use crate::convert;
use crate::node;
use crate::node::SemanticTree;
use crate::statement_laws;
use crate::string_laws;
use crate::syntax;
use crate::text;
use vstd::prelude::*;

verus! {

// ---------------------------------------------------------------------------
// Kinds of nodes
// ---------------------------------------------------------------------------

/// Classes, interfaces, function modules and methods are entities.
pub proof fn law_entities(kind: Seq<char>)
    ensures
        convert::is_entity(kind) <==> kind == "class_declaration"@ || kind
            == "class_implementation"@ || kind == "function_implementation"@ || kind
            == "interface_declaration"@ || kind == "method_implementation"@ || kind
            == "method_declaration"@ || kind == "class_method_declaration"@,
{
}

/// Assignments, calls, declarations and writes are statements.
pub proof fn law_statements(kind: Seq<char>)
    ensures
        convert::is_statement(kind) <==> kind == "assignment"@ || kind == "call_function"@ || kind
            == "call_method"@ || kind == "call_method_instance"@ || kind == "call_method_static"@
            || kind == "chained_variable_declaration"@ || kind == "chained_write_statement"@ || kind
            == "variable_declaration"@ || kind == "write_statement"@,
{
}

/// Literals and names are leaves, and names are names.
pub proof fn law_leaves(kind: Seq<char>)
    ensures
        convert::is_leaf(kind) <==> kind == "character_literal"@ || kind == "field_symbol_name"@
            || kind == "name"@ || kind == "numeric_literal"@ || kind == "string"@ || kind
            == "structured_data_object"@,
        convert::is_name(kind) <==> kind == "name"@ || kind == "structured_data_object"@ || kind
            == "field_symbol_name"@,
{
}

/// Entities, statements, leaves, program declarations and the program stay
/// without children. Program declarations, entities and statements make up the
/// top level.
pub proof fn law_standing(kind: Seq<char>)
    ensures
        convert::stands_alone(kind) <==> convert::is_entity(kind) || convert::is_statement(kind)
            || convert::is_leaf(kind) || kind == "report_statement"@ || kind == "program"@,
        convert::is_top_level(kind) <==> convert::is_entity(kind) || convert::is_statement(kind)
            || kind == "report_statement"@,
{
}

proof fn lemma_kinds_differ()
    ensures
        "program"@.len() == 7,
        "report_statement"@.len() == 16,
        "class_declaration"@.len() == 17 && "class_declaration"@[1] == 'l',
        "class_implementation"@.len() == 20 && "class_implementation"@[1] == 'l',
        "function_implementation"@.len() == 23 && "function_implementation"@[0] == 'f',
        "interface_declaration"@.len() == 21 && "interface_declaration"@[0] == 'i',
        "method_implementation"@.len() == 21 && "method_implementation"@[0] == 'm',
        "method_declaration"@.len() == 18 && "method_declaration"@[0] == 'm',
        "class_method_declaration"@.len() == 24,
        "method_body"@.len() == 11 && "method_body"@[0] == 'm',
        "assignment"@.len() == 10,
        "chained_variable_declaration"@.len() == 28,
        "variable_declaration"@.len() == 20 && "variable_declaration"@[1] == 'a'
            && "variable_declaration"@[0] == 'v',
        "chained_write_statement"@.len() == 23 && "chained_write_statement"@[0] == 'c',
        "write_statement"@.len() == 15 && "write_statement"@[0] == 'w',
        "call_function"@.len() == 13,
        "call_method"@.len() == 11 && "call_method"@[0] == 'c',
        "call_method_instance"@.len() == 20 && "call_method_instance"@[1] == 'a'
            && "call_method_instance"@[0] == 'c',
        "call_method_static"@.len() == 18 && "call_method_static"@[0] == 'c',
        "character_literal"@.len() == 17 && "character_literal"@[1] == 'h',
        "string"@.len() == 6,
        "numeric_literal"@.len() == 15 && "numeric_literal"@[0] == 'n',
        "name"@.len() == 4,
        "structured_data_object"@.len() == 22,
        "field_symbol_name"@.len() == 17 && "field_symbol_name"@[1] == 'i',
{
    reveal_strlit("program");
    reveal_strlit("report_statement");
    reveal_strlit("class_declaration");
    reveal_strlit("class_implementation");
    reveal_strlit("function_implementation");
    reveal_strlit("interface_declaration");
    reveal_strlit("method_implementation");
    reveal_strlit("method_declaration");
    reveal_strlit("class_method_declaration");
    reveal_strlit("method_body");
    reveal_strlit("assignment");
    reveal_strlit("chained_variable_declaration");
    reveal_strlit("variable_declaration");
    reveal_strlit("chained_write_statement");
    reveal_strlit("write_statement");
    reveal_strlit("call_function");
    reveal_strlit("call_method");
    reveal_strlit("call_method_instance");
    reveal_strlit("call_method_static");
    reveal_strlit("character_literal");
    reveal_strlit("string");
    reveal_strlit("numeric_literal");
    reveal_strlit("name");
    reveal_strlit("structured_data_object");
    reveal_strlit("field_symbol_name");
}

/// The types of the nodes for programs and blocks, and that only the listed
/// kinds have a type.
pub proof fn law_types_of_blocks(kind: Seq<char>)
    ensures
        ({
            let found = convert::semantic_type(kind);
            &&& kind == "program"@ ==> found == Some("program"@)
            &&& kind == "report_statement"@ ==> found == Some("report"@)
            &&& kind == "class_declaration"@ ==> found == Some("class_definition"@)
            &&& kind == "class_implementation"@ ==> found == Some("class_impl"@)
            &&& kind == "function_implementation"@ ==> found == Some("function_module"@)
            &&& kind == "interface_declaration"@ ==> found == Some("interface"@)
            &&& kind == "method_implementation"@ || kind == "method_declaration"@ || kind
                == "class_method_declaration"@ ==> found == Some("method"@)
            &&& kind == "method_body"@ ==> found == Some("statement_list"@)
            &&& found is Some <==> convert::stands_alone(kind) || kind == "method_body"@
        }),
{
    lemma_kinds_differ();
}

/// The types of the nodes for statements, literals and names.
pub proof fn law_types_of_statements(kind: Seq<char>)
    ensures
        ({
            let found = convert::semantic_type(kind);
            &&& kind == "assignment"@ ==> found == Some("assignment_statement"@)
            &&& kind == "chained_variable_declaration"@ || kind == "variable_declaration"@ ==> found
                == Some("data_declaration"@)
            &&& kind == "chained_write_statement"@ || kind == "write_statement"@ ==> found == Some(
                "write_statement"@,
            )
            &&& kind == "call_function"@ || kind == "call_method"@ || kind
                == "call_method_instance"@ || kind == "call_method_static"@ ==> found == Some(
                "call_expression"@,
            )
            &&& kind == "character_literal"@ || kind == "string"@ ==> found == Some(
                "string_literal"@,
            )
            &&& kind == "numeric_literal"@ ==> found == Some("numeric_literal"@)
            &&& kind == "name"@ || kind == "structured_data_object"@ || kind
                == "field_symbol_name"@ ==> found == Some("identifier"@)
        }),
{
    lemma_kinds_differ();
}

// ---------------------------------------------------------------------------
// Names and labels
// ---------------------------------------------------------------------------

/// The bare text of a node is the text without white space around it, without
/// the full stops then at its end and without the white space before those.
pub proof fn law_bare_text(
    before: Seq<char>,
    core: Seq<char>,
    after: Seq<char>,
    dots: Seq<char>,
    behind: Seq<char>,
)
    requires
        forall|i: int| 0 <= i < before.len() ==> text::is_space(#[trigger] before[i]),
        forall|i: int| 0 <= i < after.len() ==> text::is_space(#[trigger] after[i]),
        forall|i: int| 0 <= i < dots.len() ==> #[trigger] dots[i] == '.',
        forall|i: int| 0 <= i < behind.len() ==> text::is_space(#[trigger] behind[i]),
        core.len() > 0 ==> !text::is_space(core[0]) && !text::is_space(core[core.len() - 1]),
        core.len() > 0 && core[core.len() - 1] == '.' ==> after.len() > 0 && dots.len() > 0,
    ensures
        convert::bare_text(before + core + after + dots + behind) == core,
{
    let s = before + core + after + dots + behind;
    let none = Seq::<char>::empty();
    let b = before.len() as int;
    let c = core.len() as int;
    let a = after.len() as int;
    let d = dots.len() as int;
    assert(forall|i: int| 0 <= i < b ==> s[i] == before[i]);
    assert(forall|i: int| b <= i < b + c ==> s[i] == core[i - b]);
    assert(forall|i: int| b + c <= i < b + c + a ==> s[i] == after[i - b - c]);
    assert(forall|i: int| b + c + a <= i < b + c + a + d ==> s[i] == dots[i - b - c - a]);
    assert(forall|i: int| b + c + a + d <= i < s.len() ==> s[i] == behind[i - b - c - a - d]);
    if c == 0 {
        assert(s.subrange(b + a, b + a + d) =~= dots);
        assert(string_laws::is_trimmed(s, dots, b + a, b + a + d));
        string_laws::lemma_trimmed_once(s, dots, b + a, b + a + d);
        assert(none + core + none + dots =~= dots);
        statement_laws::law_bare(none, core, none, dots);
    } else if d == 0 {
        assert(s.subrange(b, b + c) =~= core);
        assert(string_laws::is_trimmed(s, core, b, b + c));
        string_laws::lemma_trimmed_once(s, core, b, b + c);
        assert(none + core + none + none =~= core);
        statement_laws::law_bare(none, core, none, none);
    } else {
        let t = none + core + after + dots;
        assert(s.subrange(b, b + c + a + d) =~= t);
        assert(string_laws::is_trimmed(s, t, b, b + c + a + d));
        string_laws::lemma_trimmed_once(s, t, b, b + c + a + d);
        statement_laws::law_bare(none, core, after, dots);
    }
}

/// Whether a child can name its parent: it is a name and has a bare text.
pub open spec fn can_name(child: Option<syntax::SyntaxModel>) -> bool {
    &&& child is Some
    &&& child->0.kind == "name"@ || child->0.kind == "structured_data_object"@ || child->0.kind
        == "field_symbol_name"@
    &&& convert::bare_text(child->0.text).len() > 0
}

proof fn lemma_first_name(children: Seq<Option<syntax::SyntaxModel>>, n: nat, i: int)
    requires
        n <= children.len(),
        0 <= i <= n,
        forall|k: int| 0 <= k < i ==> !can_name(#[trigger] children[k]),
        i < n ==> can_name(children[i]),
    ensures
        i < n ==> convert::first_name(children, n) == Some(
            convert::bare_text(children[i]->0.text),
        ),
        i == n ==> convert::first_name(children, n) is None,
    decreases n,
{
    if n > 0 {
        let m = (n - 1) as nat;
        if i < m {
            lemma_first_name(children, m, i);
        } else {
            assert(i == n ==> !can_name(children[m as int]));
            lemma_first_name(children, m, m as int);
        }
    }
}

/// The field `name` names a node, where it has a bare text.
pub proof fn law_named_by_field(n: syntax::SyntaxModel)
    requires
        n.name is Some,
        convert::bare_text(n.name->0).len() > 0,
    ensures
        convert::name_of(n) == text::upper(convert::bare_text(n.name->0)),
{
}

/// Where the field does not, the first child that can names the node.
pub proof fn law_named_by_child(n: syntax::SyntaxModel, i: int)
    requires
        n.name is Some ==> convert::bare_text(n.name->0).len() == 0,
        0 <= i < n.children.len(),
        can_name(n.children[i]),
        forall|k: int| 0 <= k < i ==> !can_name(#[trigger] n.children[k]),
    ensures
        convert::name_of(n) == text::upper(convert::bare_text(n.children[i]->0.text)),
{
    lemma_first_name(n.children, n.children.len(), i);
}

/// Where neither does, its own bare text names the node, or its kind, if that is
/// empty.
pub proof fn law_named_by_text(n: syntax::SyntaxModel)
    requires
        n.name is Some ==> convert::bare_text(n.name->0).len() == 0,
        forall|k: int| 0 <= k < n.children.len() ==> !can_name(#[trigger] n.children[k]),
    ensures
        convert::bare_text(n.text).len() > 0 ==> convert::name_of(n) == text::upper(
            convert::bare_text(n.text),
        ),
        convert::bare_text(n.text).len() == 0 ==> convert::name_of(n) == n.kind,
{
    lemma_first_name(n.children, n.children.len(), n.children.len() as int);
}

/// The text that names a node is its name before the change of case.
pub proof fn law_naming_texts(n: syntax::SyntaxModel)
    ensures
        convert::naming_text(n) is Some ==> convert::naming_text(n)->0.len() > 0
            && convert::name_of(n) == text::upper(convert::naming_text(n)->0),
        convert::naming_text(n) is None ==> convert::name_of(n) == n.kind,
        n.name is Some && convert::bare_text(n.name->0).len() > 0 ==> convert::naming_text(n)
            == Some(convert::bare_text(n.name->0)),
        !(n.name is Some && convert::bare_text(n.name->0).len() > 0) ==> {
            &&& forall|i: int|
                0 <= i < n.children.len() && #[trigger] can_name(n.children[i]) && (forall|k: int|
                    0 <= k < i ==> !can_name(#[trigger] n.children[k])) ==> convert::naming_text(n)
                    == Some(convert::bare_text(n.children[i]->0.text))
            &&& (forall|k: int| 0 <= k < n.children.len() ==> !can_name(#[trigger] n.children[k]))
                ==> {
                &&& convert::naming_text(n) is Some <==> convert::bare_text(n.text).len() > 0
                &&& convert::naming_text(n) is Some ==> convert::naming_text(n)->0
                    == convert::bare_text(n.text)
            }
        },
{
    lemma_first_name_is_not_empty(n.children, n.children.len());
    assert forall|i: int|
        0 <= i < n.children.len() && #[trigger] can_name(n.children[i]) && (forall|k: int|
            0 <= k < i ==> !can_name(#[trigger] n.children[k])) implies convert::first_name(
        n.children,
        n.children.len(),
    ) == Some(convert::bare_text(n.children[i]->0.text)) by {
        lemma_first_name(n.children, n.children.len(), i);
    }
    if forall|k: int| 0 <= k < n.children.len() ==> !can_name(#[trigger] n.children[k]) {
        lemma_first_name(n.children, n.children.len(), n.children.len() as int);
    }
}

proof fn lemma_first_name_is_not_empty(children: Seq<Option<syntax::SyntaxModel>>, n: nat)
    ensures
        convert::first_name(children, n) is Some ==> convert::first_name(children, n)->0.len() > 0,
    decreases n,
{
    if n > 0 && n <= children.len() {
        lemma_first_name_is_not_empty(children, (n - 1) as nat);
    }
}

/// The place of a node, and its signature: the bare first line of its text in
/// upper case, at the line on which it starts.
pub proof fn law_places_and_signatures(n: syntax::SyntaxModel, id: Seq<char>)
    ensures
        convert::place(n).start_line == n.start.row as u32,
        convert::place(n).start_col == n.start.column as u32,
        convert::place(n).end_line == n.end.row as u32,
        convert::place(n).end_col == n.end.column as u32,
        convert::header_of(n) == text::upper(convert::bare_text(text::first_line_of(n.text))),
        is_signature(convert::header_tree(id, n, convert::header_of(n)), n, id),
{
}

/// The keyword and the colon of a chained write statement are taken off, in
/// capitals or in small letters, and any other text stays but for the white
/// space around it.
pub proof fn law_written(s: Seq<char>)
    ensures
        convert::written("WRITE:"@ + s) == text::trim(s),
        convert::written("write:"@ + s) == text::trim(s),
        !(exists|rest: Seq<char>| s == #[trigger] ("WRITE:"@ + rest)) && !(exists|
            rest: Seq<char>,
        | s == #[trigger] ("write:"@ + rest)) ==> convert::written(s) == text::trim(s),
{
    let (a, b) = ("WRITE:"@, "write:"@);
    reveal_strlit("WRITE:");
    reveal_strlit("write:");
    string_laws::law_prefix(a + s, a);
    string_laws::law_prefix(b + s, b);
    string_laws::law_prefix(b + s, a);
    string_laws::law_prefix(s, a);
    string_laws::law_prefix(s, b);
    assert((a + s).skip(a.len() as int) =~= s);
    assert((b + s).skip(b.len() as int) =~= s);
    assert(!text::has_prefix(b + s, a)) by {
        assert((b + s).take(6)[0] == 'w');
        assert(a[0] == 'W');
    }
}

proof fn lemma_types_differ()
    ensures
        "program"@.len() == 7,
        "statement_list"@.len() == 14,
        "report"@.len() == 6 && "report"@[0] == 'r',
        "class_definition"@.len() == 16 && "class_definition"@[0] == 'c',
        "class_impl"@.len() == 10 && "class_impl"@[0] == 'c',
        "function_module"@.len() == 15 && "function_module"@[0] == 'f',
        "interface"@.len() == 9,
        "method"@.len() == 6 && "method"@[0] == 'm',
        "call_expression"@.len() == 15 && "call_expression"@[0] == 'c',
        "data_declaration"@.len() == 16 && "data_declaration"@[0] == 'd',
        "identifier"@.len() == 10 && "identifier"@[0] == 'i',
        "write_statement"@.len() == 15 && "write_statement"@[0] == 'w',
{
    reveal_strlit("program");
    reveal_strlit("statement_list");
    reveal_strlit("report");
    reveal_strlit("class_definition");
    reveal_strlit("class_impl");
    reveal_strlit("function_module");
    reveal_strlit("interface");
    reveal_strlit("method");
    reveal_strlit("call_expression");
    reveal_strlit("data_declaration");
    reveal_strlit("identifier");
    reveal_strlit("write_statement");
}

/// The program and the body of a method bear their types as labels, blocks,
/// declarations and calls the names of their nodes. A name is labelled by its
/// text in upper case, a write statement by what it writes, and everything else
/// by its text.
pub proof fn law_labels(n: syntax::SyntaxModel, node_type: Seq<char>)
    ensures
        ({
            let label = convert::label_of(n, node_type);
            let own = node_type == "program"@ || node_type == "statement_list"@;
            let named = node_type == "report"@ || node_type == "class_definition"@ || node_type
                == "class_impl"@ || node_type == "function_module"@ || node_type == "interface"@
                || node_type == "method"@ || node_type == "call_expression"@ || node_type
                == "data_declaration"@;
            &&& own ==> label == node_type
            &&& named ==> label == convert::name_of(n)
            &&& node_type == "identifier"@ ==> label == text::upper(convert::bare_text(n.text))
            &&& node_type == "write_statement"@ ==> label == convert::written(
                convert::bare_text(n.text),
            )
            &&& !own && !named && node_type != "identifier"@ && node_type != "write_statement"@
                ==> label == convert::bare_text(n.text)
            &&& convert::is_named_type(node_type) <==> named
        }),
{
    lemma_types_differ();
}

// ---------------------------------------------------------------------------
// Children
// ---------------------------------------------------------------------------

/// Whether a node is the one for the signature of an entity: its first line in
/// upper case, bare, at the line on which the entity starts.
pub open spec fn is_signature(t: SemanticTree, n: syntax::SyntaxModel, id: Seq<char>) -> bool {
    &&& t.id == node::child_id(id, 0)
    &&& t.node_type == "signature"@
    &&& t.label == text::upper(convert::bare_text(text::first_line_of(n.text)))
    &&& t.position.start_line == n.start.row as u32
    &&& t.position.start_col == 0
    &&& t.position.end_line == n.start.row as u32
    &&& t.position.end_col == n.end.column as u32
    &&& t.children.len() == 0
}

/// The number of signatures among the children of a node.
pub open spec fn signatures(n: syntax::SyntaxModel) -> nat {
    if convert::is_entity(n.kind) && text::upper(
        convert::bare_text(text::first_line_of(n.text)),
    ).len() > 0 {
        1
    } else {
        0
    }
}

/// Whether the named child at an index has a place among the children: it is
/// there, is not the name of an entity, and is converted.
pub open spec fn has_place(n: syntax::SyntaxModel, id: Seq<char>, i: int) -> bool {
    &&& n.children[i] is Some
    &&& !(n.children[i]->0.kind == "name"@ && convert::is_entity(n.kind))
    &&& convert::converted(n.children[i]->0, node::child_id(id, i as nat)) is Some
}

/// Whether `children` are the signature of a node, if it has one, and then the
/// conversions of the named children at the indices `at`, which are all those
/// that have a place, in order.
pub open spec fn children_at(
    n: syntax::SyntaxModel,
    id: Seq<char>,
    children: Seq<SemanticTree>,
    at: Seq<int>,
) -> bool {
    let s = signatures(n);
    &&& children.len() == s + at.len()
    &&& s == 1 ==> is_signature(children[0], n, id)
    &&& forall|k: int|
        0 <= k < at.len() ==> 0 <= #[trigger] at[k] < n.children.len() && has_place(n, id, at[k])
            && convert::converted(n.children[at[k]]->0, node::child_id(id, at[k] as nat)) == Some(
            children[s + k],
        )
    &&& forall|j: int, k: int| 0 <= j < k < at.len() ==> #[trigger] at[j] < #[trigger] at[k]
    &&& forall|i: int|
        0 <= i < n.children.len() && #[trigger] has_place(n, id, i) ==> at.contains(i)
}

/// The same for some indices.
pub open spec fn are_children(
    n: syntax::SyntaxModel,
    id: Seq<char>,
    children: Seq<SemanticTree>,
) -> bool {
    exists|at: Seq<int>| #[trigger] children_at(n, id, children, at)
}

/// The indices of the first `k` named children that have a place.
proof fn lemma_places(n: syntax::SyntaxModel, id: Seq<char>, k: nat) -> (at: Seq<int>)
    requires
        k <= n.children.len(),
    ensures
        convert::converted_children(n, id, k).len() == at.len(),
        forall|j: int|
            0 <= j < at.len() ==> 0 <= #[trigger] at[j] < k && has_place(n, id, at[j])
                && convert::converted(n.children[at[j]]->0, node::child_id(id, at[j] as nat))
                == Some(convert::converted_children(n, id, k)[j]),
        forall|i: int, j: int| 0 <= i < j < at.len() ==> #[trigger] at[i] < #[trigger] at[j],
        forall|i: int| 0 <= i < k && #[trigger] has_place(n, id, i) ==> at.contains(i),
    decreases k,
{
    if k == 0 {
        Seq::empty()
    } else {
        let m = (k - 1) as nat;
        let before = lemma_places(n, id, m);
        let all = convert::converted_children(n, id, k);
        let front = convert::converted_children(n, id, m);
        if has_place(n, id, m as int) {
            let at = before.push(m as int);
            assert(all == front.push(
                convert::converted(n.children[m as int]->0, node::child_id(id, m))->0,
            ));
            assert forall|i: int| 0 <= i < k && #[trigger] has_place(n, id, i) implies at.contains(
                i,
            ) by {
                if i < m {
                    let j = choose|j: int| 0 <= j < before.len() && before[j] == i;
                    assert(at[j] == i);
                } else {
                    assert(at[before.len() as int] == i);
                }
            }
            at
        } else {
            assert(all == front);
            before
        }
    }
}

proof fn lemma_signature_part(n: syntax::SyntaxModel, id: Seq<char>)
    ensures
        convert::signature_part(n, id).len() == signatures(n),
        signatures(n) == 1 ==> is_signature(convert::signature_part(n, id)[0], n, id),
        forall|t: SemanticTree|
            signatures(n) == 1 && #[trigger] is_signature(t, n, id) ==> seq![t]
                == convert::signature_part(n, id),
{
    assert forall|t: SemanticTree|
        signatures(n) == 1 && #[trigger] is_signature(t, n, id) implies seq![t]
        == convert::signature_part(n, id) by {
        let own = convert::signature_part(n, id)[0];
        assert(t.children =~= own.children);
        assert(t == own);
        assert(seq![t] =~= convert::signature_part(n, id));
    }
}

/// Every node has a list of children of this kind.
pub proof fn law_children_are_there(n: syntax::SyntaxModel, id: Seq<char>)
    ensures
        exists|children: Seq<SemanticTree>| #[trigger] are_children(n, id, children),
{
    let rest = convert::converted_children(n, id, n.children.len());
    let all = convert::signature_part(n, id) + rest;
    let at = lemma_places(n, id, n.children.len());
    let s = signatures(n);
    lemma_signature_part(n, id);
    assert forall|k: int| 0 <= k < at.len() implies 0 <= #[trigger] at[k] < n.children.len()
        && has_place(n, id, at[k]) && convert::converted(
        n.children[at[k]]->0,
        node::child_id(id, at[k] as nat),
    ) == Some(all[s + k]) by {
        assert(all[s + k] == rest[k]);
    }
    assert(children_at(n, id, all, at));
    assert(are_children(n, id, all));
}

proof fn lemma_children_so_far(
    n: syntax::SyntaxModel,
    id: Seq<char>,
    children: Seq<SemanticTree>,
    at: Seq<int>,
    k: nat,
) -> (m: int)
    requires
        children_at(n, id, children, at),
        k <= n.children.len(),
    ensures
        0 <= m <= at.len(),
        forall|i: int| 0 <= i < m ==> #[trigger] at[i] < k,
        forall|i: int| m <= i < at.len() ==> #[trigger] at[i] >= k,
        convert::converted_children(n, id, k) == children.subrange(
            signatures(n) as int,
            signatures(n) + m,
        ),
    decreases k,
{
    let s = signatures(n) as int;
    if k == 0 {
        assert(convert::converted_children(n, id, k) =~= children.subrange(s, s));
        0
    } else {
        let j = (k - 1) as nat;
        let m = lemma_children_so_far(n, id, children, at, j);
        if m < at.len() && at[m] == j {
            assert(has_place(n, id, at[m]));
            assert(convert::converted_children(n, id, k) =~= convert::converted_children(
                n,
                id,
                j,
            ).push(children[s + m]));
            assert(children.subrange(s, s + m).push(children[s + m]) =~= children.subrange(
                s,
                s + m + 1,
            ));
            assert forall|i: int| m + 1 <= i < at.len() implies #[trigger] at[i] >= k by {
                assert(at[m] < at[i]);
            }
            m + 1
        } else {
            assert(!has_place(n, id, j as int)) by {
                if has_place(n, id, j as int) {
                    let i = choose|i: int| 0 <= i < at.len() && at[i] == j;
                    if i > m {
                        assert(at[m] < at[i]);
                    }
                }
            }
            assert(convert::converted_children(n, id, k) == convert::converted_children(n, id, j));
            assert forall|i: int| m <= i < at.len() implies #[trigger] at[i] >= k by {
                if at[i] == j && i > m {
                    assert(at[m] < at[i]);
                }
            }
            m
        }
    }
}

proof fn lemma_children_once(n: syntax::SyntaxModel, id: Seq<char>, children: Seq<SemanticTree>)
    requires
        are_children(n, id, children),
    ensures
        children == convert::signature_part(n, id) + convert::converted_children(
            n,
            id,
            n.children.len(),
        ),
{
    let at = choose|at: Seq<int>| #[trigger] children_at(n, id, children, at);
    let m = lemma_children_so_far(n, id, children, at, n.children.len());
    let s = signatures(n) as int;
    if m < at.len() {
        assert(at[m] < n.children.len());
    }
    lemma_signature_part(n, id);
    if s == 1 {
        assert(is_signature(children[0], n, id));
        assert(children =~= seq![children[0]] + children.subrange(1, children.len() as int));
    } else {
        assert(convert::signature_part(n, id) =~= Seq::empty());
        assert(children =~= children.subrange(0, children.len() as int));
        assert(Seq::<SemanticTree>::empty() + children =~= children);
    }
}

/// Whether a tree has the position of a node.
pub open spec fn is_placed(t: SemanticTree, n: syntax::SyntaxModel) -> bool {
    &&& t.position.start_line == n.start.row as u32
    &&& t.position.start_col == n.start.column as u32
    &&& t.position.end_line == n.end.row as u32
    &&& t.position.end_col == n.end.column as u32
}

/// Errors and made up nodes have no tree. A node whose kind has a type has a
/// tree of that type with all its children, unless it has none and its kind
/// does not stand alone. A node of any other kind gives way to its only child,
/// vanishes without children, and keeps its kind as type and label with more.
pub proof fn law_conversion(n: syntax::SyntaxModel, id: Seq<char>, children: Seq<SemanticTree>)
    requires
        are_children(n, id, children),
    ensures
        ({
            let found = convert::converted(n, id);
            let node_type = convert::semantic_type(n.kind);
            let sound = !n.error && !n.missing;
            &&& !sound ==> found is None
            &&& sound && node_type is Some ==> {
                &&& found is None <==> children.len() == 0 && n.kind == "method_body"@
                &&& found is Some ==> {
                    &&& found->0.id == id
                    &&& found->0.node_type == node_type->0
                    &&& found->0.label == convert::label_of(n, node_type->0)
                    &&& is_placed(found->0, n)
                    &&& found->0.children == children
                }
            }
            &&& sound && node_type is None ==> {
                &&& children.len() == 0 ==> found is None
                &&& children.len() == 1 ==> found == Some(children[0])
                &&& children.len() > 1 ==> {
                    &&& found is Some
                    &&& found->0.id == id
                    &&& found->0.node_type == n.kind
                    &&& found->0.label == n.kind
                    &&& is_placed(found->0, n)
                    &&& found->0.children == children
                }
            }
        }),
{
    lemma_children_once(n, id, children);
    law_types_of_blocks(n.kind);
    lemma_kinds_differ();
}

/// Nothing but errors is dropped: in the tree of a sound node whose kind has a
/// type, every named child that has a place is there.
pub proof fn law_no_child_is_dropped(n: syntax::SyntaxModel, id: Seq<char>, i: int)
    requires
        !n.error,
        !n.missing,
        convert::semantic_type(n.kind) is Some,
        0 <= i < n.children.len(),
        has_place(n, id, i),
    ensures
        convert::converted(n, id) is Some,
        convert::converted(n, id)->0.children.contains(
            convert::converted(n.children[i]->0, node::child_id(id, i as nat))->0,
        ),
{
    law_children_are_there(n, id);
    let children = choose|children: Seq<SemanticTree>| #[trigger] are_children(n, id, children);
    let at = choose|at: Seq<int>| #[trigger] children_at(n, id, children, at);
    law_conversion(n, id, children);
    let k = choose|k: int| 0 <= k < at.len() && at[k] == i;
    assert(at[k] == i);
    assert(children[signatures(n) + k] == convert::converted(
        n.children[i]->0,
        node::child_id(id, i as nat),
    )->0);
}

/// Every sound construct of the top level has its node in the program, under the
/// number of its place.
pub proof fn law_top_level_is_kept(root: syntax::SyntaxModel, i: int)
    requires
        root.kind == "program"@,
        !root.error,
        !root.missing,
        0 <= i < root.children.len(),
        root.children[i] matches Some(child) && !child.error && !child.missing && (child.kind
            == "report_statement"@ || convert::is_entity(child.kind) || convert::is_statement(
            child.kind,
        )),
    ensures
        ({
            let own = convert::converted(root.children[i]->0, node::child_id("0"@, i as nat));
            &&& own is Some
            &&& own->0.id == node::child_id("0"@, i as nat)
            &&& convert::converted(root, "0"@) is Some
            &&& convert::converted(root, "0"@)->0.children.contains(own->0)
        }),
{
    let child = root.children[i]->0;
    let id = node::child_id("0"@, i as nat);
    lemma_kinds_differ();
    law_types_of_blocks(child.kind);
    law_types_of_blocks(root.kind);
    law_children_are_there(child, id);
    let below = choose|below: Seq<SemanticTree>| #[trigger] are_children(child, id, below);
    law_conversion(child, id, below);
    assert(has_place(root, "0"@, i));
    law_no_child_is_dropped(root, "0"@, i);
}

// ---------------------------------------------------------------------------
// Trees
// ---------------------------------------------------------------------------

/// A tree has one node more than its children have together, and one fault more
/// where it is an error or made up.
pub proof fn law_counts(shape: syntax::ShapeModel)
    ensures
        syntax::node_count(shape) == 1 + syntax::node_counts(shape.children),
        shape.error || shape.missing ==> convert::fault_count(shape) == 1
            + convert::fault_counts(shape.children),
        !shape.error && !shape.missing ==> convert::fault_count(shape) == convert::fault_counts(
            shape.children,
        ),
{
}

/// Lists of trees have as many nodes and faults as their parts together, a list
/// of one tree as many as the tree, and what is not there counts nothing.
pub proof fn law_counts_of_parts(
    a: Seq<Option<syntax::ShapeModel>>,
    b: Seq<Option<syntax::ShapeModel>>,
    shape: syntax::ShapeModel,
)
    ensures
        syntax::node_counts(a + b) == syntax::node_counts(a) + syntax::node_counts(b),
        convert::fault_counts(a + b) == convert::fault_counts(a) + convert::fault_counts(b),
        syntax::node_counts(seq![Some(shape)]) == syntax::node_count(shape),
        convert::fault_counts(seq![Some(shape)]) == convert::fault_count(shape),
        syntax::node_counts(seq![None]) == 0,
        convert::fault_counts(seq![None]) == 0,
    decreases b.len(),
{
    let none = Seq::<Option<syntax::ShapeModel>>::empty();
    assert(seq![Some(shape)].drop_last() =~= none);
    assert(seq![None::<syntax::ShapeModel>].drop_last() =~= none);
    assert(syntax::node_counts(none) == 0);
    assert(convert::fault_counts(none) == 0);
    if b.len() == 0 {
        assert(a + b =~= a);
    } else {
        law_counts_of_parts(a, b.drop_last(), shape);
        assert((a + b).drop_last() =~= a + b.drop_last());
        assert((a + b).last() == b.last());
    }
}

/// The root has a construct of the top level where one of its named children is
/// a program declaration, an entity or a statement.
pub proof fn law_top_level(root: syntax::SyntaxModel)
    ensures
        convert::has_top_level(root) <==> exists|i: int|
            0 <= i < root.children.len() && (#[trigger] root.children[i]) is Some && (
            root.children[i]->0.kind == "report_statement"@ || convert::is_entity(
                root.children[i]->0.kind,
            ) || convert::is_statement(root.children[i]->0.kind)),
{
    if convert::has_top_level(root) {
        let i = choose|i: int|
            0 <= i < root.children.len() && (#[trigger] root.children[i] matches Some(child)
                && convert::is_top_level(child.kind));
        assert(root.children[i] is Some);
    }
    if exists|i: int|
        0 <= i < root.children.len() && (#[trigger] root.children[i]) is Some && (
        root.children[i]->0.kind == "report_statement"@ || convert::is_entity(
            root.children[i]->0.kind,
        ) || convert::is_statement(root.children[i]->0.kind)) {
        let i = choose|i: int|
            0 <= i < root.children.len() && (#[trigger] root.children[i]) is Some && (
            root.children[i]->0.kind == "report_statement"@ || convert::is_entity(
                root.children[i]->0.kind,
            ) || convert::is_statement(root.children[i]->0.kind));
        assert(root.children[i] matches Some(child) && convert::is_top_level(child.kind));
    }
}

/// A concrete syntax tree is given up where it has no construct of the top
/// level, where a third of its nodes or more are faults, or where nothing is left
/// below the program, and nowhere else.
pub proof fn law_when_a_tree_is_used(
    shape: syntax::ShapeModel,
    root: syntax::SyntaxModel,
    last: u32,
)
    ensures
        ({
            let own = convert::converted(root, "0"@);
            let found = convert::semantic_program(shape, root, last);
            let sound = convert::has_top_level(root) && convert::fault_count(shape) * 3
                < syntax::node_count(shape);
            let whole = own is Some && own->0.node_type == "program"@;
            &&& found is Some <==> sound && own is Some && (whole ==> own->0.children.len() > 0)
            &&& found is Some && whole ==> found == own
            &&& found is Some && !whole ==> {
                &&& found->0.id == "0"@
                &&& found->0.node_type == "program"@
                &&& found->0.label == "program"@
                &&& found->0.position.start_line == 0
                &&& found->0.position.start_col == 0
                &&& found->0.position.end_line == last
                &&& found->0.position.end_col == 0
                &&& found->0.children == seq![own->0]
            }
        }),
{
}

} // verus!
