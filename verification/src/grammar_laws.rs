//! Laws of the grammar's trees and of the choice between the two parsers.
use crate::convert;
use crate::id_laws;
use crate::node;
use crate::node::SemanticTree;
use crate::parser;
use crate::scanner;
use crate::syntax;
use crate::text;
use crate::text::CharClass;
use crate::text_laws;
use crate::unique_laws;
use vstd::prelude::*;

verus! {

// ---------------------------------------------------------------------------
// The choice of the parser
// ---------------------------------------------------------------------------

/// A source with a block that the grammar does not support goes to the line
/// scanner.
pub proof fn law_unsupported_blocks_are_scanned(source: Seq<char>)
    requires
        parser::has_unsupported(source),
    ensures
        parser::parsed(source) == scanner::scanned_source(source),
{
}

/// Whether one of the given lines begins or ends a block that the grammar does
/// not support.
spec fn some_unsupported(lines: Seq<Seq<char>>) -> bool {
    exists|i: int|
        0 <= i < lines.len() && parser::marks_unsupported(parser::upper_line(#[trigger] lines[i]))
}

proof fn lemma_unsupported_in_parts(a: Seq<Seq<char>>, b: Seq<Seq<char>>)
    ensures
        some_unsupported(a + b) == (some_unsupported(a) || some_unsupported(b)),
{
    let all = a + b;
    if some_unsupported(a) {
        let i = choose|i: int|
            0 <= i < a.len() && parser::marks_unsupported(parser::upper_line(#[trigger] a[i]));
        assert(all[i] == a[i]);
    }
    if some_unsupported(b) {
        let i = choose|i: int|
            0 <= i < b.len() && parser::marks_unsupported(parser::upper_line(#[trigger] b[i]));
        assert(all[a.len() + i] == b[i]);
    }
    if some_unsupported(all) {
        let i = choose|i: int|
            0 <= i < all.len() && parser::marks_unsupported(parser::upper_line(#[trigger] all[i]));
        if i < a.len() {
            assert(all[i] == a[i]);
        } else {
            assert(all[i] == b[i - a.len()]);
        }
    }
}

/// White space behind a text does not matter for where its start is trimmed.
proof fn lemma_trim_start_push(s: Seq<char>, c: char)
    requires
        text::is_space(c),
    ensures
        text::trim_start(s.push(c), CharClass::Space) == if text::trim_start(
            s,
            CharClass::Space,
        ).len() == 0 {
            Seq::empty()
        } else {
            text::trim_start(s, CharClass::Space).push(c)
        },
    decreases s.len(),
{
    let t = s.push(c);
    if s.len() == 0 {
        assert(t.drop_first() =~= s);
        assert(text::trim_start(s, CharClass::Space) =~= Seq::empty());
    } else {
        assert(t.first() == s.first());
        if text::is_space(s.first()) {
            assert(t.drop_first() =~= s.drop_first().push(c));
            lemma_trim_start_push(s.drop_first(), c);
        }
    }
}

proof fn lemma_prefix_push(s: Seq<char>, c: char, prefix: Seq<char>)
    requires
        prefix.len() > 0,
        prefix.last() != c,
    ensures
        text::has_prefix(s.push(c), prefix) == text::has_prefix(s, prefix),
{
    let n = prefix.len() as int;
    if n <= s.len() {
        assert(s.push(c).take(n) =~= s.take(n));
    } else if n == s.len() + 1 {
        assert(s.push(c).take(n).last() == c);
    }
}

/// A carriage return behind a line does not matter for whether the line begins
/// or ends an unsupported block.
proof fn lemma_unsupported_without_cr(line: Seq<char>)
    requires
        line.len() > 0,
        line.last() == '\r',
    ensures
        parser::marks_unsupported(parser::upper_line(line)) == parser::marks_unsupported(
            parser::upper_line(line.drop_last()),
        ),
{
    let short = line.drop_last();
    let t = text::trim_start(short, CharClass::Space);
    let u = text::upper(t);
    let whole = text::trim_start(line, CharClass::Space);
    assert(line =~= short.push('\r'));
    lemma_trim_start_push(short, '\r');
    if t.len() > 0 {
        text::lemma_upper_push(t, '\r');
        assert(text::upper(whole) =~= u.push('\r'));
        reveal_strlit("FORM ");
        reveal_strlit("ENDFORM");
        reveal_strlit("MODULE ");
        reveal_strlit("ENDMODULE");
        lemma_prefix_push(u, '\r', "FORM "@);
        lemma_prefix_push(u, '\r', "ENDFORM"@);
        lemma_prefix_push(u, '\r', "MODULE "@);
        lemma_prefix_push(u, '\r', "ENDMODULE"@);
    } else {
        assert(t =~= whole);
    }
}

/// A line feed behind a text does not matter for whether it has an unsupported
/// block.
proof fn lemma_unsupported_closed(s: Seq<char>)
    ensures
        some_unsupported(text::lines(s.push('\n'))) == some_unsupported(text::lines(s)),
    decreases s.len(),
{
    let t = s.push('\n');
    let n = text::position(s, '\n');
    text::lemma_position(s, '\n');
    text::lemma_position(t, '\n');
    assert(t[s.len() as int] == '\n');
    assert(forall|i: int| 0 <= i < s.len() ==> t[i] == s[i]);
    if n < s.len() {
        let rest = s.skip(n + 1);
        let head = seq![text::strip_cr(s.take(n))];
        assert(text::position(t, '\n') == n);
        assert(t.take(n) =~= s.take(n));
        assert(t.skip(n + 1) =~= rest.push('\n'));
        assert(text::lines(s) == head + text::lines(rest));
        assert(text::lines(t) == head + text::lines(rest.push('\n')));
        lemma_unsupported_closed(rest);
        lemma_unsupported_in_parts(head, text::lines(rest));
        lemma_unsupported_in_parts(head, text::lines(rest.push('\n')));
    } else {
        let line = text::strip_cr(s);
        assert(text::position(t, '\n') == n);
        assert(t.take(n) =~= s);
        text_laws::lemma_lines_len(t.skip(n + 1));
        assert(text::lines(t) =~= seq![line]);
        assert(text::lines(t)[0] == line);
        if s.len() == 0 {
            lemma_empty_line_is_supported(s);
            assert(!some_unsupported(text::lines(t)));
        } else {
            assert(text::lines(s) =~= seq![s]);
            assert(text::lines(s)[0] == s);
            if s.last() == '\r' {
                lemma_unsupported_without_cr(s);
            }
        }
    }
}

proof fn lemma_empty_line_is_supported(line: Seq<char>)
    requires
        line.len() == 0,
    ensures
        !parser::marks_unsupported(parser::upper_line(line)),
{
    reveal_strlit("FORM ");
    reveal_strlit("ENDFORM");
    reveal_strlit("MODULE ");
    reveal_strlit("ENDMODULE");
}

/// A source of two parts with a line feed between them has an unsupported block
/// exactly where one of the parts has.
pub proof fn law_unsupported_blocks_of_parts(a: Seq<char>, b: Seq<char>)
    ensures
        parser::has_unsupported(a.push('\n') + b) == (parser::has_unsupported(a)
            || parser::has_unsupported(b)),
{
    text_laws::lemma_lines_of_parts(a, b);
    lemma_unsupported_in_parts(text::lines(a.push('\n')), text::lines(b));
    lemma_unsupported_closed(a);
    assert(parser::has_unsupported(a) == some_unsupported(text::lines(a)));
    assert(parser::has_unsupported(b) == some_unsupported(text::lines(b)));
    assert(parser::has_unsupported(a.push('\n') + b) == some_unsupported(
        text::lines(a.push('\n') + b),
    ));
}

/// A tree of the grammar is used only where the source has no block that the
/// grammar does not support, the root has a construct of the top level below
/// it, and fewer than a third of the nodes are errors.
pub proof fn law_grammar_is_used_with_care(source: Seq<char>)
    requires
        parser::grammar_program(source) is Some,
    ensures
        !parser::has_unsupported(source),
        syntax::grammar_tree(source) matches Some(root) && {
            &&& syntax::readable(root, source)
            &&& convert::has_top_level(syntax::named_tree(root, source))
            &&& convert::fault_count(syntax::shape_of(root)) * 3 < syntax::node_count(
                syntax::shape_of(root),
            )
        },
        parser::grammar_program(source)->0.children.len() > 0,
{
}

proof fn lemma_program_label(n: syntax::SyntaxModel, id: Seq<char>)
    ensures
        converted_program_label(convert::converted(n, id)),
    decreases n, n.children.len() + 1,
{
    let children = convert::signature_part(n, id) + convert::converted_children(
        n,
        id,
        n.children.len(),
    );
    lemma_program_labels(n, id, n.children.len());
    if children.len() == 1 && convert::semantic_type(n.kind) is None {
        assert(convert::signature_part(n, id).len() == 0);
        assert(children[0] == convert::converted_children(n, id, n.children.len())[0]);
    }
    reveal_strlit("program");
    reveal_strlit("report");
    reveal_strlit("class_definition");
    reveal_strlit("class_impl");
    reveal_strlit("function_module");
    reveal_strlit("interface");
    reveal_strlit("method");
    reveal_strlit("statement_list");
    reveal_strlit("assignment_statement");
    reveal_strlit("data_declaration");
    reveal_strlit("write_statement");
    reveal_strlit("call_expression");
    reveal_strlit("string_literal");
    reveal_strlit("numeric_literal");
    reveal_strlit("identifier");
}

/// Whether a tree, if it is there, is labelled as a program where it is one.
spec fn converted_program_label(t: Option<SemanticTree>) -> bool {
    t is Some && t->0.node_type == "program"@ ==> t->0.label == "program"@
}

proof fn lemma_program_labels(n: syntax::SyntaxModel, id: Seq<char>, k: nat)
    requires
        k <= n.children.len(),
    ensures
        forall|i: int|
            0 <= i < convert::converted_children(n, id, k).len() ==> converted_program_label(
                Some(#[trigger] convert::converted_children(n, id, k)[i]),
            ),
    decreases n, k,
{
    if k > 0 {
        lemma_program_labels(n, id, (k - 1) as nat);
        if let Some(child) = n.children[k - 1] {
            assert(decreases_to!(n => n.children[k - 1]->0));
            lemma_program_label(child, node::child_id(id, (k - 1) as nat));
        }
        let before = convert::converted_children(n, id, (k - 1) as nat);
        let after = convert::converted_children(n, id, k);
        assert forall|i: int| 0 <= i < after.len() implies converted_program_label(
            Some(#[trigger] after[i]),
        ) by {
            if i < before.len() {
                assert(after[i] == before[i]);
            }
        }
    }
}

/// The root of every tree is the program, under its own name.
pub proof fn law_root_is_program(source: Seq<char>)
    ensures
        parser::parsed(source).node_type == "program"@,
        parser::parsed(source).label == "program"@,
{
    if let Some(root) = syntax::grammar_tree(source) {
        lemma_program_label(syntax::named_tree(root, source), "0"@);
    }
}

// ---------------------------------------------------------------------------
// Errors
// ---------------------------------------------------------------------------

/// Errors and nodes that the grammar's parser made up leave nothing in the
/// semantic tree.
pub proof fn law_errors_leave_no_node(n: syntax::SyntaxModel, id: Seq<char>)
    requires
        n.error || n.missing,
    ensures
        convert::converted(n, id) is None,
{
}

// ---------------------------------------------------------------------------
// Signatures and bodies
// ---------------------------------------------------------------------------

/// A class, an interface, a function module or a method keeps its signature, if
/// it has one, as its first child, and behind it what is converted of its body.
pub proof fn law_entities_keep_signatures(n: syntax::SyntaxModel, id: Seq<char>)
    requires
        convert::is_entity(n.kind),
        !n.error,
        !n.missing,
        convert::header_of(n).len() > 0,
    ensures
        convert::converted(n, id) matches Some(t) && {
            &&& t.children.len() > 0
            &&& t.children[0].node_type == "signature"@
            &&& t.children[0].label == convert::header_of(n)
            &&& t.children.drop_first() == convert::converted_children(n, id, n.children.len())
        },
{
    let t = convert::converted(n, id)->0;
    assert(convert::semantic_type(n.kind) is Some);
    assert(t.children.drop_first() =~= convert::converted_children(n, id, n.children.len()));
}

/// A change of the signature or of the converted body of such a node shows in
/// its tree.
pub proof fn law_changed_entities_show(
    a: syntax::SyntaxModel,
    b: syntax::SyntaxModel,
    id: Seq<char>,
)
    requires
        convert::is_entity(a.kind) && !a.error && !a.missing && convert::header_of(a).len() > 0,
        convert::is_entity(b.kind) && !b.error && !b.missing && convert::header_of(b).len() > 0,
        convert::header_of(a) != convert::header_of(b) || convert::converted_children(
            a,
            id,
            a.children.len(),
        ) != convert::converted_children(b, id, b.children.len()),
    ensures
        convert::converted(a, id) != convert::converted(b, id),
{
    law_entities_keep_signatures(a, id);
    law_entities_keep_signatures(b, id);
}

// ---------------------------------------------------------------------------
// Identifiers
// ---------------------------------------------------------------------------

/// Whether a named child of a node is converted, if it is there.
pub open spec fn is_converted(n: syntax::SyntaxModel, k: int) -> bool {
    n.children[k] is Some && !(n.children[k]->0.kind == "name"@ && convert::is_entity(n.kind))
}

/// Whether the first child of a node has the identifier that the signature of
/// the node has.
pub open spec fn signature_clashes(n: syntax::SyntaxModel, id: Seq<char>) -> bool {
    &&& convert::signature_part(n, id).len() > 0
    &&& n.children.len() > 0
    &&& is_converted(n, 0)
    &&& convert::converted(n.children[0]->0, node::child_id(id, 0)) matches Some(t) && t.id
        == node::child_id(id, 0)
}

/// Whether no signature in a tree clashes with a child.
pub open spec fn clash_free(n: syntax::SyntaxModel, id: Seq<char>) -> bool
    decreases n,
{
    n.error || n.missing || {
        &&& !signature_clashes(n, id)
        &&& forall|k: int|
            0 <= k < n.children.len() && #[trigger] is_converted(n, k) ==> clash_free(
                n.children[k]->0,
                node::child_id(id, k as nat),
            )
    }
}

/// The identifiers of converted children lie below the numbers of the children.
spec fn children_below(id: Seq<char>, ts: Seq<SemanticTree>, k: nat) -> bool {
    forall|x: Seq<char>| #[trigger]
        unique_laws::held(ts, x) ==> exists|m: nat|
            m < k && #[trigger] id_laws::below(x, node::child_id(id, m))
}

/// A tree whose identifiers lie below its own, which is `id` or lies below it.
spec fn well_placed(t: SemanticTree, id: Seq<char>) -> bool {
    id_laws::ids_below(t, t.id) && id_laws::below(t.id, id)
}

proof fn lemma_well_placed(t: SemanticTree, id: Seq<char>)
    requires
        well_placed(t, id),
    ensures
        id_laws::ids_below(t, id),
{
    assert forall|x: Seq<char>| #[trigger] id_laws::has_id(t, x) implies id_laws::below(x, id) by {
        unique_laws::lemma_below_transitive(x, t.id, id);
    }
}

proof fn lemma_held_push(ts: Seq<SemanticTree>, t: SemanticTree)
    ensures
        forall|x: Seq<char>| #[trigger]
            unique_laws::held(ts.push(t), x) <==> unique_laws::held(ts, x) || id_laws::has_id(t, x),
{
    let after = ts.push(t);
    let n = ts.len() as int;
    assert forall|x: Seq<char>| #[trigger] unique_laws::held(after, x) <==> unique_laws::held(ts, x)
        || id_laws::has_id(t, x) by {
        if unique_laws::held(after, x) {
            let i = choose|i: int| 0 <= i < after.len() && id_laws::has_id(#[trigger] after[i], x);
            if i < n {
                assert(id_laws::has_id(ts[i], x));
            }
        }
        if unique_laws::held(ts, x) {
            let i = choose|i: int| 0 <= i < ts.len() && id_laws::has_id(#[trigger] ts[i], x);
            assert(id_laws::has_id(after[i], x));
        }
        if id_laws::has_id(t, x) {
            assert(id_laws::has_id(after[n], x));
        }
    }
}

/// The identifiers below a node lie below its own.
proof fn lemma_tree_below(t: SemanticTree, k: nat)
    requires
        children_below(t.id, t.children, k),
    ensures
        id_laws::ids_below(t, t.id),
        !unique_laws::held(t.children, t.id),
{
    assert forall|x: Seq<char>| #[trigger] unique_laws::held(t.children, x) implies id_laws::below(
        x,
        t.id,
    ) && x != t.id by {
        let m = choose|m: nat| m < k && #[trigger] id_laws::below(x, node::child_id(t.id, m));
        id_laws::lemma_below_child(x, t.id, m);
    }
    assert forall|x: Seq<char>| #[trigger] id_laws::has_id(t, x) implies id_laws::below(
        x,
        t.id,
    ) by {
        if x != t.id {
            assert(unique_laws::held(t.children, x));
        }
    }
}

/// The children of a node, its signature among them.
spec fn all_children(n: syntax::SyntaxModel, id: Seq<char>) -> Seq<SemanticTree> {
    convert::signature_part(n, id) + convert::converted_children(n, id, n.children.len())
}

proof fn lemma_children_below(n: syntax::SyntaxModel, id: Seq<char>, k: nat)
    requires
        k <= n.children.len(),
    ensures
        children_below(id, convert::converted_children(n, id, k), k),
        forall|i: int|
            0 <= i < convert::converted_children(n, id, k).len() ==> well_placed(
                #[trigger] convert::converted_children(n, id, k)[i],
                id,
            ),
    decreases n, k,
{
    let after = convert::converted_children(n, id, k);
    if k > 0 {
        let before = convert::converted_children(n, id, (k - 1) as nat);
        let own = node::child_id(id, (k - 1) as nat);
        lemma_children_below(n, id, (k - 1) as nat);
        assert forall|x: Seq<char>| #[trigger] unique_laws::held(before, x) implies exists|m: nat|
            m < k && #[trigger] id_laws::below(x, node::child_id(id, m)) by {
            let m = choose|m: nat| m < k - 1 && #[trigger] id_laws::below(x, node::child_id(id, m));
            assert(m < k && id_laws::below(x, node::child_id(id, m)));
        }
        if after != before {
            let child = n.children[k - 1]->0;
            assert(decreases_to!(n => n.children[k - 1]->0));
            lemma_converted_below(child, own);
            let t = convert::converted(child, own)->0;
            assert(after == before.push(t));
            lemma_well_placed(t, own);
            lemma_held_push(before, t);
            id_laws::lemma_below_child(t.id, id, (k - 1) as nat);
            assert forall|x: Seq<char>| #[trigger] unique_laws::held(after, x) implies exists|
                m: nat,
            | m < k && #[trigger] id_laws::below(x, node::child_id(id, m)) by {
                if id_laws::has_id(t, x) {
                    assert(k - 1 < k && id_laws::below(x, node::child_id(id, (k - 1) as nat)));
                }
            }
            assert forall|i: int| 0 <= i < after.len() implies well_placed(
                #[trigger] after[i],
                id,
            ) by {
                if i < before.len() {
                    assert(after[i] == before[i]);
                }
            }
        }
    }
}

proof fn lemma_all_children_below(n: syntax::SyntaxModel, id: Seq<char>)
    requires
        children_below(id, convert::converted_children(n, id, n.children.len()), n.children.len()),
    ensures
        children_below(id, all_children(n, id), n.children.len() + 1),
{
    let signature = convert::signature_part(n, id);
    let rest = convert::converted_children(n, id, n.children.len());
    let all = all_children(n, id);
    assert forall|x: Seq<char>| #[trigger] unique_laws::held(all, x) implies exists|m: nat|
        m < n.children.len() + 1 && #[trigger] id_laws::below(x, node::child_id(id, m)) by {
        let i = choose|i: int| 0 <= i < all.len() && id_laws::has_id(#[trigger] all[i], x);
        if i < signature.len() {
            assert(all[i] == signature[i]);
            assert(x == node::child_id(id, 0));
            assert(0 < n.children.len() + 1 && id_laws::below(x, node::child_id(id, 0)));
        } else {
            assert(all[i] == rest[i - signature.len()]);
            assert(unique_laws::held(rest, x));
            let m = choose|m: nat|
                m < n.children.len() && #[trigger] id_laws::below(x, node::child_id(id, m));
            assert(m < n.children.len() + 1 && id_laws::below(x, node::child_id(id, m)));
        }
    }
}

proof fn lemma_converted_below(n: syntax::SyntaxModel, id: Seq<char>)
    ensures
        convert::converted(n, id) matches Some(t) ==> well_placed(t, id),
    decreases n, n.children.len() + 1,
{
    let all = all_children(n, id);
    lemma_children_below(n, id, n.children.len());
    lemma_all_children_below(n, id);
    if let Some(t) = convert::converted(n, id) {
        if convert::semantic_type(n.kind) is None && all.len() == 1 {
            assert(convert::signature_part(n, id).len() == 0);
            assert(all[0] == convert::converted_children(n, id, n.children.len())[0]);
        } else {
            assert(t.children == all);
            lemma_tree_below(t, n.children.len() + 1);
        }
    }
}

/// The identifiers in the semantic tree for a node are the one that the node
/// was given, or lie below it.
pub proof fn law_converted_ids_lie_below(n: syntax::SyntaxModel, id: Seq<char>)
    requires
        convert::converted(n, id) is Some,
    ensures
        id_laws::ids_below(convert::converted(n, id)->0, id),
{
    lemma_converted_below(n, id);
    lemma_well_placed(convert::converted(n, id)->0, id);
}

proof fn lemma_children_distinct(n: syntax::SyntaxModel, id: Seq<char>, k: nat)
    requires
        k <= n.children.len(),
        !n.error && !n.missing,
        clash_free(n, id),
    ensures
        unique_laws::distinct(convert::converted_children(n, id, k)),
    decreases n, k,
{
    let after = convert::converted_children(n, id, k);
    if k > 0 {
        let before = convert::converted_children(n, id, (k - 1) as nat);
        let own = node::child_id(id, (k - 1) as nat);
        lemma_children_distinct(n, id, (k - 1) as nat);
        if after != before {
            let child = n.children[k - 1]->0;
            let t = convert::converted(child, own)->0;
            let none = Seq::<SemanticTree>::empty();
            assert(decreases_to!(n => n.children[k - 1]->0));
            assert(is_converted(n, k - 1));
            lemma_converted_unique(child, own);
            lemma_converted_below(child, own);
            lemma_well_placed(t, own);
            lemma_children_below(n, id, (k - 1) as nat);
            assert forall|x: Seq<char>| #[trigger] id_laws::has_id(t, x) implies !unique_laws::held(
                before,
                x,
            ) by {
                if unique_laws::held(before, x) {
                    let m = choose|m: nat|
                        m < k - 1 && #[trigger] id_laws::below(x, node::child_id(id, m));
                    id_laws::lemma_below_one_child(x, id, m, (k - 1) as nat);
                }
            }
            assert(before + none =~= before);
            unique_laws::lemma_insert(before, none, t);
            assert(before.push(t) + none =~= after);
        }
    }
}

/// A signature that does not clash is new to the children.
proof fn lemma_signature_is_new(n: syntax::SyntaxModel, id: Seq<char>, k: nat)
    requires
        k <= n.children.len(),
        convert::signature_part(n, id).len() > 0,
        !signature_clashes(n, id),
    ensures
        !unique_laws::held(convert::converted_children(n, id, k), node::child_id(id, 0)),
    decreases k,
{
    let after = convert::converted_children(n, id, k);
    let first = node::child_id(id, 0);
    if k > 0 {
        let before = convert::converted_children(n, id, (k - 1) as nat);
        let own = node::child_id(id, (k - 1) as nat);
        lemma_signature_is_new(n, id, (k - 1) as nat);
        if after != before {
            let child = n.children[k - 1]->0;
            let t = convert::converted(child, own)->0;
            assert(is_converted(n, k - 1));
            lemma_converted_below(child, own);
            lemma_well_placed(t, own);
            lemma_held_push(before, t);
            if id_laws::has_id(t, first) {
                id_laws::lemma_below_one_child(first, id, 0, (k - 1) as nat);
                id_laws::lemma_below_starts(first, t.id);
                id_laws::lemma_below_starts(t.id, first);
                assert(t.id =~= first);
            }
        }
    }
}

proof fn lemma_converted_unique(n: syntax::SyntaxModel, id: Seq<char>)
    requires
        clash_free(n, id),
    ensures
        convert::converted(n, id) matches Some(t) ==> id_laws::unique_ids(t),
    decreases n, n.children.len() + 1,
{
    if let Some(t) = convert::converted(n, id) {
        let signature = convert::signature_part(n, id);
        let rest = convert::converted_children(n, id, n.children.len());
        let all = all_children(n, id);
        lemma_children_distinct(n, id, n.children.len());
        if signature.len() > 0 {
            let none = Seq::<SemanticTree>::empty();
            let s = signature[0];
            lemma_signature_is_new(n, id, n.children.len());
            assert forall|x: Seq<char>| #[trigger] id_laws::has_id(s, x) implies !unique_laws::held(
                rest,
                x,
            ) by {}
            assert(none + rest =~= rest);
            unique_laws::lemma_insert(none, rest, s);
            assert(none.push(s) + rest =~= all);
        } else {
            assert(all =~= rest);
        }
        assert(unique_laws::distinct(all));
        if convert::semantic_type(n.kind) is None && all.len() == 1 {
            assert(t == all[0]);
        } else {
            assert(t.children == all);
            lemma_children_below(n, id, n.children.len());
            lemma_all_children_below(n, id);
            lemma_tree_below(t, n.children.len() + 1);
            assert forall|i: int| 0 <= i < all.len() implies !id_laws::has_id(
                #[trigger] all[i],
                t.id,
            ) by {
                if id_laws::has_id(all[i], t.id) {
                    assert(unique_laws::held(all, t.id));
                }
            }
        }
    }
}

/// In the semantic tree for a concrete syntax tree no identifier occurs twice,
/// where no signature has the identifier of a child, and a root that is not
/// the program leaves the identifier of the program alone.
pub proof fn law_grammar_ids_are_unique(
    shape: syntax::ShapeModel,
    root: syntax::SyntaxModel,
    last: u32,
)
    requires
        clash_free(root, "0"@),
        convert::converted(root, "0"@) matches Some(t) ==> t.node_type == "program"@ || t.id
            != "0"@,
    ensures
        convert::semantic_program(shape, root, last) matches Some(p) ==> id_laws::unique_ids(p),
{
    lemma_converted_unique(root, "0"@);
    lemma_converted_below(root, "0"@);
    if let Some(p) = convert::semantic_program(shape, root, last) {
        let t = convert::converted(root, "0"@)->0;
        if t.node_type != "program"@ {
            assert(p.children.len() == 1 && p.children[0] == t);
            if id_laws::has_id(t, "0"@) {
                id_laws::lemma_below_starts("0"@, t.id);
                id_laws::lemma_below_starts(t.id, "0"@);
                assert(t.id =~= "0"@);
            }
        }
    }
}

} // verus!
