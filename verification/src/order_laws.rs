//! Laws of order: the scanner's tree lists its nodes as the source does.
use crate::id_laws;
use crate::node::SemanticTree;
use crate::scan_laws;
use crate::scanner;
use crate::scanner::{LineAction, OpenBlock, ScanState};
use crate::statement;
use crate::text;
use vstd::prelude::*;

verus! {

/// The types and labels of the nodes in a tree, each node before those below it
/// and those in the order of the tree.
pub open spec fn listed(t: SemanticTree) -> Seq<(Seq<char>, Seq<char>)>
    decreases t,
{
    seq![(t.node_type, t.label)] + all_listed(t.children)
}

/// The types and labels of the nodes in a list of trees, in that order.
pub open spec fn all_listed(ts: Seq<SemanticTree>) -> Seq<(Seq<char>, Seq<char>)>
    decreases ts,
{
    if ts.len() == 0 {
        Seq::empty()
    } else {
        all_listed(ts.drop_last()) + listed(ts.last())
    }
}

/// The types and labels of the nodes that a line adds, in that order.
pub open spec fn added_list(nested: bool, raw: Seq<char>, upper: Seq<char>) -> Seq<
    (Seq<char>, Seq<char>),
> {
    let words = text::words(upper);
    if scanner::skipped(text::trim(raw)) || words.len() == 0 {
        Seq::empty()
    } else {
        match scanner::action_of(words, nested) {
            LineAction::Report => seq![("report"@, statement::name_at(words, 1))],
            LineAction::Open(kind) => {
                let signature = statement::signature_label(statement::words_from(words, 2));
                let block = seq![(kind.name(), statement::name_at(words, 1))];
                if kind.is_class() || signature.len() == 0 {
                    block
                } else {
                    block.push(("signature"@, signature))
                }
            },
            LineAction::Statement => seq![statement::statement_parts(text::trim(raw), upper)],
            _ => Seq::empty(),
        }
    }
}

/// The types and labels of the nodes that the first `n` lines add, line by line.
pub open spec fn listed_by(lines: Seq<Seq<char>>, n: nat) -> Seq<(Seq<char>, Seq<char>)>
    decreases n,
{
    if n == 0 {
        Seq::empty()
    } else {
        let i = (n - 1) as nat;
        listed_by(lines, i) + added_list(
            scanner::scan_lines(lines, i).stack.len() > 0,
            lines[i as int],
            text::upper(text::trim(lines[i as int])),
        )
    }
}

/// Whether a line ends no block inside another, unless it is the end of a
/// method.
pub open spec fn ends_in_turn(st: ScanState, raw: Seq<char>, upper: Seq<char>) -> bool {
    let words = text::words(upper);
    scanner::skipped(text::trim(raw)) || words.len() == 0 || scanner::action_of(
        words,
        st.stack.len() > 0,
    ) !is Close || st.stack.len() <= 1
}

/// Whether none of the first `n` lines ends a block inside another, unless it is
/// the end of a method.
pub open spec fn all_end_in_turn(lines: Seq<Seq<char>>, n: nat) -> bool
    decreases n,
{
    n > 0 ==> {
        let i = (n - 1) as nat;
        all_end_in_turn(lines, i) && ends_in_turn(
            scanner::scan_lines(lines, i),
            lines[i as int],
            text::upper(text::trim(lines[i as int])),
        )
    }
}

/// Whether the blocks of a source end in turn: no line ends a block inside
/// another, unless it is the end of a method, and at most one block, not inside
/// another, has no end. Every well-nested source is like that.
pub open spec fn source_ends_in_turn(source: Seq<char>) -> bool {
    let lines = text::lines(source);
    all_end_in_turn(lines, lines.len()) && scanner::scan_lines(lines, lines.len()).stack.len() <= 1
}

proof fn lemma_well_nested_ends_in_turn(lines: Seq<Seq<char>>, n: nat)
    requires
        id_laws::well_nested(lines, n),
    ensures
        all_end_in_turn(lines, n),
    decreases n,
{
    if n > 0 {
        lemma_well_nested_ends_in_turn(lines, (n - 1) as nat);
    }
}

/// The blocks of a well-nested source end in turn.
pub proof fn law_well_nested_ends_in_turn(source: Seq<char>)
    requires
        id_laws::well_nested_source(source),
    ensures
        source_ends_in_turn(source),
{
    lemma_well_nested_ends_in_turn(text::lines(source), text::lines(source).len());
}

/// The types and labels of the open blocks and of the nodes in them, in order.
spec fn block_listed(stack: Seq<OpenBlock>) -> Seq<(Seq<char>, Seq<char>)>
    decreases stack.len(),
{
    if stack.len() == 0 {
        Seq::empty()
    } else {
        block_listed(stack.drop_last()) + listed(stack.last().closed(0))
    }
}

/// The types and labels of the nodes and blocks that a state holds, in order.
spec fn state_listed(st: ScanState) -> Seq<(Seq<char>, Seq<char>)> {
    all_listed(st.roots) + block_listed(st.stack)
}

proof fn lemma_all_listed_push(ts: Seq<SemanticTree>, t: SemanticTree)
    ensures
        all_listed(ts.push(t)) == all_listed(ts) + listed(t),
{
    assert(ts.push(t).drop_last() =~= ts);
}

proof fn lemma_block_listed_push(stack: Seq<OpenBlock>, b: OpenBlock)
    ensures
        block_listed(stack.push(b)) == block_listed(stack) + listed(b.closed(0)),
{
    assert(stack.push(b).drop_last() =~= stack);
}

proof fn lemma_leaf_listed(t: SemanticTree)
    requires
        t.children.len() == 0,
    ensures
        listed(t) == seq![(t.node_type, t.label)],
{
    assert(listed(t) =~= seq![(t.node_type, t.label)]);
}

proof fn lemma_with_root_listed(st: ScanState, t: SemanticTree)
    requires
        st.stack.len() == 0,
    ensures
        state_listed(st.with_root(t)) == state_listed(st) + listed(t),
{
    lemma_all_listed_push(st.roots, t);
    assert(state_listed(st.with_root(t)) =~= state_listed(st) + listed(t));
}

proof fn lemma_with_node_listed(st: ScanState, t: SemanticTree)
    ensures
        state_listed(st.with_node(t)) == state_listed(st) + listed(t),
{
    if st.stack.len() > 0 {
        let top = st.stack.last();
        let after = top.with_child(t);
        lemma_all_listed_push(top.children, t);
        lemma_block_listed_push(st.stack.drop_last(), after);
        assert(after.closed(0).children == after.children);
        assert(top.closed(0).children == top.children);
        assert(listed(after.closed(0)) =~= listed(top.closed(0)) + listed(t));
        assert(state_listed(st.with_node(t)) =~= state_listed(st) + listed(t));
    } else {
        lemma_with_root_listed(st, t);
    }
}

proof fn lemma_popped_listed(st: ScanState, line: u32)
    requires
        st.stack.len() > 0,
    ensures
        state_listed(st.popped()) + listed(st.stack.last().closed(line)) == state_listed(st),
{
    assert(listed(st.stack.last().closed(line)) == listed(st.stack.last().closed(0)));
    assert(state_listed(st.popped()) + listed(st.stack.last().closed(line)) =~= state_listed(st));
}

proof fn lemma_scanned_listed(st: ScanState, line: u32, raw: Seq<char>, upper: Seq<char>)
    requires
        ends_in_turn(st, raw, upper),
    ensures
        state_listed(st.scanned(line, raw, upper)) == state_listed(st) + added_list(
            st.stack.len() > 0,
            raw,
            upper,
        ),
{
    let words = text::words(upper);
    let nested = st.stack.len() > 0;
    let next = st.scanned(line, raw, upper);
    let more = added_list(nested, raw, upper);
    if !scanner::skipped(text::trim(raw)) && words.len() > 0 {
        match scanner::action_of(words, nested) {
            LineAction::Report => {
                let report = next.roots.last();
                lemma_leaf_listed(report);
                lemma_with_root_listed(st, report);
                assert(state_listed(next) == state_listed(st.with_root(report)));
            },
            LineAction::Open(kind) => {
                let block = next.stack.last();
                let t = block.closed(0);
                lemma_block_listed_push(st.stack, block);
                if block.children.len() > 0 {
                    let signature = block.children[0];
                    let none = Seq::<SemanticTree>::empty();
                    assert(block.children =~= none.push(signature));
                    lemma_all_listed_push(none, signature);
                    lemma_leaf_listed(signature);
                    assert(t.children == block.children);
                    assert(listed(t) =~= more);
                } else {
                    lemma_leaf_listed(t);
                }
                assert(state_listed(next) =~= state_listed(st) + more);
            },
            LineAction::Close => {
                if nested {
                    lemma_popped_listed(st, line);
                    lemma_with_root_listed(st.popped(), st.stack.last().closed(line));
                }
                assert(state_listed(next) =~= state_listed(st) + more);
            },
            LineAction::CloseMethod => {
                if nested {
                    lemma_popped_listed(st, line);
                    lemma_with_node_listed(st.popped(), st.stack.last().closed(line));
                }
                assert(state_listed(next) =~= state_listed(st) + more);
            },
            LineAction::Statement => {
                let t = statement::statement_tree(
                    st.next_child_id(),
                    text::trim(raw),
                    upper,
                    line,
                    scanner::width(raw),
                );
                lemma_leaf_listed(t);
                lemma_with_node_listed(st, t);
            },
            LineAction::Ignore => {
                assert(state_listed(next) =~= state_listed(st) + more);
            },
        }
    } else {
        assert(state_listed(next) =~= state_listed(st) + more);
    }
}

proof fn lemma_scan_lines_listed(lines: Seq<Seq<char>>, n: nat)
    requires
        all_end_in_turn(lines, n),
    ensures
        state_listed(scanner::scan_lines(lines, n)) == listed_by(lines, n),
    decreases n,
{
    if n > 0 {
        let i = (n - 1) as nat;
        lemma_scan_lines_listed(lines, i);
        lemma_scanned_listed(
            scanner::scan_lines(lines, i),
            i as u32,
            lines[i as int],
            text::upper(text::trim(lines[i as int])),
        );
    } else {
        assert(state_listed(scanner::scan_lines(lines, n)) =~= listed_by(lines, n));
    }
}

/// Where the blocks of a source end in turn, the scanner's tree lists the
/// program and then every node that a line of the source added, in the order of
/// the source.
pub proof fn law_order_is_kept(source: Seq<char>)
    requires
        source_ends_in_turn(source),
    ensures
        listed(scanner::scanned_source(source)) == seq![("program"@, "program"@)] + listed_by(
            text::lines(source),
            text::lines(source).len(),
        ),
{
    let lines = text::lines(source);
    let st = scanner::scan_lines(lines, lines.len());
    let last = scanner::last_line(lines.len());
    lemma_scan_lines_listed(lines, lines.len());
    if st.stack.len() > 0 {
        let t = st.stack.last().closed(last);
        let next = st.popped().with_root(t);
        lemma_popped_listed(st, last);
        lemma_with_root_listed(st.popped(), t);
        assert(st.drained(last) == next.drained(last));
        assert(next.drained(last) == next.roots);
        assert(state_listed(next) =~= all_listed(next.roots));
    } else {
        assert(state_listed(st) =~= all_listed(st.roots));
    }
}

proof fn lemma_unplaced_listed(t: SemanticTree)
    ensures
        listed(scan_laws::unplaced(t)) == listed(t),
    decreases t, 1int,
{
    lemma_all_unplaced_listed(t.children);
    assert(scan_laws::unplaced(t).children =~= scan_laws::all_unplaced(t.children));
}

proof fn lemma_all_unplaced_listed(ts: Seq<SemanticTree>)
    ensures
        all_listed(scan_laws::all_unplaced(ts)) == all_listed(ts),
    decreases ts, 0int,
{
    if ts.len() > 0 {
        lemma_all_unplaced_listed(ts.drop_last());
        lemma_unplaced_listed(ts.last());
        assert(scan_laws::all_unplaced(ts).drop_last() =~= scan_laws::all_unplaced(ts.drop_last()));
    }
}

/// A change of order shows too: where the blocks of two sources end in turn and
/// their lines add different nodes, or the same in another order, the trees
/// differ in more than their positions.
pub proof fn law_changed_order_shows(a: Seq<char>, b: Seq<char>)
    requires
        source_ends_in_turn(a),
        source_ends_in_turn(b),
        listed_by(text::lines(a), text::lines(a).len()) != listed_by(
            text::lines(b),
            text::lines(b).len(),
        ),
    ensures
        scan_laws::unplaced(scanner::scanned_source(a)) != scan_laws::unplaced(scanner::scanned_source(b)),
{
    let (ta, tb) = (scanner::scanned_source(a), scanner::scanned_source(b));
    let (na, nb) = (
        listed_by(text::lines(a), text::lines(a).len()),
        listed_by(text::lines(b), text::lines(b).len()),
    );
    law_order_is_kept(a);
    law_order_is_kept(b);
    lemma_unplaced_listed(ta);
    lemma_unplaced_listed(tb);
    if scan_laws::unplaced(ta) == scan_laws::unplaced(tb) {
        assert(listed(ta).skip(1) =~= na);
        assert(listed(tb).skip(1) =~= nb);
    }
}

} // verus!
