//! Laws of the line scanner: what holds of the tree of every source.
use crate::id_laws;
use crate::node;
use crate::node::SemanticTree;
use crate::scanner;
use crate::scanner::{LineAction, OpenBlock, ScanState};
use crate::statement;
use crate::text;
use crate::text_laws;
use vstd::multiset::Multiset;
use vstd::prelude::*;

verus! {

// ---------------------------------------------------------------------------
// Node types
// ---------------------------------------------------------------------------

/// The types of the nodes that the scanner makes.
pub open spec fn is_scanner_type(node_type: Seq<char>) -> bool {
    ||| node_type == "program"@
    ||| node_type == "report"@
    ||| node_type == "class_definition"@
    ||| node_type == "class_impl"@
    ||| node_type == "interface"@
    ||| node_type == "method"@
    ||| node_type == "form"@
    ||| node_type == "function_module"@
    ||| node_type == "module"@
    ||| node_type == "signature"@
    ||| node_type == "data_declaration"@
    ||| node_type == "write_statement"@
    ||| node_type == "method_signature"@
    ||| node_type == "assignment_statement"@
    ||| node_type == "statement"@
}

/// Whether all nodes of a tree have a type that the scanner makes.
pub open spec fn typed(t: SemanticTree) -> bool
    decreases t,
{
    &&& is_scanner_type(t.node_type)
    &&& forall|i: int| 0 <= i < t.children.len() ==> typed(#[trigger] t.children[i])
}

/// Whether all nodes of a list of trees have a type that the scanner makes.
pub open spec fn all_typed(ts: Seq<SemanticTree>) -> bool {
    forall|i: int| 0 <= i < ts.len() ==> typed(#[trigger] ts[i])
}

/// Whether all nodes of a state have a type that the scanner makes.
pub open spec fn state_typed(st: ScanState) -> bool {
    &&& all_typed(st.roots)
    &&& forall|j: int|
        0 <= j < st.stack.len() ==> is_scanner_type((#[trigger] st.stack[j]).node_type)
            && all_typed(st.stack[j].children)
}

proof fn lemma_scanned_typed(st: ScanState, line: u32, raw: Seq<char>, upper: Seq<char>)
    requires
        state_typed(st),
    ensures
        state_typed(st.scanned(line, raw, upper)),
{
}

proof fn lemma_scan_lines_typed(lines: Seq<Seq<char>>, n: nat)
    ensures
        state_typed(scanner::scan_lines(lines, n)),
    decreases n,
{
    if n > 0 {
        let i = (n - 1) as nat;
        lemma_scan_lines_typed(lines, i);
        lemma_scanned_typed(
            scanner::scan_lines(lines, i),
            i as u32,
            lines[i as int],
            text::upper(text::trim(lines[i as int])),
        );
    }
}

proof fn lemma_drained_typed(st: ScanState, last: u32)
    requires
        state_typed(st),
    ensures
        all_typed(st.drained(last)),
    decreases st.stack.len(),
{
    if st.stack.len() > 0 {
        let next = st.popped().with_root(st.stack.last().closed(last));
        assert(typed(st.stack.last().closed(last)));
        lemma_drained_typed(next, last);
    }
}

/// Every node of the scanner's tree has one of the types that it makes.
pub proof fn law_scanner_node_types(source: Seq<char>)
    ensures
        typed(scanner::scanned_source(source)),
{
    let lines = text::lines(source);
    lemma_scan_lines_typed(lines, lines.len());
    lemma_drained_typed(
        scanner::scan_lines(lines, lines.len()),
        scanner::last_line(lines.len()),
    );
}

// ---------------------------------------------------------------------------
// Spans
// ---------------------------------------------------------------------------

/// Whether the lines of a tree nest: no node ends before it starts, and the
/// children of a node lie within it.
pub open spec fn nested(t: SemanticTree) -> bool
    decreases t,
{
    &&& t.position.start_line <= t.position.end_line
    &&& forall|i: int|
        0 <= i < t.children.len() ==> nested(#[trigger] t.children[i])
            && t.position.start_line <= t.children[i].position.start_line
            && t.children[i].position.end_line <= t.position.end_line
}

/// Whether the lines of all trees nest and lie from `start` on and before
/// `end`.
pub open spec fn all_nested(ts: Seq<SemanticTree>, start: int, end: int) -> bool {
    forall|i: int|
        0 <= i < ts.len() ==> nested(#[trigger] ts[i]) && start <= ts[i].position.start_line
            && ts[i].position.end_line < end
}

/// Whether the nodes and blocks of a state lie within the first `n` lines, and
/// no block starts before the one around it.
pub open spec fn state_nested(st: ScanState, n: int) -> bool {
    &&& all_nested(st.roots, 0, n)
    &&& forall|j: int|
        0 <= j < st.stack.len() ==> (#[trigger] st.stack[j]).start_line < n && all_nested(
            st.stack[j].children,
            st.stack[j].start_line as int,
            n,
        )
    &&& forall|j: int, k: int|
        0 <= j <= k < st.stack.len() ==> (#[trigger] st.stack[j]).start_line <= (
        #[trigger] st.stack[k]).start_line
}

proof fn lemma_scanned_nested(st: ScanState, line: u32, raw: Seq<char>, upper: Seq<char>)
    requires
        state_nested(st, line as int),
    ensures
        state_nested(st.scanned(line, raw, upper), line + 1),
{
    let next = st.scanned(line, raw, upper);
    if st.stack.len() > 0 {
        assert(nested(st.stack.last().closed(line)));
    }
    assert(all_nested(st.roots, 0, line + 1));
    assert forall|j: int| 0 <= j < st.stack.len() implies all_nested(
        (#[trigger] st.stack[j]).children,
        st.stack[j].start_line as int,
        line + 1,
    ) by {}
}

proof fn lemma_scan_lines_nested(lines: Seq<Seq<char>>, n: nat)
    requires
        n <= lines.len() <= u32::MAX + 1,
    ensures
        state_nested(scanner::scan_lines(lines, n), n as int),
    decreases n,
{
    if n > 0 {
        let i = (n - 1) as nat;
        lemma_scan_lines_nested(lines, i);
        lemma_scanned_nested(
            scanner::scan_lines(lines, i),
            i as u32,
            lines[i as int],
            text::upper(text::trim(lines[i as int])),
        );
    }
}

proof fn lemma_drained_nested(st: ScanState, last: u32)
    requires
        state_nested(st, last + 1),
    ensures
        all_nested(st.drained(last), 0, last + 1),
    decreases st.stack.len(),
{
    if st.stack.len() > 0 {
        let next = st.popped().with_root(st.stack.last().closed(last));
        assert(nested(st.stack.last().closed(last)));
        lemma_drained_nested(next, last);
    }
}

/// In the scanner's tree no node ends before it starts, and every node lies
/// within its parent. Line numbers have 32 bits, so the source must not have
/// more lines than they can count.
pub proof fn law_spans_nest(source: Seq<char>)
    requires
        text::lines(source).len() <= u32::MAX + 1,
    ensures
        nested(scanner::scanned_source(source)),
{
    let lines = text::lines(source);
    let st = scanner::scan_lines(lines, lines.len());
    let last = scanner::last_line(lines.len());
    lemma_scan_lines_nested(lines, lines.len());
    if lines.len() == 0 {
        assert(st == ScanState::initial());
        assert(st.drained(last) == Seq::<SemanticTree>::empty());
    } else {
        lemma_drained_nested(st, last);
    }
}

// ---------------------------------------------------------------------------
// Order
// ---------------------------------------------------------------------------

/// Whether the trees of a list follow one another: each ends before the line on
/// which the next begins.
pub open spec fn in_order(ts: Seq<SemanticTree>) -> bool {
    forall|i: int, k: int|
        0 <= i < k < ts.len() ==> (#[trigger] ts[i]).position.end_line < (
        #[trigger] ts[k]).position.start_line
}

/// Whether the children of every node of a tree follow one another.
pub open spec fn ordered(t: SemanticTree) -> bool
    decreases t,
{
    &&& in_order(t.children)
    &&& forall|i: int| 0 <= i < t.children.len() ==> ordered(#[trigger] t.children[i])
}

/// Whether the children of every node of a list of trees follow one another.
pub open spec fn all_ordered(ts: Seq<SemanticTree>) -> bool {
    forall|i: int| 0 <= i < ts.len() ==> ordered(#[trigger] ts[i])
}

/// Whether the nodes in the open blocks follow one another, and a block begins
/// behind what the block around it holds.
pub open spec fn state_ordered(st: ScanState) -> bool {
    &&& all_ordered(st.roots)
    &&& forall|j: int|
        0 <= j < st.stack.len() ==> in_order((#[trigger] st.stack[j]).children) && all_ordered(
            st.stack[j].children,
        )
    &&& forall|j: int, i: int|
        0 <= j < st.stack.len() - 1 && 0 <= i < st.stack[j].children.len() ==> (
        #[trigger] st.stack[j].children[i]).position.end_line < st.stack[j + 1].start_line
}

proof fn lemma_in_order_push(ts: Seq<SemanticTree>, t: SemanticTree)
    requires
        in_order(ts),
        forall|i: int|
            0 <= i < ts.len() ==> (#[trigger] ts[i]).position.end_line < t.position.start_line,
    ensures
        in_order(ts.push(t)),
{
}

proof fn lemma_leaf_ordered(t: SemanticTree)
    requires
        t.children.len() == 0,
    ensures
        ordered(t),
{
}

proof fn lemma_with_node_ordered(st: ScanState, t: SemanticTree)
    requires
        state_ordered(st),
        ordered(t),
        st.stack.len() > 0 ==> forall|i: int|
            0 <= i < st.stack.last().children.len() ==> (
            #[trigger] st.stack.last().children[i]).position.end_line < t.position.start_line,
    ensures
        state_ordered(st.with_node(t)),
{
    let next = st.with_node(t);
    let n = st.stack.len() - 1;
    if st.stack.len() > 0 {
        lemma_in_order_push(st.stack.last().children, t);
        assert(forall|j: int| 0 <= j < n ==> next.stack[j] == st.stack[j]);
        assert(next.stack[n].start_line == st.stack[n].start_line);
        assert forall|j: int, i: int|
            0 <= j < next.stack.len() - 1 && 0 <= i < next.stack[j].children.len() implies (
        #[trigger] next.stack[j].children[i]).position.end_line < next.stack[j + 1].start_line by {
            assert(next.stack[j] == st.stack[j]);
            assert(st.stack[j].children[i].position.end_line < st.stack[j + 1].start_line);
        }
    }
}

proof fn lemma_popped_ordered(st: ScanState, line: u32)
    requires
        state_ordered(st),
        st.stack.len() > 0,
    ensures
        state_ordered(st.popped()),
        ordered(st.stack.last().closed(line)),
{
    let next = st.popped();
    let t = st.stack.last().closed(line);
    assert(t.children == st.stack.last().children);
    assert(forall|j: int| 0 <= j < next.stack.len() ==> next.stack[j] == st.stack[j]);
    assert forall|j: int, i: int|
        0 <= j < next.stack.len() - 1 && 0 <= i < next.stack[j].children.len() implies (
    #[trigger] next.stack[j].children[i]).position.end_line < next.stack[j + 1].start_line by {
        assert(st.stack[j].children[i].position.end_line < st.stack[j + 1].start_line);
    }
}

proof fn lemma_scanned_ordered(st: ScanState, line: u32, raw: Seq<char>, upper: Seq<char>)
    requires
        state_ordered(st),
        state_nested(st, line as int),
    ensures
        state_ordered(st.scanned(line, raw, upper)),
{
    let words = text::words(upper);
    let next = st.scanned(line, raw, upper);
    let n = st.stack.len();
    if n > 0 {
        lemma_popped_ordered(st, line);
    }
    if !scanner::skipped(text::trim(raw)) && words.len() > 0 {
        match scanner::action_of(words, n > 0) {
            LineAction::Report => {
                lemma_leaf_ordered(next.roots.last());
            },
            LineAction::Open(kind) => {
                let block = next.stack.last();
                if block.children.len() > 0 {
                    lemma_leaf_ordered(block.children[0]);
                }
                assert(forall|j: int| 0 <= j < n ==> next.stack[j] == st.stack[j]);
                assert forall|j: int, i: int|
                    0 <= j < next.stack.len() - 1 && 0 <= i < next.stack[j].children.len() implies (
                #[trigger] next.stack[j].children[i]).position.end_line < next.stack[j
                    + 1].start_line by {
                    assert(next.stack[j] == st.stack[j]);
                    if j + 1 < n {
                        assert(st.stack[j].children[i].position.end_line < st.stack[j
                            + 1].start_line);
                    } else {
                        assert(st.stack[j].children[i].position.end_line < line);
                    }
                }
            },
            LineAction::Close => {},
            LineAction::CloseMethod => {
                if n > 0 {
                    let rest = st.popped();
                    let t = st.stack.last().closed(line);
                    if n > 1 {
                        assert forall|i: int| 0 <= i < rest.stack.last().children.len() implies (
                        #[trigger] rest.stack.last().children[i]).position.end_line
                            < t.position.start_line by {
                            assert(rest.stack.last() == st.stack[n - 2]);
                            assert(st.stack[n - 2].children[i].position.end_line
                                < st.stack[n - 1].start_line);
                        }
                    }
                    lemma_with_node_ordered(rest, t);
                }
            },
            LineAction::Statement => {
                if n > 0 {
                    let t = statement::statement_tree(
                        st.next_child_id(),
                        text::trim(raw),
                        upper,
                        line,
                        scanner::width(raw),
                    );
                    lemma_leaf_ordered(t);
                    assert forall|i: int| 0 <= i < st.stack.last().children.len() implies (
                    #[trigger] st.stack.last().children[i]).position.end_line
                        < t.position.start_line by {
                        assert(st.stack[n - 1].children[i].position.end_line < line);
                    }
                    lemma_with_node_ordered(st, t);
                }
            },
            LineAction::Ignore => {},
        }
    }
}

proof fn lemma_scan_lines_ordered(lines: Seq<Seq<char>>, n: nat)
    requires
        n <= lines.len() <= u32::MAX + 1,
    ensures
        state_ordered(scanner::scan_lines(lines, n)),
    decreases n,
{
    if n > 0 {
        let i = (n - 1) as nat;
        lemma_scan_lines_ordered(lines, i);
        lemma_scan_lines_nested(lines, i);
        lemma_scanned_ordered(
            scanner::scan_lines(lines, i),
            i as u32,
            lines[i as int],
            text::upper(text::trim(lines[i as int])),
        );
    }
}

proof fn lemma_drained_ordered(st: ScanState, last: u32)
    requires
        state_ordered(st),
    ensures
        all_ordered(st.drained(last)),
    decreases st.stack.len(),
{
    if st.stack.len() > 0 {
        lemma_popped_ordered(st, last);
        lemma_drained_ordered(st.popped().with_root(st.stack.last().closed(last)), last);
    }
}

/// In the scanner's tree the children of every node below the program stand in
/// the order of the source: each ends before the line on which the next
/// begins. Line numbers have 32 bits, so the source must not have more lines
/// than they can count.
pub proof fn law_siblings_are_in_order(source: Seq<char>)
    requires
        text::lines(source).len() <= u32::MAX + 1,
    ensures
        all_ordered(scanner::scanned_source(source).children),
{
    let lines = text::lines(source);
    lemma_scan_lines_ordered(lines, lines.len());
    lemma_drained_ordered(
        scanner::scan_lines(lines, lines.len()),
        scanner::last_line(lines.len()),
    );
}

/// Whether the finished nodes of a state follow one another, and the outermost
/// block begins behind them.
spec fn roots_in_order(st: ScanState) -> bool {
    &&& in_order(st.roots)
    &&& st.stack.len() > 0 ==> forall|i: int|
        0 <= i < st.roots.len() ==> (#[trigger] st.roots[i]).position.end_line
            < st.stack[0].start_line
}

proof fn lemma_scanned_roots(st: ScanState, line: u32, raw: Seq<char>, upper: Seq<char>)
    requires
        roots_in_order(st),
        state_nested(st, line as int),
        id_laws::nests(st, raw, upper),
    ensures
        roots_in_order(st.scanned(line, raw, upper)),
{
    let next = st.scanned(line, raw, upper);
    if next.roots.len() > st.roots.len() {
        lemma_in_order_push(st.roots, next.roots.last());
    }
}

proof fn lemma_scan_lines_roots(lines: Seq<Seq<char>>, n: nat)
    requires
        n <= lines.len() <= u32::MAX + 1,
        id_laws::well_nested(lines, n),
    ensures
        roots_in_order(scanner::scan_lines(lines, n)),
    decreases n,
{
    if n > 0 {
        let i = (n - 1) as nat;
        lemma_scan_lines_roots(lines, i);
        lemma_scan_lines_nested(lines, i);
        lemma_scanned_roots(
            scanner::scan_lines(lines, i),
            i as u32,
            lines[i as int],
            text::upper(text::trim(lines[i as int])),
        );
    }
}

/// In the scanner's tree of a well-nested source the blocks below the program
/// stand in the order of the source too.
pub proof fn law_blocks_are_in_order(source: Seq<char>)
    requires
        text::lines(source).len() <= u32::MAX + 1,
        id_laws::well_nested_source(source),
    ensures
        ordered(scanner::scanned_source(source)),
{
    let lines = text::lines(source);
    let st = scanner::scan_lines(lines, lines.len());
    let last = scanner::last_line(lines.len());
    lemma_scan_lines_roots(lines, lines.len());
    law_siblings_are_in_order(source);
    if st.stack.len() > 0 {
        let next = st.popped().with_root(st.stack.last().closed(last));
        lemma_in_order_push(st.roots, st.stack.last().closed(last));
        assert(st.drained(last) == next.drained(last));
        assert(next.drained(last) == next.roots);
    }
}

/// Whether no tree of a list ends before the one that precedes it does.
pub open spec fn ends_in_order(ts: Seq<SemanticTree>) -> bool {
    forall|i: int, k: int|
        0 <= i < k < ts.len() ==> (#[trigger] ts[i]).position.end_line <= (
        #[trigger] ts[k]).position.end_line
}

proof fn lemma_ends_in_order_push(ts: Seq<SemanticTree>, t: SemanticTree)
    requires
        ends_in_order(ts),
        all_nested(ts, 0, t.position.end_line + 1),
    ensures
        ends_in_order(ts.push(t)),
{
}

proof fn lemma_scan_lines_ends(lines: Seq<Seq<char>>, n: nat)
    requires
        n <= lines.len() <= u32::MAX + 1,
    ensures
        ends_in_order(scanner::scan_lines(lines, n).roots),
    decreases n,
{
    if n > 0 {
        let i = (n - 1) as nat;
        let st = scanner::scan_lines(lines, i);
        let next = scanner::scan_lines(lines, n);
        lemma_scan_lines_ends(lines, i);
        lemma_scan_lines_nested(lines, i);
        if next.roots.len() > st.roots.len() {
            let t = next.roots.last();
            assert(t.position.end_line == i as u32);
            assert(all_nested(st.roots, 0, t.position.end_line + 1));
            lemma_ends_in_order_push(st.roots, t);
        }
    }
}

proof fn lemma_drained_ends(st: ScanState, last: u32)
    requires
        ends_in_order(st.roots),
        state_nested(st, last + 1),
    ensures
        ends_in_order(st.drained(last)),
    decreases st.stack.len(),
{
    if st.stack.len() > 0 {
        let t = st.stack.last().closed(last);
        assert(nested(t));
        lemma_ends_in_order_push(st.roots, t);
        lemma_drained_ends(st.popped().with_root(t), last);
    }
}

/// The nodes directly below the program of the scanner's tree come in the order
/// of their last lines, however the blocks of the source nest. Line numbers
/// have 32 bits, so the source must not have more lines than they can count.
pub proof fn law_blocks_end_in_order(source: Seq<char>)
    requires
        text::lines(source).len() <= u32::MAX + 1,
    ensures
        ends_in_order(scanner::scanned_source(source).children),
{
    let lines = text::lines(source);
    let st = scanner::scan_lines(lines, lines.len());
    let last = scanner::last_line(lines.len());
    lemma_scan_lines_ends(lines, lines.len());
    lemma_scan_lines_nested(lines, lines.len());
    if lines.len() > 0 {
        lemma_drained_ends(st, last);
    } else {
        assert(st.drained(last).len() == 0);
    }
}

// ---------------------------------------------------------------------------
// Nothing is lost
// ---------------------------------------------------------------------------

/// The types and labels of the nodes in a tree.
pub open spec fn entries(t: SemanticTree) -> Multiset<(Seq<char>, Seq<char>)>
    decreases t,
{
    all_entries(t.children).insert((t.node_type, t.label))
}

/// The types and labels of the nodes in a list of trees.
pub open spec fn all_entries(ts: Seq<SemanticTree>) -> Multiset<(Seq<char>, Seq<char>)>
    decreases ts,
{
    if ts.len() == 0 {
        Multiset::empty()
    } else {
        all_entries(ts.drop_last()).add(entries(ts.last()))
    }
}

/// The types and labels of the open blocks and of the nodes in them.
pub open spec fn block_entries(stack: Seq<OpenBlock>) -> Multiset<(Seq<char>, Seq<char>)>
    decreases stack.len(),
{
    if stack.len() == 0 {
        Multiset::empty()
    } else {
        block_entries(stack.drop_last()).add(entries(stack.last().closed(0)))
    }
}

/// The types and labels of the nodes and blocks that a state holds.
pub open spec fn state_entries(st: ScanState) -> Multiset<(Seq<char>, Seq<char>)> {
    all_entries(st.roots).add(block_entries(st.stack))
}

/// The types and labels of the nodes that a line adds: that of a program
/// declaration, of a statement, or of a block and of its signature, if it has
/// one.
pub open spec fn added(nested: bool, raw: Seq<char>, upper: Seq<char>) -> Multiset<
    (Seq<char>, Seq<char>),
> {
    let words = text::words(upper);
    let none = Multiset::<(Seq<char>, Seq<char>)>::empty();
    if scanner::skipped(text::trim(raw)) || words.len() == 0 {
        none
    } else {
        match scanner::action_of(words, nested) {
            LineAction::Report => none.insert(("report"@, statement::name_at(words, 1))),
            LineAction::Open(kind) => {
                let signature = statement::signature_label(statement::words_from(words, 2));
                let block = none.insert((kind.name(), statement::name_at(words, 1)));
                if kind.is_class() || signature.len() == 0 {
                    block
                } else {
                    block.insert(("signature"@, signature))
                }
            },
            LineAction::Statement => none.insert(statement::statement_parts(text::trim(raw), upper)),
            _ => none,
        }
    }
}

proof fn lemma_all_entries_push(ts: Seq<SemanticTree>, t: SemanticTree)
    ensures
        all_entries(ts.push(t)) == all_entries(ts).add(entries(t)),
{
    assert(ts.push(t).drop_last() =~= ts);
}

proof fn lemma_block_entries_push(stack: Seq<OpenBlock>, b: OpenBlock)
    ensures
        block_entries(stack.push(b)) == block_entries(stack).add(entries(b.closed(0))),
{
    assert(stack.push(b).drop_last() =~= stack);
}

proof fn lemma_leaf_entries(t: SemanticTree)
    requires
        t.children.len() == 0,
    ensures
        entries(t) =~= Multiset::empty().insert((t.node_type, t.label)),
{
}

proof fn lemma_with_root_entries(st: ScanState, t: SemanticTree)
    ensures
        state_entries(st.with_root(t)) == state_entries(st).add(entries(t)),
{
    lemma_all_entries_push(st.roots, t);
    assert(state_entries(st.with_root(t)) =~= state_entries(st).add(entries(t)));
}

proof fn lemma_with_node_entries(st: ScanState, t: SemanticTree)
    ensures
        state_entries(st.with_node(t)) == state_entries(st).add(entries(t)),
{
    if st.stack.len() > 0 {
        let top = st.stack.last();
        let after = top.with_child(t);
        lemma_all_entries_push(top.children, t);
        lemma_block_entries_push(st.stack.drop_last(), after);
        assert(after.closed(0).children == after.children);
        assert(top.closed(0).children == top.children);
        assert(entries(after.closed(0)) =~= entries(top.closed(0)).add(entries(t)));
        assert(state_entries(st.with_node(t)) =~= state_entries(st).add(entries(t)));
    } else {
        lemma_with_root_entries(st, t);
    }
}

proof fn lemma_popped_entries(st: ScanState, line: u32)
    requires
        st.stack.len() > 0,
    ensures
        state_entries(st.popped()).add(entries(st.stack.last().closed(line))) == state_entries(st),
{
    assert(entries(st.stack.last().closed(line)) == entries(st.stack.last().closed(0)));
    assert(state_entries(st.popped()).add(entries(st.stack.last().closed(line))) =~= state_entries(
        st,
    ));
}

/// No line removes or changes the type or the label of a node: the state holds
/// what it held before and what the line adds.
pub proof fn law_lines_only_add(st: ScanState, line: u32, raw: Seq<char>, upper: Seq<char>)
    ensures
        state_entries(st.scanned(line, raw, upper)) == state_entries(st).add(
            added(st.stack.len() > 0, raw, upper),
        ),
{
    let words = text::words(upper);
    let nested = st.stack.len() > 0;
    let next = st.scanned(line, raw, upper);
    let more = added(nested, raw, upper);
    if !scanner::skipped(text::trim(raw)) && words.len() > 0 {
        let end_col = scanner::width(raw);
        match scanner::action_of(words, nested) {
            LineAction::Report => {
                let report = next.roots.last();
                lemma_leaf_entries(report);
                lemma_with_root_entries(st, report);
                assert(state_entries(next) == state_entries(st.with_root(report)));
            },
            LineAction::Open(kind) => {
                let block = next.stack.last();
                let t = block.closed(0);
                lemma_block_entries_push(st.stack, block);
                if block.children.len() > 0 {
                    let signature = block.children[0];
                    let none = Seq::<SemanticTree>::empty();
                    assert(block.children =~= none.push(signature));
                    lemma_all_entries_push(none, signature);
                    lemma_leaf_entries(signature);
                    assert(t.children == block.children);
                    assert(entries(t) =~= more);
                } else {
                    lemma_leaf_entries(t);
                }
                assert(state_entries(next) =~= state_entries(st).add(more));
            },
            LineAction::Close => {
                if nested {
                    lemma_popped_entries(st, line);
                    lemma_with_root_entries(st.popped(), st.stack.last().closed(line));
                }
                assert(state_entries(next) =~= state_entries(st).add(more));
            },
            LineAction::CloseMethod => {
                if nested {
                    lemma_popped_entries(st, line);
                    lemma_with_node_entries(st.popped(), st.stack.last().closed(line));
                }
                assert(state_entries(next) =~= state_entries(st).add(more));
            },
            LineAction::Statement => {
                let t = statement::statement_tree(
                    st.next_child_id(),
                    text::trim(raw),
                    upper,
                    line,
                    end_col,
                );
                lemma_leaf_entries(t);
                lemma_with_node_entries(st, t);
            },
            LineAction::Ignore => {
                assert(state_entries(next) =~= state_entries(st).add(more));
            },
        }
    } else {
        assert(state_entries(next) =~= state_entries(st).add(more));
    }
}

/// The end of the source removes nothing: what the open blocks hold is in the
/// tree, though their ends are missing.
pub proof fn law_open_blocks_are_kept(st: ScanState, last: u32)
    ensures
        all_entries(st.drained(last)) == state_entries(st),
    decreases st.stack.len(),
{
    if st.stack.len() > 0 {
        let t = st.stack.last().closed(last);
        lemma_popped_entries(st, last);
        lemma_with_root_entries(st.popped(), t);
        law_open_blocks_are_kept(st.popped().with_root(t), last);
    } else {
        assert(all_entries(st.drained(last)) =~= state_entries(st));
    }
}

/// The types and labels of the nodes that the line at `i` adds.
pub open spec fn added_at(lines: Seq<Seq<char>>, i: nat) -> Multiset<(Seq<char>, Seq<char>)> {
    added(
        scanner::scan_lines(lines, i).stack.len() > 0,
        lines[i as int],
        text::upper(text::trim(lines[i as int])),
    )
}

/// The types and labels of the nodes that the first `n` lines add.
pub open spec fn added_by(lines: Seq<Seq<char>>, n: nat) -> Multiset<(Seq<char>, Seq<char>)>
    decreases n,
{
    if n == 0 {
        Multiset::empty()
    } else {
        let i = (n - 1) as nat;
        added_by(lines, i).add(added_at(lines, i))
    }
}

proof fn lemma_scan_lines_entries(lines: Seq<Seq<char>>, n: nat)
    ensures
        state_entries(scanner::scan_lines(lines, n)) == added_by(lines, n),
    decreases n,
{
    if n > 0 {
        let i = (n - 1) as nat;
        let raw = lines[i as int];
        lemma_scan_lines_entries(lines, i);
        law_lines_only_add(
            scanner::scan_lines(lines, i),
            i as u32,
            raw,
            text::upper(text::trim(raw)),
        );
    } else {
        assert(state_entries(scanner::scan_lines(lines, n)) =~= added_by(lines, n));
    }
}

/// The scanner's tree holds the program and every node that a line of the
/// source added, each once, and no other.
pub proof fn law_nothing_is_lost(source: Seq<char>)
    ensures
        entries(scanner::scanned_source(source)) == added_by(
            text::lines(source),
            text::lines(source).len(),
        ).insert(("program"@, "program"@)),
{
    let lines = text::lines(source);
    lemma_scan_lines_entries(lines, lines.len());
    law_open_blocks_are_kept(
        scanner::scan_lines(lines, lines.len()),
        scanner::last_line(lines.len()),
    );
}

/// Whether a line with the given trimmed text in upper case has what the labels
/// of its nodes are made of: a name for a program declaration or a block, and
/// something to say for a statement.
pub open spec fn is_labelled(nested: bool, raw: Seq<char>, upper: Seq<char>) -> bool {
    let words = text::words(upper);
    scanner::skipped(text::trim(raw)) || words.len() == 0 || match scanner::action_of(
        words,
        nested,
    ) {
        LineAction::Report | LineAction::Open(_) => text_laws::names_something(words, 1),
        LineAction::Statement => text_laws::says_something(text::trim(raw), upper),
        _ => true,
    }
}

/// Whether each of the first `n` lines has what its labels are made of.
pub open spec fn all_labelled(lines: Seq<Seq<char>>, n: nat) -> bool
    decreases n,
{
    n > 0 ==> {
        let i = (n - 1) as nat;
        all_labelled(lines, i) && is_labelled(
            scanner::scan_lines(lines, i).stack.len() > 0,
            lines[i as int],
            text::upper(text::trim(lines[i as int])),
        )
    }
}

proof fn lemma_added_labelled(
    nested: bool,
    raw: Seq<char>,
    upper: Seq<char>,
    entry: (Seq<char>, Seq<char>),
)
    requires
        is_labelled(nested, raw, upper),
        added(nested, raw, upper).count(entry) > 0,
    ensures
        entry.1.len() > 0,
{
    text_laws::law_names_are_not_empty(text::words(upper), 1);
    text_laws::law_statement_labels(raw, upper);
}

proof fn lemma_added_by_labelled(lines: Seq<Seq<char>>, n: nat, entry: (Seq<char>, Seq<char>))
    requires
        all_labelled(lines, n),
        added_by(lines, n).count(entry) > 0,
    ensures
        entry.1.len() > 0,
    decreases n,
{
    if n > 0 {
        let i = (n - 1) as nat;
        if added_at(lines, i).count(entry) == 0 {
            lemma_added_by_labelled(lines, i, entry);
        } else {
            lemma_added_labelled(
                scanner::scan_lines(lines, i).stack.len() > 0,
                lines[i as int],
                text::upper(text::trim(lines[i as int])),
                entry,
            );
        }
    }
}

/// No label in the scanner's tree is empty, where every declaration and block
/// has a name and every statement in a block says something.
pub proof fn law_labels_are_not_empty(source: Seq<char>)
    requires
        all_labelled(text::lines(source), text::lines(source).len()),
    ensures
        forall|entry: (Seq<char>, Seq<char>)| #[trigger]
            entries(scanner::scanned_source(source)).count(entry) > 0 ==> entry.1.len() > 0,
{
    let lines = text::lines(source);
    law_nothing_is_lost(source);
    reveal_strlit("program");
    assert forall|entry: (Seq<char>, Seq<char>)| #[trigger]
        entries(scanner::scanned_source(source)).count(entry) > 0 implies entry.1.len() > 0 by {
        if added_by(lines, lines.len()).count(entry) > 0 {
            lemma_added_by_labelled(lines, lines.len(), entry);
        }
    }
}

// ---------------------------------------------------------------------------
// Comments
// ---------------------------------------------------------------------------

/// A tree without its positions.
pub open spec fn unplaced(t: SemanticTree) -> SemanticTree
    decreases t,
{
    SemanticTree {
        position: node::span(0, 0, 0),
        children: Seq::new(
            t.children.len(),
            |i: int|
                if 0 <= i < t.children.len() {
                    unplaced(t.children[i])
                } else {
                    arbitrary()
                },
        ),
        ..t
    }
}

/// A list of trees without their positions.
pub open spec fn all_unplaced(ts: Seq<SemanticTree>) -> Seq<SemanticTree> {
    Seq::new(ts.len(), |i: int| unplaced(ts[i]))
}

/// An open block without positions.
pub open spec fn block_unplaced(b: OpenBlock) -> OpenBlock {
    OpenBlock { start_line: 0, children: all_unplaced(b.children), ..b }
}

/// A state without positions.
pub open spec fn state_unplaced(st: ScanState) -> ScanState {
    ScanState {
        roots: all_unplaced(st.roots),
        stack: Seq::new(st.stack.len(), |j: int| block_unplaced(st.stack[j])),
        counter: st.counter,
    }
}

/// The lines that are neither empty nor comments.
pub open spec fn statement_lines(lines: Seq<Seq<char>>) -> Seq<Seq<char>>
    decreases lines.len(),
{
    if lines.len() == 0 {
        Seq::empty()
    } else if scanner::skipped(text::trim(lines.last())) {
        statement_lines(lines.drop_last())
    } else {
        statement_lines(lines.drop_last()).push(lines.last())
    }
}

proof fn lemma_unplaced_tree(
    id: Seq<char>,
    node_type: Seq<char>,
    label: Seq<char>,
    p: node::Position,
    children: Seq<SemanticTree>,
)
    ensures
        unplaced(node::tree(id, node_type, label, p, children)) == node::tree(
            id,
            node_type,
            label,
            node::span(0, 0, 0),
            all_unplaced(children),
        ),
{
    assert(unplaced(node::tree(id, node_type, label, p, children)).children =~= all_unplaced(
        children,
    ));
}

proof fn lemma_unplaced_push(ts: Seq<SemanticTree>, t: SemanticTree)
    ensures
        all_unplaced(ts.push(t)) == all_unplaced(ts).push(unplaced(t)),
{
    assert(all_unplaced(ts.push(t)) =~= all_unplaced(ts).push(unplaced(t)));
}

proof fn lemma_unplaced_closed(b: OpenBlock, end: u32)
    ensures
        unplaced(b.closed(end)) == unplaced(block_unplaced(b).closed(0)),
{
    let all = all_unplaced(b.children);
    lemma_unplaced_tree(b.id, b.node_type, b.label, node::span(b.start_line, end, 0), b.children);
    lemma_unplaced_tree(b.id, b.node_type, b.label, node::span(0, 0, 0), all);
    assert forall|i: int| 0 <= i < all.len() implies all_unplaced(all)[i] == all[i] by {
        lemma_unplaced_twice(b.children[i]);
    }
    assert(all_unplaced(all) =~= all);
}

proof fn lemma_unplaced_twice(t: SemanticTree)
    ensures
        unplaced(unplaced(t)) == unplaced(t),
    decreases t,
{
    let once = unplaced(t);
    assert forall|i: int| 0 <= i < t.children.len() implies unplaced(once).children[i]
        == once.children[i] by {
        lemma_unplaced_twice(t.children[i]);
    }
    assert(unplaced(once).children =~= once.children);
}

proof fn lemma_unplaced_root(st: ScanState, t: SemanticTree)
    ensures
        state_unplaced(st.with_root(t)) == state_unplaced(st).with_root(unplaced(t)),
{
    lemma_unplaced_push(st.roots, t);
}

proof fn lemma_unplaced_popped(st: ScanState)
    requires
        st.stack.len() > 0,
    ensures
        state_unplaced(st.popped()) == state_unplaced(st).popped(),
        state_unplaced(st).stack.last() == block_unplaced(st.stack.last()),
{
    assert(state_unplaced(st.popped()).stack =~= state_unplaced(st).popped().stack);
}

proof fn lemma_unplaced_node(st: ScanState, t: SemanticTree)
    ensures
        state_unplaced(st.with_node(t)) == state_unplaced(st).with_node(unplaced(t)),
{
    if st.stack.len() > 0 {
        lemma_unplaced_popped(st);
        lemma_unplaced_push(st.stack.last().children, t);
        assert(state_unplaced(st.with_node(t)).stack =~= state_unplaced(st).with_node(
            unplaced(t),
        ).stack);
    } else {
        lemma_unplaced_root(st, t);
    }
}

/// What a line does to a state does not depend on positions.
proof fn lemma_unplaced_scanned(
    a: ScanState,
    b: ScanState,
    line_a: u32,
    line_b: u32,
    raw: Seq<char>,
    upper: Seq<char>,
)
    requires
        state_unplaced(a) == state_unplaced(b),
    ensures
        state_unplaced(a.scanned(line_a, raw, upper)) == state_unplaced(
            b.scanned(line_b, raw, upper),
        ),
{
    let words = text::words(upper);
    let trimmed = text::trim(raw);
    let w = scanner::width(raw);
    assert(a.stack.len() == state_unplaced(a).stack.len());
    assert(b.stack.len() == state_unplaced(b).stack.len());
    if a.stack.len() > 0 {
        lemma_unplaced_popped(a);
        lemma_unplaced_popped(b);
        let top = block_unplaced(a.stack.last());
        assert(top.children.len() == a.stack.last().children.len());
        assert(top == block_unplaced(b.stack.last()));
        assert(top.children.len() == b.stack.last().children.len());
        assert(a.next_child_id() == b.next_child_id());
        lemma_unplaced_closed(a.stack.last(), line_a);
        lemma_unplaced_closed(b.stack.last(), line_b);
    }
    if !scanner::skipped(trimmed) && words.len() > 0 {
        match scanner::action_of(words, a.stack.len() > 0) {
            LineAction::Report => {
                let ra = a.reported(words, line_a).roots.last();
                let rb = b.reported(words, line_b).roots.last();
                lemma_unplaced_tree(ra.id, ra.node_type, ra.label, ra.position, ra.children);
                lemma_unplaced_tree(rb.id, rb.node_type, rb.label, rb.position, rb.children);
                lemma_unplaced_root(a, ra);
                lemma_unplaced_root(b, rb);
            },
            LineAction::Open(kind) => {
                let na = a.opened(kind, words, line_a, w);
                let nb = b.opened(kind, words, line_b, w);
                let ca = na.stack.last().children;
                let cb = nb.stack.last().children;
                if ca.len() > 0 {
                    let (sa, sb) = (ca[0], cb[0]);
                    lemma_unplaced_tree(sa.id, sa.node_type, sa.label, sa.position, sa.children);
                    lemma_unplaced_tree(sb.id, sb.node_type, sb.label, sb.position, sb.children);
                }
                assert(all_unplaced(ca) =~= all_unplaced(cb));
                assert(state_unplaced(na).stack =~= state_unplaced(a).stack.push(
                    block_unplaced(na.stack.last()),
                ));
                assert(state_unplaced(nb).stack =~= state_unplaced(b).stack.push(
                    block_unplaced(nb.stack.last()),
                ));
            },
            LineAction::Close => {
                if a.stack.len() > 0 {
                    lemma_unplaced_root(a.popped(), a.stack.last().closed(line_a));
                    lemma_unplaced_root(b.popped(), b.stack.last().closed(line_b));
                }
            },
            LineAction::CloseMethod => {
                if a.stack.len() > 0 {
                    lemma_unplaced_node(a.popped(), a.stack.last().closed(line_a));
                    lemma_unplaced_node(b.popped(), b.stack.last().closed(line_b));
                }
            },
            LineAction::Statement => {
                let id = a.next_child_id();
                let ta = statement::statement_tree(id, trimmed, upper, line_a, w);
                let tb = statement::statement_tree(id, trimmed, upper, line_b, w);
                lemma_unplaced_tree(ta.id, ta.node_type, ta.label, ta.position, ta.children);
                lemma_unplaced_tree(tb.id, tb.node_type, tb.label, tb.position, tb.children);
                lemma_unplaced_node(a, ta);
                lemma_unplaced_node(b, tb);
            },
            LineAction::Ignore => {},
        }
    }
}

proof fn lemma_unplaced_drained(a: ScanState, b: ScanState, last_a: u32, last_b: u32)
    requires
        state_unplaced(a) == state_unplaced(b),
    ensures
        all_unplaced(a.drained(last_a)) == all_unplaced(b.drained(last_b)),
    decreases a.stack.len(),
{
    assert(a.stack.len() == state_unplaced(a).stack.len());
    assert(b.stack.len() == state_unplaced(b).stack.len());
    if a.stack.len() > 0 {
        lemma_unplaced_popped(a);
        lemma_unplaced_popped(b);
        lemma_unplaced_closed(a.stack.last(), last_a);
        lemma_unplaced_closed(b.stack.last(), last_b);
        lemma_unplaced_root(a.popped(), a.stack.last().closed(last_a));
        lemma_unplaced_root(b.popped(), b.stack.last().closed(last_b));
        lemma_unplaced_drained(
            a.popped().with_root(a.stack.last().closed(last_a)),
            b.popped().with_root(b.stack.last().closed(last_b)),
            last_a,
            last_b,
        );
    }
}

proof fn lemma_unplaced_entries(t: SemanticTree)
    ensures
        entries(unplaced(t)) == entries(t),
    decreases t, 1int,
{
    lemma_all_unplaced_entries(t.children);
    assert(unplaced(t).children =~= all_unplaced(t.children));
}

proof fn lemma_all_unplaced_entries(ts: Seq<SemanticTree>)
    ensures
        all_entries(all_unplaced(ts)) == all_entries(ts),
    decreases ts, 0int,
{
    if ts.len() > 0 {
        lemma_all_unplaced_entries(ts.drop_last());
        lemma_unplaced_entries(ts.last());
        assert(all_unplaced(ts).drop_last() =~= all_unplaced(ts.drop_last()));
    }
}

/// A change of a signature, of a statement or of a name shows: where the lines
/// of two sources add different nodes, the trees differ in more than their
/// positions.
pub proof fn law_changes_show(a: Seq<char>, b: Seq<char>)
    requires
        added_by(text::lines(a), text::lines(a).len()) != added_by(
            text::lines(b),
            text::lines(b).len(),
        ),
    ensures
        unplaced(scanner::scanned_source(a)) != unplaced(scanner::scanned_source(b)),
{
    let (ta, tb) = (scanner::scanned_source(a), scanner::scanned_source(b));
    let (na, nb) = (
        added_by(text::lines(a), text::lines(a).len()),
        added_by(text::lines(b), text::lines(b).len()),
    );
    let program = ("program"@, "program"@);
    law_nothing_is_lost(a);
    law_nothing_is_lost(b);
    lemma_unplaced_entries(ta);
    lemma_unplaced_entries(tb);
    if unplaced(ta) == unplaced(tb) {
        assert(na.insert(program).remove(program) =~= na);
        assert(nb.insert(program).remove(program) =~= nb);
    }
}

/// The state after some lines depends on those lines alone.
proof fn lemma_scan_lines_prefix(a: Seq<Seq<char>>, b: Seq<Seq<char>>, n: nat)
    requires
        n <= a.len(),
        n <= b.len(),
        forall|i: int| 0 <= i < n ==> a[i] == b[i],
    ensures
        scanner::scan_lines(a, n) == scanner::scan_lines(b, n),
    decreases n,
{
    if n > 0 {
        lemma_scan_lines_prefix(a, b, (n - 1) as nat);
    }
}

/// The lines that are left without comments give the same state but for the
/// positions.
proof fn lemma_statement_lines(lines: Seq<Seq<char>>)
    ensures
        state_unplaced(scanner::scan_lines(lines, lines.len())) == state_unplaced(
            scanner::scan_lines(statement_lines(lines), statement_lines(lines).len()),
        ),
    decreases lines.len(),
{
    if lines.len() > 0 {
        let before = lines.drop_last();
        let raw = lines.last();
        let n = before.len();
        let kept = statement_lines(lines);
        lemma_statement_lines(before);
        lemma_scan_lines_prefix(lines, before, n);
        if !scanner::skipped(text::trim(raw)) {
            let short = statement_lines(before);
            let m = short.len();
            lemma_scan_lines_prefix(kept, short, m);
            lemma_unplaced_scanned(
                scanner::scan_lines(before, n),
                scanner::scan_lines(short, m),
                n as u32,
                m as u32,
                raw,
                text::upper(text::trim(raw)),
            );
        }
    }
}

/// Comments and empty lines move what stands behind them and do nothing else:
/// two sources that differ only in such lines have the same tree but for the
/// positions.
pub proof fn law_comments_only_move(a: Seq<char>, b: Seq<char>)
    requires
        statement_lines(text::lines(a)) == statement_lines(text::lines(b)),
    ensures
        unplaced(scanner::scanned_source(a)) == unplaced(scanner::scanned_source(b)),
{
    let la = text::lines(a);
    let lb = text::lines(b);
    let sa = scanner::scan_lines(la, la.len());
    let sb = scanner::scan_lines(lb, lb.len());
    let ea = scanner::last_line(la.len());
    let eb = scanner::last_line(lb.len());
    lemma_statement_lines(la);
    lemma_statement_lines(lb);
    lemma_unplaced_drained(sa, sb, ea, eb);
    lemma_unplaced_tree("0"@, "program"@, "program"@, node::span(0, ea, 0), sa.drained(ea));
    lemma_unplaced_tree("0"@, "program"@, "program"@, node::span(0, eb, 0), sb.drained(eb));
}

// ---------------------------------------------------------------------------
// Single lines
// ---------------------------------------------------------------------------

/// A comment or an empty line changes nothing.
pub proof fn law_comments_are_ignored(st: ScanState, line: u32, raw: Seq<char>, upper: Seq<char>)
    requires
        scanner::skipped(text::trim(raw)),
    ensures
        st.scanned(line, raw, upper) == st,
{
}

/// Inside a block, a line that is none of the block keywords becomes exactly
/// one more child of the innermost block, and nothing else changes.
pub proof fn law_statements_are_kept(st: ScanState, line: u32, raw: Seq<char>, upper: Seq<char>)
    requires
        !scanner::skipped(text::trim(raw)),
        text::words(upper).len() > 0,
        st.stack.len() > 0,
        scanner::action_of(text::words(upper), true) is Statement,
    ensures
        ({
            let next = st.scanned(line, raw, upper);
            let before = st.stack.last();
            let after = next.stack.last();
            let (node_type, label) = statement::statement_parts(text::trim(raw), upper);
            &&& next.roots == st.roots
            &&& next.counter == st.counter
            &&& next.stack.len() == st.stack.len()
            &&& next.stack.drop_last() == st.stack.drop_last()
            &&& after.children.len() == before.children.len() + 1
            &&& after.children.drop_last() == before.children
            &&& after.children.last().node_type == node_type
            &&& after.children.last().label == label
            &&& after == (OpenBlock { children: after.children, ..before })
        }),
{
    let next = st.scanned(line, raw, upper);
    let t = statement::statement_tree(
        st.next_child_id(),
        text::trim(raw),
        upper,
        line,
        scanner::width(raw),
    );
    assert(next.stack.drop_last() =~= st.stack.drop_last());
    assert(next.stack.last() == st.stack.last().with_child(t));
    assert(next.stack.last().children.drop_last() =~= st.stack.last().children);
}

/// A block other than a class keeps its signature as its first child, where its
/// first line has more than punctuation behind the name.
pub proof fn law_signatures_are_kept(st: ScanState, line: u32, raw: Seq<char>, upper: Seq<char>)
    requires
        !scanner::skipped(text::trim(raw)),
        text::words(upper).len() > 0,
        scanner::action_of(text::words(upper), st.stack.len() > 0) matches LineAction::Open(kind)
            && !kind.is_class(),
        statement::signature_label(text::words(upper).skip(2)).len() > 0,
    ensures
        ({
            let block = st.scanned(line, raw, upper).stack.last();
            &&& block.label == statement::name_at(text::words(upper), 1)
            &&& block.children.len() == 1
            &&& block.children[0].node_type == "signature"@
            &&& block.children[0].label == statement::signature_label(text::words(upper).skip(2))
        }),
{
}

} // verus!
