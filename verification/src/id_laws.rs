//! Laws of identifiers: how nodes are numbered, and where identifiers are
//! unique.
use crate::node;
use crate::node::SemanticTree;
use crate::scanner;
use crate::scanner::{LineAction, OpenBlock, ScanState};
use crate::statement;
use crate::text;
use vstd::prelude::*;

verus! {

// ---------------------------------------------------------------------------
// Numbers and identifiers
// ---------------------------------------------------------------------------

/// A decimal number has at least one digit and no full stop.
pub proof fn lemma_decimal_digits(n: nat)
    ensures
        text::decimal(n).len() > 0,
        forall|i: int| 0 <= i < text::decimal(n).len() ==> text::decimal(n)[i] != '.',
    decreases n,
{
    if n >= 10 {
        lemma_decimal_digits(n / 10);
    }
}

/// Different numbers have different digits.
pub proof fn lemma_decimal_injective(n: nat, m: nat)
    requires
        text::decimal(n) == text::decimal(m),
    ensures
        n == m,
    decreases n,
{
    let (dn, dm) = (text::decimal(n), text::decimal(m));
    if n < 10 {
        if m >= 10 {
            lemma_decimal_digits(m / 10);
            assert(dm.len() > 1);
        }
        assert(dn[0] == text::digit(n));
        assert(dm[0] == text::digit(m));
    } else {
        lemma_decimal_digits(n / 10);
        if m < 10 {
            assert(dn.len() > 1);
        }
        assert(dn.drop_last() =~= text::decimal(n / 10));
        assert(dm.drop_last() =~= text::decimal(m / 10));
        lemma_decimal_injective(n / 10, m / 10);
        assert(dn.last() == text::digit(n % 10));
        assert(dm.last() == text::digit(m % 10));
    }
}

/// Whether `id` is `top` or lies below it.
pub open spec fn below(id: Seq<char>, top: Seq<char>) -> bool {
    id == top || text::has_prefix(id, top.push('.'))
}

/// What lies below a child lies below its parent and is not the parent.
pub proof fn lemma_below_child(id: Seq<char>, top: Seq<char>, i: nat)
    requires
        below(id, node::child_id(top, i)),
    ensures
        below(id, top),
        id != top,
{
    lemma_decimal_digits(i);
    let child = node::child_id(top, i);
    let n = top.push('.').len();
    assert(child.take(n as int) =~= top.push('.'));
    if id != child {
        let m = child.push('.').len();
        assert(id.take(m as int).take(n as int) =~= id.take(n as int));
        assert(child.push('.').take(n as int) =~= top.push('.'));
    }
}

/// What lies below one child does not lie below another.
pub proof fn lemma_below_one_child(id: Seq<char>, top: Seq<char>, i: nat, j: nat)
    requires
        below(id, node::child_id(top, i)),
        below(id, node::child_id(top, j)),
    ensures
        i == j,
{
    if text::decimal(i).len() <= text::decimal(j).len() {
        lemma_below_one_child_ordered(id, top, i, j);
    } else {
        lemma_below_one_child_ordered(id, top, j, i);
    }
}

/// What lies below an identifier begins with it, up to a full stop or the end.
pub proof fn lemma_below_starts(id: Seq<char>, top: Seq<char>)
    requires
        below(id, top),
    ensures
        id.len() >= top.len(),
        forall|k: int| 0 <= k < top.len() ==> id[k] == top[k],
        id.len() > top.len() ==> id[top.len() as int] == '.',
{
    if id != top {
        let p = top.push('.');
        let q = id.take(p.len() as int);
        assert(forall|k: int| 0 <= k < p.len() ==> id[k] == q[k]);
    }
}

proof fn lemma_below_one_child_ordered(id: Seq<char>, top: Seq<char>, i: nat, j: nat)
    requires
        below(id, node::child_id(top, i)),
        below(id, node::child_id(top, j)),
        text::decimal(i).len() <= text::decimal(j).len(),
    ensures
        i == j,
{
    let (di, dj) = (text::decimal(i), text::decimal(j));
    let (ci, cj) = (node::child_id(top, i), node::child_id(top, j));
    let n: int = top.len() + 1int;
    lemma_decimal_digits(i);
    lemma_decimal_digits(j);
    lemma_below_starts(id, ci);
    lemma_below_starts(id, cj);
    assert(forall|k: int| 0 <= k < di.len() ==> ci[n + k] == di[k]);
    assert(forall|k: int| 0 <= k < dj.len() ==> cj[n + k] == dj[k]);
    if di.len() < dj.len() {
        assert(id[n + di.len()] == '.');
        assert(cj[n + di.len()] == dj[di.len() as int]);
    }
    assert forall|k: int| 0 <= k < di.len() implies di[k] == dj[k] by {
        assert(id[n + k] == ci[n + k]);
        assert(id[n + k] == cj[n + k]);
    }
    assert(di =~= dj);
    lemma_decimal_injective(i, j);
}

// ---------------------------------------------------------------------------
// Unique identifiers
// ---------------------------------------------------------------------------

/// Whether a node of a tree has the identifier `id`.
pub open spec fn has_id(t: SemanticTree, id: Seq<char>) -> bool
    decreases t,
{
    ||| t.id == id
    ||| exists|i: int| 0 <= i < t.children.len() && has_id(#[trigger] t.children[i], id)
}

/// Whether no two nodes of a list of trees, in different trees, have the same
/// identifier.
pub open spec fn apart(ts: Seq<SemanticTree>) -> bool {
    forall|i: int, j: int, id: Seq<char>|
        0 <= i < j < ts.len() && #[trigger] has_id(ts[i], id) ==> !#[trigger] has_id(ts[j], id)
}

/// Whether no two nodes of a tree have the same identifier.
pub open spec fn unique_ids(t: SemanticTree) -> bool
    decreases t,
{
    &&& apart(t.children)
    &&& forall|i: int|
        0 <= i < t.children.len() ==> !has_id(#[trigger] t.children[i], t.id) && unique_ids(
            t.children[i],
        )
}

/// Whether the identifiers of a tree are `top` or lie below it.
pub open spec fn ids_below(t: SemanticTree, top: Seq<char>) -> bool {
    forall|id: Seq<char>| #[trigger] has_id(t, id) ==> below(id, top)
}

// ---------------------------------------------------------------------------
// Numbering by place
// ---------------------------------------------------------------------------

/// Whether the children of each node are numbered by their place.
pub open spec fn numbered(t: SemanticTree) -> bool
    decreases t,
{
    forall|k: int|
        0 <= k < t.children.len() ==> (#[trigger] t.children[k]).id == node::child_id(
            t.id,
            k as nat,
        ) && numbered(t.children[k])
}

proof fn lemma_numbered_below(t: SemanticTree)
    requires
        numbered(t),
    ensures
        ids_below(t, t.id),
    decreases t,
{
    assert forall|id: Seq<char>| #[trigger] has_id(t, id) implies below(id, t.id) by {
        if t.id != id {
            let k = choose|k: int| 0 <= k < t.children.len() && has_id(#[trigger] t.children[k], id);
            lemma_numbered_below(t.children[k]);
            lemma_below_child(id, t.id, k as nat);
        }
    }
}

/// A tree whose nodes are numbered by their place has no identifier twice.
pub proof fn law_numbered_is_unique(t: SemanticTree)
    requires
        numbered(t),
    ensures
        unique_ids(t),
    decreases t,
{
    assert forall|i: int| 0 <= i < t.children.len() implies !has_id(#[trigger] t.children[i], t.id)
        && unique_ids(t.children[i]) by {
        law_numbered_is_unique(t.children[i]);
        lemma_numbered_below(t.children[i]);
        if has_id(t.children[i], t.id) {
            lemma_below_child(t.id, t.id, i as nat);
        }
    }
    assert forall|i: int, j: int, id: Seq<char>|
        0 <= i < j < t.children.len() && #[trigger] has_id(
            t.children[i],
            id,
        ) implies !#[trigger] has_id(t.children[j], id) by {
        lemma_numbered_below(t.children[i]);
        lemma_numbered_below(t.children[j]);
        if has_id(t.children[j], id) {
            lemma_below_one_child(id, t.id, i as nat, j as nat);
        }
    }
}

// ---------------------------------------------------------------------------
// The scanner: blocks
// ---------------------------------------------------------------------------

/// The types of the nodes for parts of classes.
pub open spec fn is_class_type(node_type: Seq<char>) -> bool {
    node_type == "class_definition"@ || node_type == "class_impl"@
}

/// Whether the children of each node, other than parts of classes, are numbered
/// by their place.
pub open spec fn numbered_but_classes(t: SemanticTree) -> bool
    decreases t,
{
    forall|k: int|
        0 <= k < t.children.len() ==> (is_class_type((#[trigger] t.children[k]).node_type)
            || t.children[k].id == node::child_id(t.id, k as nat)) && numbered_but_classes(
            t.children[k],
        )
}

/// The same of the children of an open block.
pub open spec fn block_numbered_but_classes(b: OpenBlock) -> bool {
    numbered_but_classes(b.closed(0))
}

/// The same of a state. A block inside another bears the number of the place
/// that it will take, unless it is a part of a class.
pub open spec fn state_numbered_but_classes(st: ScanState) -> bool {
    &&& forall|k: int| 0 <= k < st.roots.len() ==> numbered_but_classes(#[trigger] st.roots[k])
    &&& forall|j: int|
        0 <= j < st.stack.len() ==> block_numbered_but_classes(#[trigger] st.stack[j])
    &&& forall|j: int|
        0 < j < st.stack.len() ==> is_class_type((#[trigger] st.stack[j]).node_type)
            || st.stack[j].id == node::child_id(
            st.stack[j - 1].id,
            st.stack[j - 1].children.len(),
        )
}

proof fn lemma_block_child(b: OpenBlock, t: SemanticTree)
    requires
        block_numbered_but_classes(b),
        numbered_but_classes(t),
        is_class_type(t.node_type) || t.id == node::child_id(b.id, b.children.len()),
    ensures
        block_numbered_but_classes(b.with_child(t)),
{
    let after = b.with_child(t).closed(0);
    assert forall|k: int| 0 <= k < after.children.len() implies (is_class_type(
        (#[trigger] after.children[k]).node_type,
    ) || after.children[k].id == node::child_id(after.id, k as nat)) && numbered_but_classes(
        after.children[k],
    ) by {
        if k < b.children.len() {
            assert(after.children[k] == b.closed(0).children[k]);
        }
    }
}

proof fn lemma_leaf_numbered_but_classes(t: SemanticTree)
    requires
        t.children.len() == 0,
    ensures
        numbered_but_classes(t),
{
}

proof fn lemma_closed_numbered_but_classes(b: OpenBlock, line: u32)
    requires
        block_numbered_but_classes(b),
    ensures
        numbered_but_classes(b.closed(line)),
{
    let (t, u) = (b.closed(0), b.closed(line));
    assert forall|k: int| 0 <= k < u.children.len() implies (is_class_type(
        (#[trigger] u.children[k]).node_type,
    ) || u.children[k].id == node::child_id(u.id, k as nat)) && numbered_but_classes(
        u.children[k],
    ) by {
        assert(u.children[k] == t.children[k]);
    }
}

proof fn lemma_scanned_numbered_but_classes(
    st: ScanState,
    line: u32,
    raw: Seq<char>,
    upper: Seq<char>,
)
    requires
        state_numbered_but_classes(st),
    ensures
        state_numbered_but_classes(st.scanned(line, raw, upper)),
{
    let words = text::words(upper);
    let next = st.scanned(line, raw, upper);
    let n = st.stack.len();
    if n > 0 {
        lemma_closed_numbered_but_classes(st.stack.last(), line);
    }
    if !scanner::skipped(text::trim(raw)) && words.len() > 0 {
        match scanner::action_of(words, n > 0) {
            LineAction::Open(kind) => {
                let block = next.stack.last();
                assert(block.closed(0).children == block.children);
                assert forall|j: int| 0 <= j < next.stack.len() implies block_numbered_but_classes(
                    #[trigger] next.stack[j],
                ) by {
                    if j < n {
                        assert(next.stack[j] == st.stack[j]);
                    } else if block.children.len() > 0 {
                        lemma_leaf_numbered_but_classes(block.children[0]);
                    }
                }
                assert forall|j: int| 0 < j < next.stack.len() implies is_class_type(
                    (#[trigger] next.stack[j]).node_type,
                ) || next.stack[j].id == node::child_id(
                    next.stack[j - 1].id,
                    next.stack[j - 1].children.len(),
                ) by {
                    if j < n {
                        assert(next.stack[j] == st.stack[j]);
                    }
                }
            },
            LineAction::CloseMethod => {
                if n > 1 {
                    assert(st.stack[n - 1] == st.stack.last());
                    lemma_block_child(st.stack[n - 2], st.stack.last().closed(line));
                }
            },
            LineAction::Statement => {
                if n > 0 {
                    let t = statement::statement_tree(
                        st.next_child_id(),
                        text::trim(raw),
                        upper,
                        line,
                        scanner::width(raw),
                    );
                    lemma_block_child(st.stack.last(), t);
                }
            },
            _ => {},
        }
    }
}

proof fn lemma_scan_lines_numbered_but_classes(lines: Seq<Seq<char>>, n: nat)
    ensures
        state_numbered_but_classes(scanner::scan_lines(lines, n)),
    decreases n,
{
    if n > 0 {
        let i = (n - 1) as nat;
        lemma_scan_lines_numbered_but_classes(lines, i);
        lemma_scanned_numbered_but_classes(
            scanner::scan_lines(lines, i),
            i as u32,
            lines[i as int],
            text::upper(text::trim(lines[i as int])),
        );
    }
}

proof fn lemma_drained_numbered_but_classes(st: ScanState, last: u32)
    requires
        state_numbered_but_classes(st),
    ensures
        forall|k: int|
            0 <= k < st.drained(last).len() ==> numbered_but_classes(
                #[trigger] st.drained(last)[k],
            ),
    decreases st.stack.len(),
{
    if st.stack.len() > 0 {
        let next = st.popped().with_root(st.stack.last().closed(last));
        lemma_closed_numbered_but_classes(st.stack.last(), last);
        assert(state_numbered_but_classes(next)) by {
            assert(forall|j: int| 0 <= j < next.stack.len() ==> next.stack[j] == st.stack[j]);
        }
        lemma_drained_numbered_but_classes(next, last);
        assert(st.drained(last) == next.drained(last));
    }
}

/// In the scanner's tree of every source, the child at place `k` of a node
/// other than the program bears the number `k` below the node, unless it is a
/// part of a class.
pub proof fn law_children_are_numbered(source: Seq<char>)
    ensures
        forall|i: int|
            0 <= i < scanner::scanned_source(source).children.len() ==> numbered_but_classes(
                #[trigger] scanner::scanned_source(source).children[i],
            ),
{
    let lines = text::lines(source);
    lemma_scan_lines_numbered_but_classes(lines, lines.len());
    lemma_drained_numbered_but_classes(
        scanner::scan_lines(lines, lines.len()),
        scanner::last_line(lines.len()),
    );
}

// ---------------------------------------------------------------------------
// The scanner: well-nested sources
// ---------------------------------------------------------------------------

/// Whether a line with the given trimmed text in upper case nests well in a
/// state: no class begins inside a block, and no block other than a method
/// ends inside another.
pub open spec fn nests(st: ScanState, raw: Seq<char>, upper: Seq<char>) -> bool {
    let words = text::words(upper);
    scanner::skipped(text::trim(raw)) || words.len() == 0 || match scanner::action_of(
        words,
        st.stack.len() > 0,
    ) {
        LineAction::Open(kind) => kind.is_class() ==> st.stack.len() == 0,
        LineAction::Close => st.stack.len() <= 1,
        _ => true,
    }
}

/// Whether the first `n` lines nest well.
pub open spec fn well_nested(lines: Seq<Seq<char>>, n: nat) -> bool
    decreases n,
{
    n > 0 ==> {
        let i = (n - 1) as nat;
        well_nested(lines, i) && nests(
            scanner::scan_lines(lines, i),
            lines[i as int],
            text::upper(text::trim(lines[i as int])),
        )
    }
}

/// Whether all lines of a source nest well, and at most one block, not inside
/// another, has no end.
pub open spec fn well_nested_source(source: Seq<char>) -> bool {
    let lines = text::lines(source);
    well_nested(lines, lines.len()) && scanner::scan_lines(lines, lines.len()).stack.len() <= 1
}

/// Whether a list of nodes below `parent` is numbered by place.
pub open spec fn all_numbered(parent: Seq<char>, ts: Seq<SemanticTree>) -> bool {
    forall|k: int|
        0 <= k < ts.len() ==> (#[trigger] ts[k]).id == node::child_id(parent, k as nat)
            && numbered(ts[k])
}

/// Whether the nodes of a state are numbered by place, and each open block
/// bears the number of the place that it will take.
pub open spec fn state_numbered(st: ScanState) -> bool {
    &&& all_numbered("0"@, st.roots)
    &&& forall|j: int|
        0 <= j < st.stack.len() ==> all_numbered(
            (#[trigger] st.stack[j]).id,
            st.stack[j].children,
        )
    &&& forall|j: int|
        0 < j < st.stack.len() ==> (#[trigger] st.stack[j]).id == node::child_id(
            st.stack[j - 1].id,
            st.stack[j - 1].children.len(),
        )
    &&& st.stack.len() > 0 ==> st.stack[0].id == node::child_id("0"@, st.roots.len())
    &&& st.counter == st.roots.len() + (if st.stack.len() > 0 {
        1nat
    } else {
        0nat
    })
}

proof fn lemma_closed_numbered(b: OpenBlock, line: u32)
    requires
        all_numbered(b.id, b.children),
    ensures
        numbered(b.closed(line)),
{
}

proof fn lemma_leaf_numbered(t: SemanticTree)
    requires
        t.children.len() == 0,
    ensures
        numbered(t),
{
}

proof fn lemma_scanned_numbered(st: ScanState, line: u32, raw: Seq<char>, upper: Seq<char>)
    requires
        state_numbered(st),
        nests(st, raw, upper),
    ensures
        state_numbered(st.scanned(line, raw, upper)),
{
    let words = text::words(upper);
    let next = st.scanned(line, raw, upper);
    let n = st.stack.len();
    if n > 0 {
        lemma_closed_numbered(st.stack.last(), line);
    }
    if !scanner::skipped(text::trim(raw)) && words.len() > 0 {
        match scanner::action_of(words, n > 0) {
            LineAction::Report => {
                lemma_leaf_numbered(next.roots.last());
            },
            LineAction::Open(kind) => {
                let block = next.stack.last();
                if block.children.len() > 0 {
                    lemma_leaf_numbered(block.children[0]);
                }
                assert(forall|j: int| 0 <= j < n ==> next.stack[j] == st.stack[j]);
            },
            LineAction::Statement => {
                if n > 0 {
                    lemma_leaf_numbered(next.stack.last().children.last());
                }
            },
            _ => {},
        }
    }
}

proof fn lemma_scan_lines_numbered(lines: Seq<Seq<char>>, n: nat)
    requires
        well_nested(lines, n),
    ensures
        state_numbered(scanner::scan_lines(lines, n)),
    decreases n,
{
    if n > 0 {
        let i = (n - 1) as nat;
        lemma_scan_lines_numbered(lines, i);
        lemma_scanned_numbered(
            scanner::scan_lines(lines, i),
            i as u32,
            lines[i as int],
            text::upper(text::trim(lines[i as int])),
        );
    }
}

/// In the scanner's tree of a well-nested source, every child bears the number
/// of its place below its parent.
pub proof fn law_well_nested_is_numbered(source: Seq<char>)
    requires
        well_nested_source(source),
    ensures
        numbered(scanner::scanned_source(source)),
{
    let lines = text::lines(source);
    let st = scanner::scan_lines(lines, lines.len());
    let last = scanner::last_line(lines.len());
    lemma_scan_lines_numbered(lines, lines.len());
    if st.stack.len() > 0 {
        let next = st.popped().with_root(st.stack.last().closed(last));
        lemma_closed_numbered(st.stack.last(), last);
        assert(next.stack.len() == 0);
        assert(st.drained(last) == next.drained(last));
        assert(next.drained(last) == next.roots);
    }
}

} // verus!
