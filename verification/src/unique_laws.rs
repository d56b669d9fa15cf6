//! Laws of identifiers: where no identifier occurs twice.
use crate::id_laws;
use crate::node;
use crate::node::SemanticTree;
use crate::scanner;
use crate::scanner::{LineAction, OpenBlock, ScanState};
use crate::statement;
use crate::text;
use vstd::prelude::*;

verus! {

// ---------------------------------------------------------------------------
// Identifiers
// ---------------------------------------------------------------------------

/// To lie below is transitive.
pub proof fn lemma_below_transitive(a: Seq<char>, b: Seq<char>, c: Seq<char>)
    requires
        id_laws::below(a, b),
        id_laws::below(b, c),
    ensures
        id_laws::below(a, c),
{
    if b != c {
        id_laws::lemma_below_starts(a, b);
        id_laws::lemma_below_starts(b, c);
        let n = c.push('.').len() as int;
        assert(a.take(n) =~= c.push('.'));
    }
}

/// A child that lies below another identifier has its parent there too.
pub proof fn lemma_below_parent(parent: Seq<char>, i: nat, top: Seq<char>)
    requires
        id_laws::below(node::child_id(parent, i), top),
        node::child_id(parent, i) != top,
    ensures
        id_laws::below(parent, top),
{
    let child = node::child_id(parent, i);
    id_laws::lemma_decimal_digits(i);
    id_laws::lemma_below_starts(child, top);
    if child.len() == top.len() {
        assert(child =~= top);
    }
    assert(child[top.len() as int] == '.');
    assert(forall|k: int| 0 <= k < parent.len() ==> child[k] == parent[k]);
    if top.len() > parent.len() {
        let k = top.len() - parent.len() - 1;
        assert(child[top.len() as int] == text::decimal(i)[k]);
    } else if top.len() == parent.len() {
        assert(top =~= parent);
    } else {
        assert(parent.take(top.len() + 1int) =~= top.push('.'));
    }
}

/// An identifier tells its parent and its number.
pub proof fn law_child_id_injective(p: Seq<char>, i: nat, q: Seq<char>, j: nat)
    requires
        node::child_id(p, i) == node::child_id(q, j),
    ensures
        p == q,
        i == j,
{
    let (a, b) = (node::child_id(p, i), node::child_id(q, j));
    id_laws::lemma_decimal_digits(i);
    id_laws::lemma_decimal_digits(j);
    assert(a[p.len() as int] == '.');
    assert(b[q.len() as int] == '.');
    assert(a.len() == b.len());
    if p.len() < q.len() {
        assert(a[q.len() as int] == text::decimal(i)[q.len() - p.len() - 1]);
    } else if q.len() < p.len() {
        assert(b[p.len() as int] == text::decimal(j)[p.len() - q.len() - 1]);
    } else {
        assert(forall|k: int| 0 <= k < p.len() ==> a[k] == p[k]);
        assert(forall|k: int| 0 <= k < q.len() ==> b[k] == q[k]);
        assert(p =~= q);
        id_laws::lemma_below_one_child(a, p, i, j);
    }
}

// ---------------------------------------------------------------------------
// Lists of trees
// ---------------------------------------------------------------------------

/// Whether a node of a list of trees has the identifier `id`.
pub open spec fn held(ts: Seq<SemanticTree>, id: Seq<char>) -> bool {
    exists|i: int| 0 <= i < ts.len() && id_laws::has_id(#[trigger] ts[i], id)
}

/// Whether no two nodes of a list of trees have the same identifier.
pub open spec fn distinct(ts: Seq<SemanticTree>) -> bool {
    &&& id_laws::apart(ts)
    &&& forall|i: int| 0 <= i < ts.len() ==> id_laws::unique_ids(#[trigger] ts[i])
}

/// Whether a list of trees has none of the identifiers of a tree.
pub open spec fn new_to(t: SemanticTree, ts: Seq<SemanticTree>) -> bool {
    forall|id: Seq<char>| #[trigger] id_laws::has_id(t, id) ==> !held(ts, id)
}

/// A tree with one more child.
pub open spec fn with_child(t: SemanticTree, child: SemanticTree) -> SemanticTree {
    SemanticTree { children: t.children.push(child), ..t }
}

/// The identifiers of a tree do not depend on where it lies in the source.
proof fn lemma_same_ids(t: SemanticTree, u: SemanticTree)
    requires
        t.id == u.id,
        t.children == u.children,
    ensures
        forall|id: Seq<char>|
            #![trigger id_laws::has_id(t, id)]
            #![trigger id_laws::has_id(u, id)]
            id_laws::has_id(t, id) <==> id_laws::has_id(u, id),
        id_laws::unique_ids(t) <==> id_laws::unique_ids(u),
{
}

/// A tree whose identifiers are new is put among others.
pub proof fn lemma_insert(a: Seq<SemanticTree>, b: Seq<SemanticTree>, t: SemanticTree)
    requires
        distinct(a + b),
        id_laws::unique_ids(t),
        new_to(t, a + b),
    ensures
        distinct(a.push(t) + b),
        forall|id: Seq<char>| #[trigger]
            held(a.push(t) + b, id) <==> held(a + b, id) || id_laws::has_id(t, id),
{
    let before = a + b;
    let after = a.push(t) + b;
    let n = a.len() as int;
    assert(after[n] == t);
    assert(forall|i: int| 0 <= i < n ==> after[i] == before[i]);
    assert(forall|i: int| n < i < after.len() ==> after[i] == before[i - 1]);
    assert forall|id: Seq<char>| #[trigger] held(after, id) <==> held(before, id)
        || id_laws::has_id(t, id) by {
        if held(after, id) {
            let i = choose|i: int| 0 <= i < after.len() && id_laws::has_id(#[trigger] after[i], id);
            if i < n {
                assert(id_laws::has_id(before[i], id));
            } else if i > n {
                assert(id_laws::has_id(before[i - 1], id));
            }
        }
        if held(before, id) {
            let i = choose|i: int|
                0 <= i < before.len() && id_laws::has_id(#[trigger] before[i], id);
            if i < n {
                assert(id_laws::has_id(after[i], id));
            } else {
                assert(id_laws::has_id(after[i + 1], id));
            }
        }
        if id_laws::has_id(t, id) {
            assert(id_laws::has_id(after[n], id));
        }
    }
    assert forall|i: int, j: int, id: Seq<char>|
        0 <= i < j < after.len() && #[trigger] id_laws::has_id(
            after[i],
            id,
        ) implies !#[trigger] id_laws::has_id(after[j], id) by {
        if id_laws::has_id(after[j], id) {
            let (oi, oj) = (
                if i < n {
                    i
                } else {
                    i - 1
                },
                if j < n {
                    j
                } else {
                    j - 1
                },
            );
            if i == n {
                assert(id_laws::has_id(before[oj], id));
                assert(held(before, id));
            } else if j == n {
                assert(id_laws::has_id(before[oi], id));
                assert(held(before, id));
            } else {
                assert(id_laws::has_id(before[oi], id));
                assert(id_laws::has_id(before[oj], id));
            }
        }
    }
    assert forall|i: int| 0 <= i < after.len() implies id_laws::unique_ids(
        #[trigger] after[i],
    ) by {
        if i < n {
            assert(id_laws::unique_ids(before[i]));
        } else if i > n {
            assert(id_laws::unique_ids(before[i - 1]));
        }
    }
}

proof fn lemma_with_child_ids(p: SemanticTree, t: SemanticTree)
    ensures
        forall|id: Seq<char>| #[trigger]
            id_laws::has_id(with_child(p, t), id) <==> id_laws::has_id(p, id) || id_laws::has_id(
                t,
                id,
            ),
{
    let q = with_child(p, t);
    let n = p.children.len() as int;
    assert forall|id: Seq<char>| #[trigger] id_laws::has_id(q, id) <==> id_laws::has_id(p, id)
        || id_laws::has_id(t, id) by {
        if id_laws::has_id(t, id) {
            assert(id_laws::has_id(q.children[n], id));
        }
        if id_laws::has_id(p, id) && p.id != id {
            let i = choose|i: int|
                0 <= i < p.children.len() && id_laws::has_id(#[trigger] p.children[i], id);
            assert(id_laws::has_id(q.children[i], id));
        }
        if id_laws::has_id(q, id) && q.id != id {
            let i = choose|i: int|
                0 <= i < q.children.len() && id_laws::has_id(#[trigger] q.children[i], id);
            if i < n {
                assert(id_laws::has_id(p.children[i], id));
            }
        }
    }
}

proof fn lemma_with_child_unique(p: SemanticTree, t: SemanticTree)
    requires
        id_laws::unique_ids(p),
        id_laws::unique_ids(t),
        forall|id: Seq<char>| #[trigger] id_laws::has_id(t, id) ==> !id_laws::has_id(p, id),
    ensures
        id_laws::unique_ids(with_child(p, t)),
{
    let q = with_child(p, t);
    let n = p.children.len() as int;
    assert forall|i: int, j: int, id: Seq<char>|
        0 <= i < j < q.children.len() && #[trigger] id_laws::has_id(
            q.children[i],
            id,
        ) implies !#[trigger] id_laws::has_id(q.children[j], id) by {
        assert(id_laws::has_id(p.children[i], id));
        if j < n {
            assert(q.children[j] == p.children[j]);
        } else {
            assert(id_laws::has_id(p, id));
        }
    }
    assert forall|i: int| 0 <= i < q.children.len() implies !id_laws::has_id(
        #[trigger] q.children[i],
        q.id,
    ) && id_laws::unique_ids(q.children[i]) by {
        if i < n {
            assert(q.children[i] == p.children[i]);
        } else {
            assert(id_laws::has_id(p, p.id));
        }
    }
}

/// The last tree gets a child whose identifiers are new.
proof fn lemma_extend(ts: Seq<SemanticTree>, t: SemanticTree)
    requires
        ts.len() > 0,
        distinct(ts),
        id_laws::unique_ids(t),
        new_to(t, ts),
    ensures
        distinct(ts.drop_last().push(with_child(ts.last(), t))),
        forall|id: Seq<char>| #[trigger]
            held(ts.drop_last().push(with_child(ts.last(), t)), id) <==> held(ts, id)
                || id_laws::has_id(t, id),
{
    let p = ts.last();
    let q = with_child(p, t);
    let after = ts.drop_last().push(q);
    let n = ts.len() - 1;
    assert(ts[n] == p);
    assert(after[n] == q);
    assert(forall|i: int| 0 <= i < n ==> after[i] == ts[i]);
    assert forall|id: Seq<char>| #[trigger] id_laws::has_id(t, id) implies !id_laws::has_id(
        p,
        id,
    ) by {
        if id_laws::has_id(ts[n], id) {
            assert(held(ts, id));
        }
    }
    lemma_with_child_ids(p, t);
    lemma_with_child_unique(p, t);
    assert forall|id: Seq<char>| #[trigger] held(after, id) <==> held(ts, id) || id_laws::has_id(
        t,
        id,
    ) by {
        if held(after, id) {
            let i = choose|i: int| 0 <= i < after.len() && id_laws::has_id(#[trigger] after[i], id);
            if i < n {
                assert(id_laws::has_id(ts[i], id));
            } else if id_laws::has_id(p, id) {
                assert(id_laws::has_id(ts[n], id));
            }
        }
        if held(ts, id) {
            let i = choose|i: int| 0 <= i < ts.len() && id_laws::has_id(#[trigger] ts[i], id);
            assert(id_laws::has_id(after[i], id));
        }
        if id_laws::has_id(t, id) {
            assert(id_laws::has_id(after[n], id));
        }
    }
    assert forall|i: int, j: int, id: Seq<char>|
        0 <= i < j < after.len() && #[trigger] id_laws::has_id(
            after[i],
            id,
        ) implies !#[trigger] id_laws::has_id(after[j], id) by {
        assert(id_laws::has_id(ts[i], id));
        assert(!id_laws::has_id(ts[j], id));
        assert(held(ts, id));
    }
    assert forall|i: int| 0 <= i < after.len() implies id_laws::unique_ids(
        #[trigger] after[i],
    ) by {
        if i < n {
            assert(id_laws::unique_ids(ts[i]));
        }
    }
}

// ---------------------------------------------------------------------------
// States of the scanner
// ---------------------------------------------------------------------------

/// The trees of a state: the finished nodes, then the open blocks.
pub open spec fn trees(st: ScanState) -> Seq<SemanticTree> {
    st.roots + Seq::new(st.stack.len(), |j: int| st.stack[j].closed(0))
}

/// Whether every identifier of a state lies below a node of the program that
/// was numbered.
pub open spec fn all_counted(st: ScanState) -> bool {
    forall|id: Seq<char>| #[trigger]
        held(trees(st), id) ==> exists|k: nat|
            k < st.counter && #[trigger] id_laws::below(id, node::child_id("0"@, k))
}

/// Whether the number `m` below the open block `j` is taken before its time: by
/// a finished node of the program, or by the block inside it.
pub open spec fn taken(st: ScanState, j: int, m: nat) -> bool {
    let id = node::child_id(st.stack[j].id, m);
    ||| exists|r: int| 0 <= r < st.roots.len() && (#[trigger] st.roots[r]).id == id
    ||| j + 1 < st.stack.len() && m == st.stack[j].children.len() && st.stack[j + 1].id == id
}

/// Whether the numbers that the open blocks have not reached yet are free,
/// unless they are taken.
pub open spec fn rest_is_free(st: ScanState) -> bool {
    forall|j: int, m: nat, id: Seq<char>|
        0 <= j < st.stack.len() && m >= st.stack[j].children.len() && #[trigger] held(
            trees(st),
            id,
        ) && #[trigger] id_laws::below(id, node::child_id(st.stack[j].id, m)) ==> taken(st, j, m)
}

/// Whether no identifier of a state occurs twice, and none will.
pub open spec fn orderly(st: ScanState) -> bool {
    &&& distinct(trees(st))
    &&& all_counted(st)
    &&& rest_is_free(st)
}

/// Whether a line numbers a node below the innermost block with a number that a
/// finished node of the program bears. Such a node is a method that was still
/// open where the class around it ended.
pub open spec fn reuses_number(st: ScanState, raw: Seq<char>, upper: Seq<char>) -> bool {
    let words = text::words(upper);
    &&& !scanner::skipped(text::trim(raw))
    &&& words.len() > 0
    &&& match scanner::action_of(words, st.stack.len() > 0) {
        LineAction::Open(kind) => kind is Method,
        LineAction::Statement => true,
        _ => false,
    }
    &&& exists|r: int|
        0 <= r < st.roots.len() && (#[trigger] st.roots[r]).id == st.next_child_id()
}

/// Whether one of the first `n` lines uses a number again.
pub open spec fn some_reuses_number(lines: Seq<Seq<char>>, n: nat) -> bool
    decreases n,
{
    n > 0 && {
        let i = (n - 1) as nat;
        some_reuses_number(lines, i) || reuses_number(
            scanner::scan_lines(lines, i),
            lines[i as int],
            text::upper(text::trim(lines[i as int])),
        )
    }
}

/// An open block has its own identifier.
proof fn lemma_block_id_held(st: ScanState, j: int)
    requires
        0 <= j < st.stack.len(),
    ensures
        held(trees(st), st.stack[j].id),
        trees(st)[st.roots.len() + j] == st.stack[j].closed(0),
        id_laws::has_id(trees(st)[st.roots.len() + j], st.stack[j].id),
{
    let i = st.roots.len() + j;
    assert(trees(st)[i] == st.stack[j].closed(0));
    assert(id_laws::has_id(trees(st)[i], st.stack[j].id));
}

/// No two open blocks have the same identifier.
proof fn lemma_block_ids_differ(st: ScanState, j: int, k: int)
    requires
        distinct(trees(st)),
        0 <= j < st.stack.len(),
        0 <= k < st.stack.len(),
        st.stack[j].id == st.stack[k].id,
    ensures
        j == k,
{
    lemma_block_id_held(st, j);
    lemma_block_id_held(st, k);
    let n = st.roots.len() as int;
    if j < k {
        assert(!id_laws::has_id(trees(st)[n + k], st.stack[j].id));
    } else if k < j {
        assert(!id_laws::has_id(trees(st)[n + j], st.stack[k].id));
    }
}

/// The next number below the program is free.
proof fn lemma_counter_is_free(st: ScanState, id: Seq<char>)
    requires
        all_counted(st),
        id_laws::below(id, node::child_id("0"@, st.counter)),
    ensures
        !held(trees(st), id),
{
    if held(trees(st), id) {
        let k = choose|k: nat|
            k < st.counter && #[trigger] id_laws::below(id, node::child_id("0"@, k));
        id_laws::lemma_below_one_child(id, "0"@, k, st.counter);
    }
}

/// What lies below the next number below the program does not lie below an open
/// block.
proof fn lemma_counter_is_apart(st: ScanState, id: Seq<char>, j: int)
    requires
        all_counted(st),
        id_laws::below(id, node::child_id("0"@, st.counter)),
        0 <= j < st.stack.len(),
    ensures
        !id_laws::below(id, st.stack[j].id),
{
    let top = st.stack[j].id;
    lemma_block_id_held(st, j);
    let k = choose|k: nat|
        k < st.counter && #[trigger] id_laws::below(top, node::child_id("0"@, k));
    if id_laws::below(id, top) {
        lemma_below_transitive(id, top, node::child_id("0"@, k));
        id_laws::lemma_below_one_child(id, "0"@, k, st.counter);
    }
}

/// The identifiers of a block without children or with only its signature.
proof fn lemma_new_block_ids(b: OpenBlock)
    requires
        b.children.len() <= 1,
        b.children.len() == 1 ==> b.children[0].id == node::child_id(b.id, 0)
            && b.children[0].children.len() == 0,
    ensures
        forall|id: Seq<char>| #[trigger]
            id_laws::has_id(b.closed(0), id) ==> id == b.id || b.children.len() == 1 && id
                == node::child_id(b.id, 0),
        id_laws::unique_ids(b.closed(0)),
{
    let t = b.closed(0);
    assert(t.children == b.children);
    if b.children.len() == 1 {
        id_laws::lemma_below_child(node::child_id(b.id, 0), b.id, 0);
        assert(id_laws::unique_ids(t.children[0]));
        assert(!id_laws::has_id(t.children[0], b.id));
    }
    assert forall|id: Seq<char>| #[trigger] id_laws::has_id(t, id) implies id == b.id
        || b.children.len() == 1 && id == node::child_id(b.id, 0) by {
        if id != b.id {
            let i = choose|i: int|
                0 <= i < t.children.len() && id_laws::has_id(#[trigger] t.children[i], id);
            assert(i == 0);
            assert(id_laws::has_id(t.children[0], id));
        }
    }
}

/// The state after a block with a new identifier was opened.
proof fn lemma_opened_trees(st: ScanState, next: ScanState)
    requires
        distinct(trees(st)),
        next.roots == st.roots,
        next.stack.len() == st.stack.len() + 1,
        next.stack.drop_last() == st.stack,
        id_laws::unique_ids(next.stack.last().closed(0)),
        new_to(next.stack.last().closed(0), trees(st)),
    ensures
        distinct(trees(next)),
        forall|id: Seq<char>| #[trigger]
            held(trees(next), id) <==> held(trees(st), id) || id_laws::has_id(
                next.stack.last().closed(0),
                id,
            ),
{
    let t = next.stack.last().closed(0);
    let none = Seq::<SemanticTree>::empty();
    assert(trees(st) + none =~= trees(st));
    lemma_insert(trees(st), none, t);
    assert forall|j: int| 0 <= j < st.stack.len() implies next.stack[j] == st.stack[j] by {
        assert(next.stack.drop_last()[j] == next.stack[j]);
    }
    assert(trees(st).push(t) + none =~= trees(next));
}

/// A block is opened below the program.
proof fn lemma_opened_below_program(st: ScanState, next: ScanState)
    requires
        orderly(st),
        next.roots == st.roots,
        next.counter == st.counter + 1,
        next.stack.len() == st.stack.len() + 1,
        next.stack.drop_last() == st.stack,
        next.stack.last().id == node::child_id("0"@, st.counter),
        next.stack.last().children.len() <= 1,
        next.stack.last().children.len() == 1 ==> next.stack.last().children[0].id
            == node::child_id(next.stack.last().id, 0)
            && next.stack.last().children[0].children.len() == 0,
    ensures
        orderly(next),
{
    let n = st.stack.len() as int;
    let block = next.stack.last();
    let t = block.closed(0);
    let top = block.id;
    lemma_new_block_ids(block);
    assert forall|id: Seq<char>| #[trigger] id_laws::has_id(t, id) implies id_laws::below(
        id,
        top,
    ) by {
        if id != top {
            id_laws::lemma_below_child(id, top, 0);
        }
    }
    assert forall|id: Seq<char>| #[trigger] id_laws::has_id(t, id) implies !held(trees(st), id) by {
        lemma_counter_is_free(st, id);
    }
    lemma_opened_trees(st, next);
    assert forall|id: Seq<char>| #[trigger] held(trees(next), id) implies exists|k: nat|
        k < next.counter && #[trigger] id_laws::below(id, node::child_id("0"@, k)) by {
        if held(trees(st), id) {
            let k = choose|k: nat|
                k < st.counter && #[trigger] id_laws::below(id, node::child_id("0"@, k));
            assert(k < next.counter && id_laws::below(id, node::child_id("0"@, k)));
        } else {
            assert(st.counter < next.counter && id_laws::below(
                id,
                node::child_id("0"@, st.counter),
            ));
        }
    }
    assert forall|j: int, m: nat, id: Seq<char>|
        0 <= j < next.stack.len() && m >= next.stack[j].children.len() && #[trigger] held(
            trees(next),
            id,
        ) && #[trigger] id_laws::below(id, node::child_id(next.stack[j].id, m)) implies taken(
        next,
        j,
        m,
    ) by {
        id_laws::lemma_below_child(id, next.stack[j].id, m);
        if j < n {
            assert(next.stack[j] == st.stack[j]) by {
                assert(next.stack.drop_last()[j] == next.stack[j]);
            }
            if held(trees(st), id) {
                assert(taken(st, j, m));
                if j + 1 < n {
                    assert(next.stack[j + 1] == st.stack[j + 1]) by {
                        assert(next.stack.drop_last()[j + 1] == next.stack[j + 1]);
                    }
                }
            } else {
                lemma_counter_is_apart(st, id, j);
            }
        } else {
            lemma_new_block_rest(st, block, m, id);
            lemma_counter_is_free(st, id);
        }
    }
}

/// A new block has no identifier below the numbers that it has not reached.
proof fn lemma_new_block_rest(st: ScanState, block: OpenBlock, m: nat, id: Seq<char>)
    requires
        block.children.len() <= 1,
        block.children.len() == 1 ==> block.children[0].id == node::child_id(block.id, 0)
            && block.children[0].children.len() == 0,
        m >= block.children.len(),
        id_laws::below(id, node::child_id(block.id, m)),
        held(trees(st), id) || id_laws::has_id(block.closed(0), id),
    ensures
        held(trees(st), id),
{
    lemma_new_block_ids(block);
    id_laws::lemma_below_child(id, block.id, m);
    if id_laws::has_id(block.closed(0), id) && block.children.len() == 1 {
        id_laws::lemma_below_one_child(id, block.id, 0, m);
    }
}

/// The next number below the innermost block is free, where no finished node
/// bears it.
proof fn lemma_next_child_is_free(st: ScanState, id: Seq<char>)
    requires
        orderly(st),
        st.stack.len() > 0,
        forall|r: int|
            0 <= r < st.roots.len() ==> (#[trigger] st.roots[r]).id != st.next_child_id(),
        id_laws::below(id, st.next_child_id()),
    ensures
        !held(trees(st), id),
{
    let j = st.stack.len() - 1;
    if held(trees(st), id) {
        assert(taken(st, j, st.stack[j].children.len()));
    }
}

/// The next number below the innermost block lies below another open block's
/// free numbers only where those are taken.
proof fn lemma_next_child_elsewhere(st: ScanState, j: int, m: nat)
    requires
        orderly(st),
        0 <= j < st.stack.len(),
        m >= st.stack[j].children.len(),
        id_laws::below(st.next_child_id(), node::child_id(st.stack[j].id, m)),
    ensures
        taken(st, j, m) || j == st.stack.len() - 1 && m == st.stack[j].children.len(),
{
    let n = st.stack.len() - 1;
    let top = st.stack.last();
    let c = top.children.len();
    if st.next_child_id() == node::child_id(st.stack[j].id, m) {
        law_child_id_injective(top.id, c, st.stack[j].id, m);
        lemma_block_ids_differ(st, n, j);
    } else {
        lemma_below_parent(top.id, c, node::child_id(st.stack[j].id, m));
        lemma_block_id_held(st, n);
        assert(taken(st, j, m));
    }
}

/// What lies below the innermost block lies below a numbered node of the
/// program.
proof fn lemma_next_child_is_counted(st: ScanState, id: Seq<char>)
    requires
        orderly(st),
        st.stack.len() > 0,
        id_laws::below(id, st.next_child_id()),
    ensures
        exists|k: nat| k < st.counter && #[trigger] id_laws::below(id, node::child_id("0"@, k)),
{
    let top = st.stack.last();
    lemma_block_id_held(st, st.stack.len() - 1);
    let k = choose|k: nat|
        k < st.counter && #[trigger] id_laws::below(top.id, node::child_id("0"@, k));
    id_laws::lemma_below_child(id, top.id, top.children.len());
    lemma_below_transitive(id, top.id, node::child_id("0"@, k));
    assert(k < st.counter && id_laws::below(id, node::child_id("0"@, k)));
}

/// A method is opened.
proof fn lemma_opened_below_block(st: ScanState, next: ScanState)
    requires
        orderly(st),
        st.stack.len() > 0,
        forall|r: int|
            0 <= r < st.roots.len() ==> (#[trigger] st.roots[r]).id != st.next_child_id(),
        next.roots == st.roots,
        next.counter == st.counter,
        next.stack.len() == st.stack.len() + 1,
        next.stack.drop_last() == st.stack,
        next.stack.last().id == st.next_child_id(),
        next.stack.last().children.len() <= 1,
        next.stack.last().children.len() == 1 ==> next.stack.last().children[0].id
            == node::child_id(next.stack.last().id, 0)
            && next.stack.last().children[0].children.len() == 0,
    ensures
        orderly(next),
{
    let n = st.stack.len() as int;
    let block = next.stack.last();
    let t = block.closed(0);
    let top = block.id;
    lemma_new_block_ids(block);
    assert forall|id: Seq<char>| #[trigger] id_laws::has_id(t, id) implies id_laws::below(
        id,
        top,
    ) by {
        if id != top {
            id_laws::lemma_below_child(id, top, 0);
        }
    }
    assert forall|id: Seq<char>| #[trigger] id_laws::has_id(t, id) implies !held(trees(st), id) by {
        lemma_next_child_is_free(st, id);
    }
    lemma_opened_trees(st, next);
    assert forall|id: Seq<char>| #[trigger] held(trees(next), id) implies exists|k: nat|
        k < next.counter && #[trigger] id_laws::below(id, node::child_id("0"@, k)) by {
        if !held(trees(st), id) {
            lemma_next_child_is_counted(st, id);
        }
    }
    assert forall|j: int, m: nat, id: Seq<char>|
        0 <= j < next.stack.len() && m >= next.stack[j].children.len() && #[trigger] held(
            trees(next),
            id,
        ) && #[trigger] id_laws::below(id, node::child_id(next.stack[j].id, m)) implies taken(
        next,
        j,
        m,
    ) by {
        id_laws::lemma_below_child(id, next.stack[j].id, m);
        if j < n {
            assert(next.stack[j] == st.stack[j]) by {
                assert(next.stack.drop_last()[j] == next.stack[j]);
            }
            if j + 1 < n {
                assert(next.stack[j + 1] == st.stack[j + 1]) by {
                    assert(next.stack.drop_last()[j + 1] == next.stack[j + 1]);
                }
            }
            if held(trees(st), id) {
                assert(taken(st, j, m));
            } else {
                if id != top {
                    if id == node::child_id(st.stack[j].id, m) {
                        law_child_id_injective(top, 0, st.stack[j].id, m);
                        lemma_block_id_held(st, j);
                        lemma_next_child_is_free(st, top);
                    } else {
                        lemma_below_parent(top, 0, node::child_id(st.stack[j].id, m));
                    }
                }
                lemma_next_child_elsewhere(st, j, m);
            }
        } else {
            lemma_new_block_rest(st, block, m, id);
            lemma_next_child_is_free(st, id);
        }
    }
}

/// A statement is added to the innermost block.
proof fn lemma_statement_added(st: ScanState, t: SemanticTree)
    requires
        orderly(st),
        st.stack.len() > 0,
        forall|r: int|
            0 <= r < st.roots.len() ==> (#[trigger] st.roots[r]).id != st.next_child_id(),
        t.id == st.next_child_id(),
        t.children.len() == 0,
    ensures
        orderly(st.with_node(t)),
{
    let next = st.with_node(t);
    let n = st.stack.len() - 1;
    let top = st.stack.last();
    let ts = trees(st);
    assert forall|id: Seq<char>| #[trigger] id_laws::has_id(t, id) implies id == t.id && !held(
        ts,
        id,
    ) by {
        lemma_next_child_is_free(st, id);
    }
    assert(ts.last() == top.closed(0));
    lemma_extend(ts, t);
    assert(with_child(ts.last(), t) == top.with_child(t).closed(0));
    assert(trees(next) =~= ts.drop_last().push(with_child(ts.last(), t)));
    assert forall|id: Seq<char>| #[trigger] held(trees(next), id) implies exists|k: nat|
        k < next.counter && #[trigger] id_laws::below(id, node::child_id("0"@, k)) by {
        if !held(ts, id) {
            lemma_next_child_is_counted(st, id);
        }
    }
    assert forall|j: int, m: nat, id: Seq<char>|
        0 <= j < next.stack.len() && m >= next.stack[j].children.len() && #[trigger] held(
            trees(next),
            id,
        ) && #[trigger] id_laws::below(id, node::child_id(next.stack[j].id, m)) implies taken(
        next,
        j,
        m,
    ) by {
        assert(next.stack[j].id == st.stack[j].id);
        assert(m >= st.stack[j].children.len());
        if held(ts, id) {
            assert(taken(st, j, m));
        } else {
            lemma_next_child_elsewhere(st, j, m);
        }
        if j + 1 < next.stack.len() {
            assert(next.stack[j + 1].id == st.stack[j + 1].id);
            assert(next.stack[j] == st.stack[j]);
        }
    }
}

/// The innermost block leaves a state: it was new to the rest.
proof fn lemma_popped_trees(st: ScanState)
    requires
        st.stack.len() > 0,
        distinct(trees(st)),
    ensures
        distinct(trees(st.popped())),
        id_laws::unique_ids(st.stack.last().closed(0)),
        new_to(st.stack.last().closed(0), trees(st.popped())),
        forall|id: Seq<char>| #[trigger]
            held(trees(st), id) <==> held(trees(st.popped()), id) || id_laws::has_id(
                st.stack.last().closed(0),
                id,
            ),
{
    let ts = trees(st);
    let rest = trees(st.popped());
    let t = st.stack.last().closed(0);
    let n = ts.len() - 1;
    assert(rest =~= ts.drop_last());
    assert(ts[n] == t);
    assert(forall|i: int| 0 <= i < n ==> rest[i] == ts[i]);
    assert forall|id: Seq<char>| #[trigger] id_laws::has_id(t, id) implies !held(rest, id) by {
        if held(rest, id) {
            let i = choose|i: int| 0 <= i < rest.len() && id_laws::has_id(#[trigger] rest[i], id);
            assert(id_laws::has_id(ts[i], id));
            assert(!id_laws::has_id(ts[n], id));
        }
    }
    assert forall|id: Seq<char>| #[trigger] held(ts, id) <==> held(rest, id) || id_laws::has_id(
        t,
        id,
    ) by {
        if held(ts, id) {
            let i = choose|i: int| 0 <= i < ts.len() && id_laws::has_id(#[trigger] ts[i], id);
            if i < n {
                assert(id_laws::has_id(rest[i], id));
            }
        }
        if held(rest, id) {
            let i = choose|i: int| 0 <= i < rest.len() && id_laws::has_id(#[trigger] rest[i], id);
            assert(id_laws::has_id(ts[i], id));
        }
        if id_laws::has_id(t, id) {
            assert(id_laws::has_id(ts[n], id));
        }
    }
    assert forall|i: int, j: int, id: Seq<char>|
        0 <= i < j < rest.len() && #[trigger] id_laws::has_id(
            rest[i],
            id,
        ) implies !#[trigger] id_laws::has_id(rest[j], id) by {
        assert(id_laws::has_id(ts[i], id));
        assert(!id_laws::has_id(ts[j], id));
    }
    assert forall|i: int| 0 <= i < rest.len() implies id_laws::unique_ids(#[trigger] rest[i]) by {
        assert(id_laws::unique_ids(ts[i]));
    }
    assert(id_laws::unique_ids(ts[n]));
}

/// A finished node is added to the program.
proof fn lemma_root_added(st: ScanState, t: SemanticTree)
    requires
        distinct(trees(st)),
        id_laws::unique_ids(t),
        new_to(t, trees(st)),
    ensures
        distinct(trees(st.with_root(t))),
        forall|id: Seq<char>| #[trigger]
            held(trees(st.with_root(t)), id) <==> held(trees(st), id) || id_laws::has_id(t, id),
{
    let open = Seq::new(st.stack.len(), |j: int| st.stack[j].closed(0));
    assert(trees(st) =~= st.roots + open);
    assert(trees(st.with_root(t)) =~= st.roots.push(t) + open);
    lemma_insert(st.roots, open, t);
}

/// The innermost block is closed and added to the program.
proof fn lemma_block_closed(st: ScanState, line: u32)
    requires
        orderly(st),
    ensures
        orderly(st.block_closed(line)),
{
    if st.stack.len() > 0 {
        let n = st.stack.len() - 1;
        let t = st.stack.last().closed(line);
        let next = st.popped().with_root(t);
        lemma_popped_trees(st);
        lemma_same_ids(st.stack.last().closed(0), t);
        lemma_root_added(st.popped(), t);
        assert forall|id: Seq<char>| #[trigger] held(trees(next), id) implies exists|k: nat|
            k < next.counter && #[trigger] id_laws::below(id, node::child_id("0"@, k)) by {
            assert(held(trees(st), id));
        }
        assert forall|j: int, m: nat, id: Seq<char>|
            0 <= j < next.stack.len() && m >= next.stack[j].children.len() && #[trigger] held(
                trees(next),
                id,
            ) && #[trigger] id_laws::below(id, node::child_id(next.stack[j].id, m)) implies taken(
            next,
            j,
            m,
        ) by {
            assert(next.stack[j] == st.stack[j]);
            assert(held(trees(st), id));
            assert(taken(st, j, m));
            let own = node::child_id(st.stack[j].id, m);
            if exists|r: int| 0 <= r < st.roots.len() && (#[trigger] st.roots[r]).id == own {
                let r = choose|r: int| 0 <= r < st.roots.len() && (#[trigger] st.roots[r]).id == own;
                assert(next.roots[r].id == own);
            } else if j + 1 == n {
                assert(next.roots[st.roots.len() as int].id == own);
            } else {
                assert(next.stack[j + 1] == st.stack[j + 1]);
            }
        }
    }
}

/// The innermost block is closed and added to the block around it.
proof fn lemma_method_closed(st: ScanState, line: u32)
    requires
        orderly(st),
    ensures
        orderly(st.method_closed(line)),
{
    if st.stack.len() == 1 {
        lemma_block_closed(st, line);
        assert(st.method_closed(line) == st.block_closed(line));
    } else if st.stack.len() > 1 {
        let n = st.stack.len() - 1;
        let t = st.stack.last().closed(line);
        let rest = st.popped();
        let next = rest.with_node(t);
        let ts = trees(rest);
        lemma_popped_trees(st);
        lemma_same_ids(st.stack.last().closed(0), t);
        assert(ts.last() == rest.stack.last().closed(0));
        lemma_extend(ts, t);
        assert(with_child(ts.last(), t) == rest.stack.last().with_child(t).closed(0));
        assert(trees(next) =~= ts.drop_last().push(with_child(ts.last(), t)));
        assert forall|id: Seq<char>| #[trigger] held(trees(next), id) implies exists|k: nat|
            k < next.counter && #[trigger] id_laws::below(id, node::child_id("0"@, k)) by {
            assert(held(trees(st), id));
        }
        assert forall|j: int, m: nat, id: Seq<char>|
            0 <= j < next.stack.len() && m >= next.stack[j].children.len() && #[trigger] held(
                trees(next),
                id,
            ) && #[trigger] id_laws::below(id, node::child_id(next.stack[j].id, m)) implies taken(
            next,
            j,
            m,
        ) by {
            assert(next.stack[j].id == st.stack[j].id);
            assert(m >= st.stack[j].children.len());
            assert(held(trees(st), id));
            assert(taken(st, j, m));
            if j + 1 < next.stack.len() {
                assert(next.stack[j] == st.stack[j]);
                assert(next.stack[j + 1].id == st.stack[j + 1].id);
            }
        }
    }
}

/// A program declaration is added.
proof fn lemma_report_added(st: ScanState, words: Seq<Seq<char>>, line: u32)
    requires
        orderly(st),
        st.stack.len() == 0,
    ensures
        orderly(st.reported(words, line)),
{
    let next = st.reported(words, line);
    let t = next.roots.last();
    assert forall|id: Seq<char>| #[trigger] id_laws::has_id(t, id) implies id == t.id && !held(
        trees(st),
        id,
    ) by {
        lemma_counter_is_free(st, id);
    }
    lemma_root_added(st, t);
    assert(trees(next) =~= trees(st.with_root(t)));
    assert forall|id: Seq<char>| #[trigger] held(trees(next), id) implies exists|k: nat|
        k < next.counter && #[trigger] id_laws::below(id, node::child_id("0"@, k)) by {
        if held(trees(st), id) {
            let k = choose|k: nat|
                k < st.counter && #[trigger] id_laws::below(id, node::child_id("0"@, k));
            assert(k < next.counter && id_laws::below(id, node::child_id("0"@, k)));
        } else {
            assert(st.counter < next.counter && id_laws::below(
                id,
                node::child_id("0"@, st.counter),
            ));
        }
    }
}

proof fn lemma_scanned_orderly(st: ScanState, line: u32, raw: Seq<char>, upper: Seq<char>)
    requires
        orderly(st),
        !reuses_number(st, raw, upper),
    ensures
        orderly(st.scanned(line, raw, upper)),
{
    let words = text::words(upper);
    if !scanner::skipped(text::trim(raw)) && words.len() > 0 {
        match scanner::action_of(words, st.stack.len() > 0) {
            LineAction::Report => lemma_report_added(st, words, line),
            LineAction::Open(kind) => {
                let next = st.opened(kind, words, line, scanner::width(raw));
                assert(next.stack.drop_last() =~= st.stack);
                if kind is Method {
                    lemma_opened_below_block(st, next);
                } else {
                    lemma_opened_below_program(st, next);
                }
            },
            LineAction::Close => lemma_block_closed(st, line),
            LineAction::CloseMethod => lemma_method_closed(st, line),
            LineAction::Statement => {
                if st.stack.len() > 0 {
                    let t = statement::statement_tree(
                        st.next_child_id(),
                        text::trim(raw),
                        upper,
                        line,
                        scanner::width(raw),
                    );
                    lemma_statement_added(st, t);
                }
            },
            LineAction::Ignore => {},
        }
    }
}

proof fn lemma_scan_lines_orderly(lines: Seq<Seq<char>>, n: nat)
    requires
        !some_reuses_number(lines, n),
    ensures
        orderly(scanner::scan_lines(lines, n)),
    decreases n,
{
    if n > 0 {
        let i = (n - 1) as nat;
        lemma_scan_lines_orderly(lines, i);
        lemma_scanned_orderly(
            scanner::scan_lines(lines, i),
            i as u32,
            lines[i as int],
            text::upper(text::trim(lines[i as int])),
        );
    }
}

proof fn lemma_drained_orderly(st: ScanState, last: u32)
    requires
        orderly(st),
    ensures
        distinct(st.drained(last)),
        forall|id: Seq<char>| #[trigger] held(st.drained(last), id) ==> id != "0"@,
    decreases st.stack.len(),
{
    if st.stack.len() > 0 {
        lemma_block_closed(st, last);
        lemma_drained_orderly(st.block_closed(last), last);
    } else {
        assert(trees(st) =~= st.roots);
        assert forall|id: Seq<char>| #[trigger] held(st.roots, id) implies id != "0"@ by {
            let k = choose|k: nat|
                k < st.counter && #[trigger] id_laws::below(id, node::child_id("0"@, k));
            id_laws::lemma_below_child(id, "0"@, k);
        }
    }
}

/// In the scanner's tree no identifier occurs twice, unless a line numbers a
/// node like a method that was still open where the class around it ended.
pub proof fn law_ids_are_unique(source: Seq<char>)
    requires
        !some_reuses_number(text::lines(source), text::lines(source).len()),
    ensures
        id_laws::unique_ids(scanner::scanned_source(source)),
{
    let lines = text::lines(source);
    let st = scanner::scan_lines(lines, lines.len());
    let last = scanner::last_line(lines.len());
    let ts = st.drained(last);
    lemma_scan_lines_orderly(lines, lines.len());
    lemma_drained_orderly(st, last);
    assert forall|i: int| 0 <= i < ts.len() implies !id_laws::has_id(#[trigger] ts[i], "0"@)
        && id_laws::unique_ids(ts[i]) by {
        if id_laws::has_id(ts[i], "0"@) {
            assert(held(ts, "0"@));
        }
    }
}

} // verus!
