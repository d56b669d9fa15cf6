//! Laws of case: what the case of an ASCII text does not change.
use crate::node::SemanticTree;
use crate::parser;
use crate::scanner;
use crate::scanner::{LineAction, OpenBlock, ScanState};
use crate::statement;
use crate::text;
use crate::text::CharClass;
use crate::text_laws;
use vstd::prelude::*;

verus! {

// ---------------------------------------------------------------------------
// File names
// ---------------------------------------------------------------------------

/// Case does not matter for the language of a file with an ASCII name.
pub proof fn law_detection_ignores_case(a: Seq<char>, b: Seq<char>)
    requires
        vstd::utf8::is_ascii_chars(a),
        vstd::utf8::is_ascii_chars(b),
        text::ascii_lowercase(a) == text::ascii_lowercase(b),
    ensures
        parser::language_of(a) == parser::language_of(b),
{
}

// ---------------------------------------------------------------------------
// Texts
// ---------------------------------------------------------------------------

/// Whether two texts are the same but for the case of ASCII letters.
pub open spec fn same_letters(a: Seq<char>, b: Seq<char>) -> bool {
    text::ascii_uppercase(a) == text::ascii_uppercase(b)
}

proof fn lemma_same_len(a: Seq<char>, b: Seq<char>)
    requires
        same_letters(a, b),
    ensures
        a.len() == b.len(),
        forall|i: int|
            0 <= i < a.len() ==> text::ascii_upper(#[trigger] a[i]) == text::ascii_upper(b[i]),
{
    assert(text::ascii_uppercase(a).len() == a.len());
    assert(text::ascii_uppercase(b).len() == b.len());
    assert forall|i: int| 0 <= i < a.len() implies text::ascii_upper(#[trigger] a[i])
        == text::ascii_upper(b[i]) by {
        assert(text::ascii_uppercase(a)[i] == text::ascii_upper(a[i]));
        assert(text::ascii_uppercase(b)[i] == text::ascii_upper(b[i]));
    }
}

proof fn lemma_case_trim_start(s: Seq<char>, class: CharClass)
    ensures
        text::ascii_uppercase(text::trim_start(s, class)) == text::trim_start(
            text::ascii_uppercase(s),
            class,
        ),
    decreases s.len(),
{
    let u = text::ascii_uppercase(s);
    if s.len() > 0 {
        assert(u.first() == text::ascii_upper(s.first()));
        assert(class.has(u.first()) == class.has(s.first()));
        if class.has(s.first()) {
            lemma_case_trim_start(s.drop_first(), class);
            assert(text::ascii_uppercase(s.drop_first()) =~= u.drop_first());
        }
    }
}

proof fn lemma_case_trim_end(s: Seq<char>, class: CharClass)
    ensures
        text::ascii_uppercase(text::trim_end(s, class)) == text::trim_end(
            text::ascii_uppercase(s),
            class,
        ),
    decreases s.len(),
{
    let u = text::ascii_uppercase(s);
    if s.len() > 0 {
        assert(u.last() == text::ascii_upper(s.last()));
        assert(class.has(u.last()) == class.has(s.last()));
        if class.has(s.last()) {
            lemma_case_trim_end(s.drop_last(), class);
            assert(text::ascii_uppercase(s.drop_last()) =~= u.drop_last());
        }
    }
}

proof fn lemma_case_trim(s: Seq<char>)
    ensures
        text::ascii_uppercase(text::trim(s)) == text::trim(text::ascii_uppercase(s)),
{
    lemma_case_trim_start(s, CharClass::Space);
    lemma_case_trim_end(text::trim_start(s, CharClass::Space), CharClass::Space);
}

proof fn lemma_case_bare(s: Seq<char>)
    ensures
        text::ascii_uppercase(statement::bare(s)) == statement::bare(text::ascii_uppercase(s)),
{
    lemma_case_trim_end(s, CharClass::Dot);
    lemma_case_trim(text::trim_end(s, CharClass::Dot));
}

proof fn lemma_case_write_label(s: Seq<char>)
    ensures
        text::ascii_uppercase(statement::write_label_of(s)) == statement::write_label_of(
            text::ascii_uppercase(s),
        ),
{
    let operands = text::trim_start(statement::bare(s), CharClass::Letter);
    lemma_case_bare(s);
    lemma_case_trim_start(statement::bare(s), CharClass::Letter);
    lemma_case_trim_start(operands, CharClass::Colon);
    lemma_case_trim(text::trim_start(operands, CharClass::Colon));
}

proof fn lemma_case_position(s: Seq<char>, c: char)
    requires
        !CharClass::Letter.has(c),
    ensures
        text::position(text::ascii_uppercase(s), c) == text::position(s, c),
        text::ascii_uppercase(s).contains(c) == s.contains(c),
    decreases s.len(),
{
    let u = text::ascii_uppercase(s);
    if s.len() > 0 {
        assert(u.first() == text::ascii_upper(s.first()));
        assert((u.first() == c) == (s.first() == c));
        if s.first() != c {
            lemma_case_position(s.drop_first(), c);
            assert(text::ascii_uppercase(s.drop_first()) =~= u.drop_first());
        }
    }
    text::lemma_position(s, c);
    text::lemma_position(u, c);
}

proof fn lemma_case_parenthesised(s: Seq<char>)
    ensures
        statement::parenthesised(text::ascii_uppercase(s)) == match statement::parenthesised(s) {
            Some(name) => Some(text::ascii_uppercase(name)),
            None => None,
        },
{
    let u = text::ascii_uppercase(s);
    let open = text::position(s, '(');
    lemma_case_position(s, '(');
    text::lemma_position(s, '(');
    if open < s.len() {
        let rest = s.skip(open + 1);
        let close = text::position(rest, ')');
        assert(text::ascii_uppercase(rest) =~= u.skip(open + 1));
        lemma_case_position(rest, ')');
        text::lemma_position(rest, ')');
        assert(text::ascii_uppercase(rest.take(close)) =~= u.skip(open + 1).take(close));
        lemma_case_trim(rest.take(close));
        assert(text::ascii_uppercase(text::trim(rest.take(close))).len() == text::trim(
            rest.take(close),
        ).len());
    }
}

proof fn lemma_case_lines(s: Seq<char>)
    ensures
        text::lines(text::ascii_uppercase(s)).len() == text::lines(s).len(),
        forall|i: int|
            0 <= i < text::lines(s).len() ==> #[trigger] text::lines(text::ascii_uppercase(s))[i]
                == text::ascii_uppercase(text::lines(s)[i]),
    decreases s.len(),
{
    let u = text::ascii_uppercase(s);
    let n = text::position(s, '\n');
    lemma_case_position(s, '\n');
    text::lemma_position(s, '\n');
    if s.len() > 0 && n < s.len() {
        let rest = s.skip(n + 1);
        let head = s.take(n);
        let (ls, lu) = (text::lines(s), text::lines(u));
        assert(u.skip(n + 1) =~= text::ascii_uppercase(rest));
        assert(u.take(n) =~= text::ascii_uppercase(head));
        lemma_case_lines(rest);
        if n > 0 {
            assert(u.take(n).last() == text::ascii_upper(head.last()));
        }
        assert(text::strip_cr(u.take(n)) =~= text::ascii_uppercase(text::strip_cr(head)));
        assert forall|i: int| 0 <= i < ls.len() implies #[trigger] lu[i] == text::ascii_uppercase(
            ls[i],
        ) by {
            if i > 0 {
                assert(ls[i] == text::lines(rest)[i - 1]);
                assert(lu[i] == text::lines(text::ascii_uppercase(rest))[i - 1]);
            }
        }
    }
}

/// The lines of two texts that differ only in case differ only in case.
proof fn lemma_same_lines(a: Seq<char>, b: Seq<char>)
    requires
        same_letters(a, b),
    ensures
        text::lines(a).len() == text::lines(b).len(),
        forall|i: int|
            0 <= i < text::lines(a).len() ==> same_letters(
                #[trigger] text::lines(a)[i],
                text::lines(b)[i],
            ),
{
    lemma_case_lines(a);
    lemma_case_lines(b);
    assert forall|i: int| 0 <= i < text::lines(a).len() implies same_letters(
        #[trigger] text::lines(a)[i],
        text::lines(b)[i],
    ) by {
        assert(text::lines(text::ascii_uppercase(a))[i] == text::ascii_uppercase(
            text::lines(a)[i],
        ));
        assert(text::lines(text::ascii_uppercase(b))[i] == text::ascii_uppercase(
            text::lines(b)[i],
        ));
    }
}

/// A part of an ASCII text is one.
proof fn lemma_ascii_part(s: Seq<char>, from: int, to: int)
    requires
        vstd::utf8::is_ascii_chars(s),
        0 <= from <= to <= s.len(),
    ensures
        vstd::utf8::is_ascii_chars(s.subrange(from, to)),
{
    assert(forall|i: int| 0 <= i < to - from ==> s.subrange(from, to)[i] == s[from + i]);
}

/// Trimming leaves an ASCII text one.
proof fn lemma_ascii_trim(s: Seq<char>)
    requires
        vstd::utf8::is_ascii_chars(s),
    ensures
        vstd::utf8::is_ascii_chars(text::trim(s)),
{
    let t = text::trim_start(s, CharClass::Space);
    let n = text::trim(s).len() as int;
    text_laws::lemma_trim_start(s, CharClass::Space);
    text_laws::lemma_trim_end(t, CharClass::Space);
    lemma_ascii_part(s, s.len() - t.len(), s.len() as int);
    assert(t =~= s.subrange(s.len() - t.len(), s.len() as int));
    lemma_ascii_part(t, 0, n);
    assert(t.take(n) =~= t.subrange(0, n));
}

proof fn lemma_ascii_parenthesised(s: Seq<char>)
    requires
        vstd::utf8::is_ascii_chars(s),
    ensures
        statement::parenthesised(s) matches Some(name) ==> vstd::utf8::is_ascii_chars(name),
{
    let open = text::position(s, '(');
    text::lemma_position(s, '(');
    if open < s.len() {
        let rest = s.skip(open + 1);
        let close = text::position(rest, ')');
        text::lemma_position(rest, ')');
        lemma_ascii_part(s, open + 1, open + 1 + close);
        assert(rest.take(close) =~= s.subrange(open + 1, open + 1 + close));
        lemma_ascii_trim(rest.take(close));
    }
}

proof fn lemma_ascii_lines(s: Seq<char>)
    requires
        vstd::utf8::is_ascii_chars(s),
    ensures
        forall|i: int|
            0 <= i < text::lines(s).len() ==> vstd::utf8::is_ascii_chars(
                #[trigger] text::lines(s)[i],
            ),
    decreases s.len(),
{
    let n = text::position(s, '\n');
    text::lemma_position(s, '\n');
    if s.len() > 0 && n < s.len() {
        let rest = s.skip(n + 1);
        let ls = text::lines(s);
        lemma_ascii_part(s, n + 1, s.len() as int);
        assert(rest =~= s.subrange(n + 1, s.len() as int));
        lemma_ascii_lines(rest);
        assert forall|i: int| 0 <= i < ls.len() implies vstd::utf8::is_ascii_chars(
            #[trigger] ls[i],
        ) by {
            if i > 0 {
                assert(ls[i] == text::lines(rest)[i - 1]);
            } else {
                let m = ls[0].len() as int;
                lemma_ascii_part(s, 0, m);
                assert(ls[0] =~= s.subrange(0, m));
            }
        }
    }
}

/// An ASCII text has as many bytes as characters.
proof fn lemma_ascii_width(a: Seq<char>, b: Seq<char>)
    requires
        vstd::utf8::is_ascii_chars(a),
        vstd::utf8::is_ascii_chars(b),
        a.len() == b.len(),
    ensures
        scanner::width(a) == scanner::width(b),
{
    vstd::utf8::is_ascii_chars_encode_utf8(a);
    vstd::utf8::is_ascii_chars_encode_utf8(b);
}

// ---------------------------------------------------------------------------
// Lines
// ---------------------------------------------------------------------------

/// Case does not matter for what an ASCII line does to the blocks: two lines
/// that differ only in case make the scanner do the same, and open or report
/// the same name.
pub proof fn law_keywords_ignore_case(a: Seq<char>, b: Seq<char>, nested: bool)
    requires
        vstd::utf8::is_ascii_chars(a),
        vstd::utf8::is_ascii_chars(b),
        same_letters(a, b),
    ensures
        ({
            let words = text::words(text::upper(text::trim(a)));
            &&& text::upper(text::trim(a)) == text::upper(text::trim(b))
            &&& scanner::action_of(words, nested) == scanner::action_of(
                text::words(text::upper(text::trim(b))),
                nested,
            )
            &&& statement::name_at(words, 1) == statement::name_at(
                text::words(text::upper(text::trim(b))),
                1,
            )
        }),
{
    lemma_ascii_trim(a);
    lemma_ascii_trim(b);
    lemma_case_trim(a);
    lemma_case_trim(b);
}

/// The types of the nodes whose labels keep the case of the source.
pub open spec fn keeps_case(node_type: Seq<char>) -> bool {
    ||| node_type == "write_statement"@
    ||| node_type == "assignment_statement"@
    ||| node_type == "statement"@
}

/// Whether two labels of nodes of a type are the same, or differ in case alone
/// where the type keeps it.
pub open spec fn same_label(node_type: Seq<char>, a: Seq<char>, b: Seq<char>) -> bool {
    same_letters(a, b) && (keeps_case(node_type) || a == b)
}

/// Statements that differ only in case have the same type, and labels that
/// differ in case at most.
proof fn lemma_same_statement(a: Seq<char>, b: Seq<char>, upper: Seq<char>)
    requires
        vstd::utf8::is_ascii_chars(a),
        vstd::utf8::is_ascii_chars(b),
        same_letters(a, b),
    ensures
        ({
            let (ta, la) = statement::statement_parts(a, upper);
            let (tb, lb) = statement::statement_parts(b, upper);
            ta == tb && same_label(ta, la, lb)
        }),
{
    lemma_case_parenthesised(a);
    lemma_case_parenthesised(b);
    lemma_ascii_parenthesised(a);
    lemma_ascii_parenthesised(b);
    lemma_case_write_label(a);
    lemma_case_write_label(b);
    lemma_case_bare(a);
    lemma_case_bare(b);
    lemma_case_position(statement::bare(a), '=');
    lemma_case_position(statement::bare(b), '=');
}

// ---------------------------------------------------------------------------
// Trees
// ---------------------------------------------------------------------------

/// Whether two trees have the same shape, identifiers, types and positions, and
/// the same labels but for the case of those that keep it.
pub open spec fn same_but_case(t: SemanticTree, u: SemanticTree) -> bool
    decreases t,
{
    &&& t.id == u.id
    &&& t.node_type == u.node_type
    &&& t.position == u.position
    &&& same_label(t.node_type, t.label, u.label)
    &&& t.children.len() == u.children.len()
    &&& forall|i: int|
        0 <= i < t.children.len() ==> same_but_case(#[trigger] t.children[i], u.children[i])
}

/// The same of two lists of trees.
pub open spec fn all_same(ts: Seq<SemanticTree>, us: Seq<SemanticTree>) -> bool {
    &&& ts.len() == us.len()
    &&& forall|i: int| 0 <= i < ts.len() ==> same_but_case(#[trigger] ts[i], us[i])
}

/// The same of two open blocks, whose own labels are equal.
spec fn same_block(b: OpenBlock, c: OpenBlock) -> bool {
    &&& b.id == c.id
    &&& b.node_type == c.node_type
    &&& b.label == c.label
    &&& b.start_line == c.start_line
    &&& all_same(b.children, c.children)
}

/// The same of two states.
spec fn same_state(a: ScanState, b: ScanState) -> bool {
    &&& all_same(a.roots, b.roots)
    &&& a.counter == b.counter
    &&& a.stack.len() == b.stack.len()
    &&& forall|j: int| 0 <= j < a.stack.len() ==> same_block(#[trigger] a.stack[j], b.stack[j])
}

proof fn lemma_same_push(
    ts: Seq<SemanticTree>,
    us: Seq<SemanticTree>,
    t: SemanticTree,
    u: SemanticTree,
)
    requires
        all_same(ts, us),
        same_but_case(t, u),
    ensures
        all_same(ts.push(t), us.push(u)),
{
    assert forall|i: int| 0 <= i < ts.push(t).len() implies same_but_case(
        #[trigger] ts.push(t)[i],
        us.push(u)[i],
    ) by {
        if i < ts.len() {
            assert(same_but_case(ts[i], us[i]));
        }
    }
}

proof fn lemma_same_leaf(t: SemanticTree, u: SemanticTree)
    requires
        t.id == u.id,
        t.node_type == u.node_type,
        t.position == u.position,
        same_label(t.node_type, t.label, u.label),
        t.children.len() == 0,
        u.children.len() == 0,
    ensures
        same_but_case(t, u),
{
}

proof fn lemma_same_closed(b: OpenBlock, c: OpenBlock, line: u32)
    requires
        same_block(b, c),
    ensures
        same_but_case(b.closed(line), c.closed(line)),
{
    let (t, u) = (b.closed(line), c.closed(line));
    assert(t.children == b.children);
    assert(u.children == c.children);
}

proof fn lemma_same_root(a: ScanState, b: ScanState, t: SemanticTree, u: SemanticTree)
    requires
        same_state(a, b),
        same_but_case(t, u),
    ensures
        same_state(a.with_root(t), b.with_root(u)),
{
    lemma_same_push(a.roots, b.roots, t, u);
}

proof fn lemma_same_popped(a: ScanState, b: ScanState)
    requires
        same_state(a, b),
        a.stack.len() > 0,
    ensures
        same_state(a.popped(), b.popped()),
        same_block(a.stack.last(), b.stack.last()),
{
    assert forall|j: int| 0 <= j < a.popped().stack.len() implies same_block(
        #[trigger] a.popped().stack[j],
        b.popped().stack[j],
    ) by {
        assert(same_block(a.stack[j], b.stack[j]));
    }
    assert(same_block(a.stack[a.stack.len() - 1], b.stack[a.stack.len() - 1]));
}

proof fn lemma_same_node(a: ScanState, b: ScanState, t: SemanticTree, u: SemanticTree)
    requires
        same_state(a, b),
        same_but_case(t, u),
    ensures
        same_state(a.with_node(t), b.with_node(u)),
{
    if a.stack.len() > 0 {
        let (na, nb) = (a.with_node(t), b.with_node(u));
        let n = a.stack.len() - 1;
        lemma_same_popped(a, b);
        lemma_same_push(a.stack.last().children, b.stack.last().children, t, u);
        assert forall|j: int| 0 <= j < na.stack.len() implies same_block(
            #[trigger] na.stack[j],
            nb.stack[j],
        ) by {
            if j < n {
                assert(same_block(a.stack[j], b.stack[j]));
            }
        }
    } else {
        lemma_same_root(a, b, t, u);
    }
}

proof fn lemma_same_opened(
    a: ScanState,
    b: ScanState,
    kind: scanner::BlockKind,
    words: Seq<Seq<char>>,
    line: u32,
    end_col: u32,
)
    requires
        same_state(a, b),
        kind is Method ==> a.stack.len() > 0,
    ensures
        same_state(
            a.opened(kind, words, line, end_col),
            b.opened(kind, words, line, end_col),
        ),
{
    let na = a.opened(kind, words, line, end_col);
    let nb = b.opened(kind, words, line, end_col);
    let n = a.stack.len() as int;
    let (ca, cb) = (na.stack.last(), nb.stack.last());
    if n > 0 {
        lemma_same_popped(a, b);
    }
    assert(ca.id == cb.id);
    assert(ca == cb);
    if ca.children.len() > 0 {
        lemma_same_leaf(ca.children[0], cb.children[0]);
    }
    assert(same_block(ca, cb));
    assert forall|j: int| 0 <= j < na.stack.len() implies same_block(
        #[trigger] na.stack[j],
        nb.stack[j],
    ) by {
        if j < n {
            assert(same_block(a.stack[j], b.stack[j]));
        }
    }
}

proof fn lemma_same_scanned(
    a: ScanState,
    b: ScanState,
    line: u32,
    raw_a: Seq<char>,
    raw_b: Seq<char>,
)
    requires
        same_state(a, b),
        vstd::utf8::is_ascii_chars(raw_a),
        vstd::utf8::is_ascii_chars(raw_b),
        same_letters(raw_a, raw_b),
    ensures
        same_state(
            a.scanned(line, raw_a, text::upper(text::trim(raw_a))),
            b.scanned(line, raw_b, text::upper(text::trim(raw_b))),
        ),
{
    let (ta, tb) = (text::trim(raw_a), text::trim(raw_b));
    let upper = text::upper(ta);
    let words = text::words(upper);
    let w = scanner::width(raw_a);
    let nested = a.stack.len() > 0;
    law_keywords_ignore_case(raw_a, raw_b, nested);
    lemma_same_len(raw_a, raw_b);
    lemma_ascii_width(raw_a, raw_b);
    lemma_ascii_trim(raw_a);
    lemma_ascii_trim(raw_b);
    lemma_case_trim(raw_a);
    lemma_case_trim(raw_b);
    lemma_same_len(ta, tb);
    assert(scanner::skipped(ta) == scanner::skipped(tb)) by {
        if ta.len() > 0 {
            assert(text::ascii_upper(ta[0]) == text::ascii_upper(tb[0]));
        }
    }
    if nested {
        lemma_same_popped(a, b);
        lemma_same_closed(a.stack.last(), b.stack.last(), line);
    }
    if !scanner::skipped(ta) && words.len() > 0 {
        match scanner::action_of(words, nested) {
            LineAction::Report => {
                let (ra, rb) = (
                    a.reported(words, line).roots.last(),
                    b.reported(words, line).roots.last(),
                );
                lemma_same_leaf(ra, rb);
                lemma_same_root(a, b, ra, rb);
            },
            LineAction::Open(kind) => {
                lemma_same_opened(a, b, kind, words, line, w);
            },
            LineAction::Close => {
                if nested {
                    lemma_same_root(
                        a.popped(),
                        b.popped(),
                        a.stack.last().closed(line),
                        b.stack.last().closed(line),
                    );
                }
            },
            LineAction::CloseMethod => {
                if nested {
                    lemma_same_node(
                        a.popped(),
                        b.popped(),
                        a.stack.last().closed(line),
                        b.stack.last().closed(line),
                    );
                }
            },
            LineAction::Statement => {
                if nested {
                    let id = a.next_child_id();
                    let sa = statement::statement_tree(id, ta, upper, line, w);
                    let sb = statement::statement_tree(id, tb, upper, line, w);
                    lemma_same_statement(ta, tb, upper);
                    lemma_same_leaf(sa, sb);
                    lemma_same_node(a, b, sa, sb);
                }
            },
            LineAction::Ignore => {},
        }
    }
}

proof fn lemma_same_scan_lines(la: Seq<Seq<char>>, lb: Seq<Seq<char>>, n: nat)
    requires
        n <= la.len(),
        la.len() == lb.len(),
        forall|i: int| 0 <= i < la.len() ==> vstd::utf8::is_ascii_chars(#[trigger] la[i]),
        forall|i: int| 0 <= i < lb.len() ==> vstd::utf8::is_ascii_chars(#[trigger] lb[i]),
        forall|i: int| 0 <= i < la.len() ==> same_letters(#[trigger] la[i], lb[i]),
    ensures
        same_state(scanner::scan_lines(la, n), scanner::scan_lines(lb, n)),
    decreases n,
{
    if n > 0 {
        let i = (n - 1) as nat;
        lemma_same_scan_lines(la, lb, i);
        assert(same_letters(la[i as int], lb[i as int]));
        lemma_same_scanned(
            scanner::scan_lines(la, i),
            scanner::scan_lines(lb, i),
            i as u32,
            la[i as int],
            lb[i as int],
        );
    }
}

proof fn lemma_same_drained(a: ScanState, b: ScanState, last: u32)
    requires
        same_state(a, b),
    ensures
        all_same(a.drained(last), b.drained(last)),
    decreases a.stack.len(),
{
    if a.stack.len() > 0 {
        let (t, u) = (a.stack.last().closed(last), b.stack.last().closed(last));
        lemma_same_popped(a, b);
        lemma_same_closed(a.stack.last(), b.stack.last(), last);
        lemma_same_root(a.popped(), b.popped(), t, u);
        lemma_same_drained(a.popped().with_root(t), b.popped().with_root(u), last);
    }
}

/// Case does not matter for the structure of the scanner's tree: ASCII sources
/// that differ only in case have trees of the same shape, with the same
/// identifiers, types and positions. Their labels are the same, but for the
/// case of those of write statements, assignments and plain statements.
pub proof fn law_structure_ignores_case(a: Seq<char>, b: Seq<char>)
    requires
        vstd::utf8::is_ascii_chars(a),
        vstd::utf8::is_ascii_chars(b),
        same_letters(a, b),
    ensures
        same_but_case(scanner::scanned_source(a), scanner::scanned_source(b)),
{
    let (la, lb) = (text::lines(a), text::lines(b));
    let last = scanner::last_line(la.len());
    lemma_same_lines(a, b);
    lemma_ascii_lines(a);
    lemma_ascii_lines(b);
    lemma_same_scan_lines(la, lb, la.len());
    lemma_same_drained(
        scanner::scan_lines(la, la.len()),
        scanner::scan_lines(lb, lb.len()),
        last,
    );
    assert(scanner::scanned_source(a).children == scanner::scan_lines(la, la.len()).drained(last));
    assert(scanner::scanned_source(b).children == scanner::scan_lines(lb, lb.len()).drained(last));
}

/// An ASCII source and the same in upper case have the same tree but for the
/// case of the labels that keep it.
pub proof fn law_upper_case_source(source: Seq<char>)
    requires
        vstd::utf8::is_ascii_chars(source),
    ensures
        same_but_case(
            scanner::scanned_source(source),
            scanner::scanned_source(text::ascii_uppercase(source)),
        ),
{
    let u = text::ascii_uppercase(source);
    assert(forall|i: int| 0 <= i < u.len() ==> u[i] == text::ascii_upper(source[i]));
    assert(text::ascii_uppercase(u) =~= u);
    law_structure_ignores_case(source, u);
}

} // verus!
