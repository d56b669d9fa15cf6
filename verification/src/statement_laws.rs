//! Laws of single statements: keywords, names, signatures, types and labels.
use crate::node;
use crate::statement;
use crate::string_laws;
use crate::text;
use crate::text::CharClass;
use crate::text_laws;
use vstd::prelude::*;

verus! {

// ---------------------------------------------------------------------------
// Keywords and names
// ---------------------------------------------------------------------------

/// The keyword of a word is what stands before the first full stop, without the
/// colons there.
pub proof fn law_keyword(keyword: Seq<char>, colons: Seq<char>, rest: Seq<char>)
    requires
        !keyword.contains('.'),
        keyword.len() > 0 ==> keyword[keyword.len() - 1] != ':',
        forall|i: int| 0 <= i < colons.len() ==> #[trigger] colons[i] == ':',
        rest.len() > 0 ==> rest[0] == '.',
    ensures
        statement::keyword_of(keyword + colons + rest) == keyword,
{
    let front = keyword + colons;
    let word = front + rest;
    let k = keyword.len() as int;
    assert(!front.contains('.')) by {
        assert forall|i: int| 0 <= i < front.len() implies front[i] != '.' by {
            if i < k {
                assert(front[i] == keyword[i]);
                assert(keyword.contains(keyword[i]));
            } else {
                assert(front[i] == colons[i - k]);
            }
        }
    }
    if rest.len() > 0 {
        let tail = rest.skip(1);
        assert(word =~= front.push('.') + tail);
        string_laws::law_position(front, '.', tail);
    } else {
        assert(word =~= front);
        string_laws::law_position(front, '.', Seq::empty());
    }
    assert(word.take(front.len() as int) =~= front);
    let r = statement::keyword_of(word);
    string_laws::law_trim_end(front, CharClass::DotColon);
    if r.len() > k {
        assert(r[r.len() - 1] == front[r.len() - 1]);
        assert(front[r.len() - 1] == colons[r.len() - 1 - k]);
    } else if r.len() < k {
        assert(CharClass::DotColon.has(front[k - 1]));
        assert(front[k - 1] == keyword[k - 1]);
        assert(front.contains(front[k - 1]));
    }
    assert(r =~= keyword);
}

/// A name is a word without the full stops and commas at its end. A missing
/// word is named `(anonymous)`.
pub proof fn law_name(words: Seq<Seq<char>>, pos: nat, name: Seq<char>, tail: Seq<char>)
    requires
        pos < words.len() ==> words[pos as int] == name + tail,
        name.len() > 0 ==> name[name.len() - 1] != '.' && name[name.len() - 1] != ',',
        forall|i: int| 0 <= i < tail.len() ==> #[trigger] tail[i] == '.' || tail[i] == ',',
    ensures
        pos < words.len() ==> statement::name_at(words, pos) == name,
        pos >= words.len() ==> statement::name_at(words, pos) == "(anonymous)"@,
{
    if pos < words.len() {
        lemma_stripped(name, tail);
    } else {
        let anonymous = "(anonymous)"@;
        reveal_strlit("(anonymous)");
        lemma_stripped(anonymous, Seq::empty());
        assert(anonymous + Seq::<char>::empty() =~= anonymous);
    }
}

/// A word without the full stops and commas at its end.
pub open spec fn stripped(word: Seq<char>) -> Seq<char> {
    text::trim_end(word, CharClass::DotComma)
}

proof fn lemma_stripped(name: Seq<char>, tail: Seq<char>)
    requires
        name.len() > 0 ==> name[name.len() - 1] != '.' && name[name.len() - 1] != ',',
        forall|i: int| 0 <= i < tail.len() ==> #[trigger] tail[i] == '.' || tail[i] == ',',
    ensures
        stripped(name + tail) == name,
{
    let word = name + tail;
    let r = stripped(word);
    let n = name.len() as int;
    string_laws::law_trim_end(word, CharClass::DotComma);
    if r.len() > n {
        assert(r[r.len() - 1] == word[r.len() - 1]);
        assert(word[r.len() - 1] == tail[r.len() - 1 - n]);
    } else if r.len() < n {
        assert(CharClass::DotComma.has(word[n - 1]));
        assert(word[n - 1] == name[n - 1]);
    }
    assert(r =~= name);
}

// ---------------------------------------------------------------------------
// Signatures
// ---------------------------------------------------------------------------

/// The signature of a single word is the word without the full stops and commas
/// at its end.
pub proof fn law_signature_of_word(word: Seq<char>, name: Seq<char>, tail: Seq<char>)
    requires
        word == name + tail,
        name.len() > 0 ==> name[name.len() - 1] != '.' && name[name.len() - 1] != ',',
        forall|i: int| 0 <= i < tail.len() ==> #[trigger] tail[i] == '.' || tail[i] == ',',
    ensures
        statement::signature_label(seq![word]) == name,
{
    let one = seq![word];
    lemma_stripped(name, tail);
    assert(one.drop_last() =~= Seq::empty());
    assert(statement::signature_label(one.drop_last()) =~= Seq::empty());
    if name.len() == 0 {
        assert(name =~= Seq::empty());
    }
}

/// Two signatures with a space between them, unless one is empty.
pub open spec fn joined(a: Seq<char>, b: Seq<char>) -> Seq<char> {
    if a.len() == 0 {
        b
    } else if b.len() == 0 {
        a
    } else {
        a.push(' ') + b
    }
}

/// The signature of some words is that of the first and that of the others,
/// joined by a space: no word is lost, and none changes place.
pub proof fn law_signature_of_parts(a: Seq<Seq<char>>, b: Seq<Seq<char>>)
    ensures
        statement::signature_label(a + b) == joined(
            statement::signature_label(a),
            statement::signature_label(b),
        ),
    decreases b.len(),
{
    let sa = statement::signature_label(a);
    if b.len() == 0 {
        assert(a + b =~= a);
    } else {
        let front = b.drop_last();
        let sb = statement::signature_label(front);
        let word = stripped(b.last());
        law_signature_of_parts(a, front);
        assert((a + b).drop_last() =~= a + front);
        assert((a + b).last() == b.last());
        if sa.len() > 0 && sb.len() > 0 && word.len() > 0 {
            assert((sa.push(' ') + sb).push(' ') + word =~= sa.push(' ') + (sb.push(' ') + word));
        }
    }
}

/// The words of a list that have more than full stops and commas, without those
/// at their ends.
pub open spec fn stripped_words(words: Seq<Seq<char>>) -> Seq<Seq<char>> {
    words.map_values(|w: Seq<char>| stripped(w)).filter(|w: Seq<char>| w.len() > 0)
}

proof fn lemma_stripped_words_push(words: Seq<Seq<char>>, word: Seq<char>)
    ensures
        stripped_words(words.push(word)) == if stripped(word).len() == 0 {
            stripped_words(words)
        } else {
            stripped_words(words).push(stripped(word))
        },
{
    let all = words.push(word).map_values(|w: Seq<char>| stripped(w));
    let front = words.map_values(|w: Seq<char>| stripped(w));
    reveal(Seq::filter);
    assert(all.drop_last() =~= front);
    assert(all.last() == stripped(word));
}

/// The words of a signature are the words that it is made of, all of them and
/// in order, without the full stops and commas at their ends. Those that have
/// nothing else are left out.
pub proof fn law_signature_words(words: Seq<Seq<char>>)
    requires
        forall|i: int, j: int|
            0 <= i < words.len() && 0 <= j < words[i].len() ==> !text::is_space(
                #[trigger] words[i][j],
            ),
    ensures
        text::words(statement::signature_label(words)) == stripped_words(words),
        statement::signature_label(words).len() == 0 <==> stripped_words(words).len() == 0,
    decreases words.len(),
{
    let none = Seq::<char>::empty();
    if words.len() == 0 {
        reveal(Seq::filter);
        assert(text::words(none).len() == 0);
        assert(text::words(statement::signature_label(words)) =~= stripped_words(words));
    } else {
        let front = words.drop_last();
        let word = words.last();
        let w = stripped(word);
        let before = statement::signature_label(front);
        assert forall|i: int, j: int|
            0 <= i < front.len() && 0 <= j < front[i].len() implies !text::is_space(
            #[trigger] front[i][j],
        ) by {
            assert(front[i][j] == words[i][j]);
        }
        law_signature_words(front);
        assert(front.push(word) =~= words);
        lemma_stripped_words_push(front, word);
        string_laws::law_trim_end(word, CharClass::DotComma);
        assert forall|j: int| 0 <= j < w.len() implies !text::is_space(#[trigger] w[j]) by {
            assert(w[j] == words[words.len() - 1][j]);
        }
        string_laws::law_one_word(w);
        if w.len() > 0 {
            if before.len() > 0 {
                string_laws::law_words_of_parts(before, ' ', w);
                assert(text::words(before) + seq![w] =~= stripped_words(front).push(w));
            } else {
                assert(text::words(before) =~= Seq::empty());
                assert(seq![w] =~= stripped_words(front).push(w));
            }
        }
    }
}

/// Different signatures of words without white space show: the label tells all
/// the words.
pub proof fn law_changed_signatures_show(a: Seq<Seq<char>>, b: Seq<Seq<char>>)
    requires
        forall|i: int, j: int|
            0 <= i < a.len() && 0 <= j < a[i].len() ==> !text::is_space(#[trigger] a[i][j]),
        forall|i: int, j: int|
            0 <= i < b.len() && 0 <= j < b[i].len() ==> !text::is_space(#[trigger] b[i][j]),
        stripped_words(a) != stripped_words(b),
    ensures
        statement::signature_label(a) != statement::signature_label(b),
{
    law_signature_words(a);
    law_signature_words(b);
}

/// The children that a block starts with: where the words behind its name leave
/// a signature, a single node for it at the first line, numbered zero.
pub proof fn law_signature_children(
    parent: Seq<char>,
    words: Seq<Seq<char>>,
    from: nat,
    line: u32,
    end_col: u32,
)
    ensures
        ({
            let behind = if from <= words.len() {
                words.subrange(from as int, words.len() as int)
            } else {
                Seq::<Seq<char>>::empty()
            };
            let label = statement::signature_label(behind);
            let nodes = statement::signature_trees(parent, words, from, line, end_col);
            &&& statement::words_from(words, from) == behind
            &&& label.len() == 0 ==> nodes.len() == 0
            &&& label.len() > 0 ==> {
                &&& nodes.len() == 1
                &&& nodes[0].id == node::child_id(parent, 0)
                &&& nodes[0].node_type == "signature"@
                &&& nodes[0].label == label
                &&& nodes[0].position.start_line == line
                &&& nodes[0].position.start_col == 0
                &&& nodes[0].position.end_line == line
                &&& nodes[0].position.end_col == end_col
                &&& nodes[0].children.len() == 0
            }
        }),
{
    if from <= words.len() {
        assert(words.skip(from as int) =~= words.subrange(from as int, words.len() as int));
    }
}

// ---------------------------------------------------------------------------
// Inline declarations
// ---------------------------------------------------------------------------

/// The name of an inline declaration stands between the first opening
/// parenthesis and the first closing one behind it, without the white space
/// around it.
pub proof fn law_parenthesised(before: Seq<char>, inside: Seq<char>, behind: Seq<char>)
    requires
        !before.contains('('),
        !inside.contains(')'),
    ensures
        ({
            let found = statement::parenthesised(
                before.push('(') + (inside.push(')') + behind),
            );
            &&& text::trim(inside).len() > 0 ==> found == Some(text::trim(inside))
            &&& text::trim(inside).len() == 0 ==> found is None
        }),
{
    let rest = inside.push(')') + behind;
    let s = before.push('(') + rest;
    string_laws::law_position(before, '(', rest);
    string_laws::law_position(inside, ')', behind);
    assert(s.skip(before.len() + 1int) =~= rest);
    assert(rest.take(inside.len() as int) =~= inside);
}

/// Without an opening parenthesis, or without a closing one behind the first
/// opening one, there is no name.
pub proof fn law_not_parenthesised(before: Seq<char>, inside: Seq<char>)
    requires
        !before.contains('('),
        !inside.contains(')'),
    ensures
        statement::parenthesised(before) is None,
        statement::parenthesised(before.push('(') + inside) is None,
{
    let s = before.push('(') + inside;
    string_laws::law_position(before, '(', inside);
    string_laws::law_position(inside, ')', Seq::empty());
    assert(s.skip(before.len() + 1int) =~= inside);
}

/// The label of an inline declaration is its name in upper case.
pub proof fn law_data_label(s: Seq<char>)
    ensures
        statement::data_label_of(s) is Some <==> statement::parenthesised(s) is Some,
        statement::parenthesised(s) is Some ==> statement::data_label_of(s)->0 == text::upper(
            statement::parenthesised(s)->0,
        ),
{
}

// ---------------------------------------------------------------------------
// Bare statements
// ---------------------------------------------------------------------------

/// A bare statement is the statement without the full stops at its end and
/// without the white space that is then around it, and nothing else is taken.
pub proof fn law_bare(before: Seq<char>, core: Seq<char>, after: Seq<char>, dots: Seq<char>)
    requires
        forall|i: int| 0 <= i < before.len() ==> text::is_space(#[trigger] before[i]),
        forall|i: int| 0 <= i < after.len() ==> text::is_space(#[trigger] after[i]),
        forall|i: int| 0 <= i < dots.len() ==> #[trigger] dots[i] == '.',
        core.len() > 0 ==> !text::is_space(core[0]) && !text::is_space(core[core.len() - 1]),
        core.len() > 0 && after.len() == 0 ==> core[core.len() - 1] != '.',
    ensures
        statement::bare(before + core + after + dots) == core,
{
    let front = before + core + after;
    let s = front + dots;
    let t = text::trim_end(s, CharClass::Dot);
    let n = front.len() as int;
    string_laws::law_trim_end(s, CharClass::Dot);
    if t.len() > n {
        assert(t[t.len() - 1] == s[t.len() - 1]);
        assert(s[t.len() - 1] == dots[t.len() - 1 - n]);
    } else if t.len() < n {
        assert(s[n - 1] == front[n - 1]);
        assert(CharClass::Dot.has(s[n - 1]));
        if after.len() > 0 {
            assert(front[n - 1] == after[after.len() - 1]);
        } else if core.len() > 0 {
            assert(front[n - 1] == core[core.len() - 1]);
        } else {
            assert(front[n - 1] == before[before.len() - 1]);
        }
    }
    assert(t =~= front);
    let from = before.len() as int;
    let to = from + core.len();
    assert(front.subrange(from, to) =~= core);
    if core.len() > 0 {
        assert(front[from] == core[0]);
        assert(front[to - 1] == core[core.len() - 1]);
    }
    assert forall|i: int| 0 <= i < from implies text::is_space(#[trigger] front[i]) by {
        assert(front[i] == before[i]);
    }
    assert forall|i: int| to <= i < front.len() implies text::is_space(#[trigger] front[i]) by {
        assert(front[i] == after[i - to]);
    }
    assert(string_laws::is_trimmed(front, core, from, to));
    string_laws::lemma_trimmed_once(front, core, from, to);
}

/// What a write statement writes stands behind its letters and the colons
/// there, without white space around it.
pub proof fn law_write_label(
    s: Seq<char>,
    letters: Seq<char>,
    colons: Seq<char>,
    operands: Seq<char>,
)
    requires
        statement::bare(s) == letters + colons + operands,
        forall|i: int|
            0 <= i < letters.len() ==> ('a' <= #[trigger] letters[i] && letters[i] <= 'z') || (
            'A' <= letters[i] && letters[i] <= 'Z'),
        forall|i: int| 0 <= i < colons.len() ==> #[trigger] colons[i] == ':',
        operands.len() > 0 ==> operands[0] != ':',
        operands.len() > 0 && colons.len() == 0 ==> !('a' <= operands[0] && operands[0] <= 'z')
            && !('A' <= operands[0] && operands[0] <= 'Z'),
    ensures
        statement::write_label_of(s) == text::trim(operands),
{
    let b = statement::bare(s);
    let u = text::trim_start(b, CharClass::Letter);
    let tail = colons + operands;
    let n = letters.len() as int;
    let m = b.len() - u.len();
    string_laws::law_trim_start(b, CharClass::Letter);
    if m < n {
        assert(u[0] == b[m]);
        assert(b[m] == letters[m]);
    } else if m > n {
        assert(CharClass::Letter.has(b[n]));
        assert(b[n] == tail[0]);
        if colons.len() > 0 {
            assert(tail[0] == colons[0]);
        } else {
            assert(tail[0] == operands[0]);
        }
    }
    assert(u =~= tail);
    let v = text::trim_start(tail, CharClass::Colon);
    let k = tail.len() - v.len();
    let c = colons.len() as int;
    string_laws::law_trim_start(tail, CharClass::Colon);
    if k < c {
        assert(v[0] == tail[k]);
        assert(tail[k] == colons[k]);
    } else if k > c {
        assert(CharClass::Colon.has(tail[c]));
        assert(tail[c] == operands[0]);
    }
    assert(v =~= operands);
}

// ---------------------------------------------------------------------------
// Types and labels
// ---------------------------------------------------------------------------

/// The keyword that a statement begins with is that of the first word, if the
/// statement has one.
pub proof fn law_first_keyword(upper: Seq<char>)
    ensures
        text::words(statement::bare(upper)).len() > 0 ==> statement::first_keyword(upper)
            == statement::keyword_of(text::words(statement::bare(upper))[0]),
        text::words(statement::bare(upper)).len() == 0 ==> statement::first_keyword(upper).len()
            == 0,
{
    reveal_strlit("");
    let none = Seq::<char>::empty();
    assert(""@ =~= none);
    law_keyword(none, none, none);
    assert(none + none + none =~= none);
}

/// The keyword of a statement decides its type, and an equals sign where the
/// keyword does not.
pub proof fn law_statement_types(trimmed: Seq<char>, upper: Seq<char>)
    ensures
        ({
            let kw = statement::first_keyword(upper);
            let node_type = statement::statement_parts(trimmed, upper).0;
            let data = exists|rest: Seq<char>| kw == #[trigger] ("DATA"@ + rest);
            let other = !data && kw != "WRITE"@ && kw != "METHODS"@;
            &&& node_type == "data_declaration"@ <==> data
            &&& node_type == "write_statement"@ <==> kw == "WRITE"@
            &&& node_type == "method_signature"@ <==> kw == "METHODS"@
            &&& node_type == "assignment_statement"@ <==> other && statement::bare(
                trimmed,
            ).contains('=')
            &&& node_type == "statement"@ <==> other && !statement::bare(trimmed).contains('=')
        }),
{
    let kw = statement::first_keyword(upper);
    reveal_strlit("DATA");
    reveal_strlit("WRITE");
    reveal_strlit("METHODS");
    reveal_strlit("data_declaration");
    reveal_strlit("write_statement");
    reveal_strlit("method_signature");
    reveal_strlit("assignment_statement");
    reveal_strlit("statement");
    string_laws::law_prefix(kw, "DATA"@);
    assert("data_declaration"@[0] == 'd');
    assert("method_signature"@[0] == 'm');
    assert("DATA"@[0] == 'D');
    assert("WRITE"@[0] == 'W');
    assert("METHODS"@[0] == 'M');
    assert(text::has_prefix(kw, "DATA"@) ==> kw[0] == 'D') by {
        if text::has_prefix(kw, "DATA"@) {
            assert(kw.take(4)[0] == kw[0]);
        }
    }
    let node_type = statement::statement_parts(trimmed, upper).0;
    if text::has_prefix(kw, "DATA"@) {
        assert(node_type == "data_declaration"@);
    } else if kw == "WRITE"@ {
        assert(node_type == "write_statement"@);
    } else if kw == "METHODS"@ {
        assert(node_type == "method_signature"@);
    }
    assert("WRITE"@.len() == 5 && "METHODS"@.len() == 7);
    assert("data_declaration"@.len() == 16 && "method_signature"@.len() == 16);
    assert("write_statement"@.len() == 15);
    assert("assignment_statement"@.len() == 20);
    assert("statement"@.len() == 9);
}

/// The label of a statement by its keyword: the name that an inline declaration
/// puts in parentheses, in upper case, or the whole declaration in upper case;
/// what is written; the name of the method; and the whole statement otherwise.
pub proof fn law_labels_by_keyword(trimmed: Seq<char>, upper: Seq<char>)
    ensures
        ({
            let kw = statement::first_keyword(upper);
            let label = statement::statement_parts(trimmed, upper).1;
            let data = exists|rest: Seq<char>| kw == #[trigger] ("DATA"@ + rest);
            &&& data && statement::parenthesised(trimmed) is Some ==> label == text::upper(
                statement::parenthesised(trimmed)->0,
            )
            &&& data && statement::parenthesised(trimmed) is None ==> label == statement::bare(upper)
            &&& kw == "WRITE"@ ==> label == statement::write_label_of(trimmed)
            &&& kw == "METHODS"@ ==> label == statement::name_at(
                text::words(statement::bare(upper)),
                1,
            )
            &&& !data && kw != "WRITE"@ && kw != "METHODS"@ ==> label == statement::bare(trimmed)
        }),
{
    let kw = statement::first_keyword(upper);
    string_laws::law_prefix(kw, "DATA"@);
    reveal_strlit("DATA");
    reveal_strlit("WRITE");
    reveal_strlit("METHODS");
    assert("DATA"@[0] == 'D');
    assert("WRITE"@[0] == 'W');
    assert("METHODS"@[0] == 'M');
    assert(text::has_prefix(kw, "DATA"@) ==> kw[0] == 'D') by {
        if text::has_prefix(kw, "DATA"@) {
            assert(kw.take(4)[0] == kw[0]);
        }
    }
}

/// The label of an assignment or of a plain statement is the trimmed line from
/// its start, in full: what stands behind it are full stops and the white space
/// before them.
pub proof fn law_statements_are_labelled_in_full(raw: Seq<char>, upper: Seq<char>)
    requires
        statement::statement_parts(text::trim(raw), upper).0 == "assignment_statement"@
            || statement::statement_parts(text::trim(raw), upper).0 == "statement"@,
    ensures
        ({
            let line = text::trim(raw);
            let label = statement::statement_parts(line, upper).1;
            &&& label.len() <= line.len()
            &&& label == line.subrange(0, label.len() as int)
            &&& forall|i: int|
                label.len() <= i < line.len() ==> #[trigger] line[i] == '.' || text::is_space(
                    line[i],
                )
            &&& label.len() > 0 ==> !text::is_space(label[label.len() - 1])
            &&& label.len() > 0 && label.len() == line.len() ==> label[label.len() - 1] != '.'
        }),
{
    let line = text::trim(raw);
    law_statement_types(line, upper);
    law_labels_by_keyword(line, upper);
    lemma_bare_is_front(raw);
}

/// A trimmed line without the full stops at its end is a front of the line.
proof fn lemma_bare_is_front(raw: Seq<char>)
    ensures
        ({
            let line = text::trim(raw);
            let label = statement::bare(line);
            &&& label.len() <= line.len()
            &&& label == line.subrange(0, label.len() as int)
            &&& forall|i: int|
                label.len() <= i < line.len() ==> #[trigger] line[i] == '.' || text::is_space(
                    line[i],
                )
            &&& label.len() > 0 ==> !text::is_space(label[label.len() - 1])
            &&& label.len() > 0 && label.len() == line.len() ==> label[label.len() - 1] != '.'
        }),
{
    let line = text::trim(raw);
    let t = text::trim_end(line, CharClass::Dot);
    let label = statement::bare(line);
    text_laws::law_trim(raw);
    string_laws::law_trim_end(line, CharClass::Dot);
    string_laws::law_trim_whole(t);
    let (from, to) = choose|from: int, to: int| #[trigger]
        string_laws::is_trimmed(t, label, from, to);
    if t.len() > 0 {
        assert(t[0] == line[0]);
        if from > 0 {
            assert(text::is_space(t[0]));
        }
        if to == 0 {
            assert(text::is_space(t[0]));
        }
        assert(from == 0);
        assert(label =~= line.subrange(0, label.len() as int));
        assert forall|i: int| label.len() <= i < line.len() implies #[trigger] line[i] == '.'
            || text::is_space(line[i]) by {
            if i < t.len() {
                assert(t[i] == line[i]);
                assert(text::is_space(t[i]));
            } else {
                assert(CharClass::Dot.has(line[i]));
            }
        }
        assert(label[label.len() - 1] == t[to - 1]);
    } else {
        assert(label.len() == 0);
        assert(label =~= line.subrange(0, 0));
        assert forall|i: int| label.len() <= i < line.len() implies #[trigger] line[i] == '.'
            || text::is_space(line[i]) by {
            assert(CharClass::Dot.has(line[i]));
        }
    }
}

/// Whether two trimmed lines differ in a character that is neither a full stop
/// nor white space, or in one that stands before such a character.
pub open spec fn differ_at(a: Seq<char>, b: Seq<char>, i: int, j: int) -> bool {
    &&& 0 <= i <= j
    &&& i < a.len() && j < a.len()
    &&& a[j] != '.' && !text::is_space(a[j])
    &&& i >= b.len() || a[i] != b[i]
}

/// Assignments and plain statements that differ before their final full stops
/// have different labels.
pub proof fn law_different_statements_show(
    a: Seq<char>,
    b: Seq<char>,
    upper_a: Seq<char>,
    upper_b: Seq<char>,
    i: int,
    j: int,
)
    requires
        statement::statement_parts(text::trim(a), upper_a).0 == "assignment_statement"@
            || statement::statement_parts(text::trim(a), upper_a).0 == "statement"@,
        statement::statement_parts(text::trim(b), upper_b).0 == "assignment_statement"@
            || statement::statement_parts(text::trim(b), upper_b).0 == "statement"@,
        differ_at(text::trim(a), text::trim(b), i, j),
    ensures
        statement::statement_parts(text::trim(a), upper_a).1 != statement::statement_parts(
            text::trim(b),
            upper_b,
        ).1,
{
    let (ta, tb) = (text::trim(a), text::trim(b));
    let la = statement::statement_parts(ta, upper_a).1;
    let lb = statement::statement_parts(tb, upper_b).1;
    law_statements_are_labelled_in_full(a, upper_a);
    law_statements_are_labelled_in_full(b, upper_b);
    if la == lb {
        assert(la.len() > j);
        assert(la[i] == ta[i]);
        assert(lb[i] == tb[i]);
    }
}

/// The node for a statement: a leaf on the line of the statement with its type
/// and label.
pub proof fn law_statement_node(
    id: Seq<char>,
    trimmed: Seq<char>,
    upper: Seq<char>,
    line: u32,
    end_col: u32,
)
    ensures
        ({
            let t = statement::statement_tree(id, trimmed, upper, line, end_col);
            &&& t.id == id
            &&& t.node_type == statement::statement_parts(trimmed, upper).0
            &&& t.label == statement::statement_parts(trimmed, upper).1
            &&& t.position.start_line == line
            &&& t.position.start_col == 0
            &&& t.position.end_line == line
            &&& t.position.end_col == end_col
            &&& t.children.len() == 0
        }),
{
}

} // verus!
