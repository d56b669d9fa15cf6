//! Laws of texts: trimming, words, lines, keywords and labels.
use crate::statement;
use crate::text;
use crate::text::CharClass;
use vstd::prelude::*;

verus! {

// ---------------------------------------------------------------------------
// Trimming, words and lines
// ---------------------------------------------------------------------------

/// Trimming the end takes a number of characters from it, all of the class, and
/// leaves none of the class there.
pub proof fn lemma_trim_end(s: Seq<char>, class: CharClass)
    ensures
        text::trim_end(s, class).len() <= s.len(),
        text::trim_end(s, class) == s.take(text::trim_end(s, class).len() as int),
        text::trim_end(s, class).len() > 0 ==> !class.has(text::trim_end(s, class).last()),
        forall|i: int| text::trim_end(s, class).len() <= i < s.len() ==> class.has(#[trigger] s[i]),
    decreases s.len(),
{
    if s.len() > 0 && class.has(s.last()) {
        let t = s.drop_last();
        let n = text::trim_end(t, class).len();
        lemma_trim_end(t, class);
        assert(t.take(n as int) =~= s.take(n as int));
        assert forall|i: int| n <= i < s.len() implies class.has(#[trigger] s[i]) by {
            if i < t.len() {
                assert(s[i] == t[i]);
            }
        }
    } else {
        assert(s.take(s.len() as int) =~= s);
    }
}

/// Trimming the start takes a number of characters from it, all of the class,
/// and leaves none of the class there.
pub proof fn lemma_trim_start(s: Seq<char>, class: CharClass)
    ensures
        text::trim_start(s, class).len() <= s.len(),
        text::trim_start(s, class) == s.skip(s.len() - text::trim_start(s, class).len()),
        text::trim_start(s, class).len() > 0 ==> !class.has(text::trim_start(s, class).first()),
        forall|i: int|
            0 <= i < s.len() - text::trim_start(s, class).len() ==> class.has(#[trigger] s[i]),
    decreases s.len(),
{
    if s.len() > 0 && class.has(s.first()) {
        let t = s.drop_first();
        let n = text::trim_start(t, class).len();
        lemma_trim_start(t, class);
        assert(t.skip(t.len() - n) =~= s.skip(s.len() - n));
        assert forall|i: int| 0 <= i < s.len() - n implies class.has(#[trigger] s[i]) by {
            if i > 0 {
                assert(s[i] == t[i - 1]);
            }
        }
    } else {
        assert(s.skip(0) =~= s);
    }
}

/// A trimmed text has no white space at its ends.
pub proof fn law_trim(s: Seq<char>)
    ensures
        text::trim(s).len() > 0 ==> !text::is_space(text::trim(s).first()) && !text::is_space(
            text::trim(s).last(),
        ),
{
    let t = text::trim_start(s, CharClass::Space);
    lemma_trim_start(s, CharClass::Space);
    lemma_trim_end(t, CharClass::Space);
}

proof fn lemma_word(s: Seq<char>)
    ensures
        0 <= text::word_len(s) <= s.len(),
        forall|i: int| 0 <= i < text::word_len(s) ==> !text::is_space(#[trigger] s[i]),
    decreases s.len(),
{
    if s.len() > 0 && !text::is_space(s.first()) {
        let t = s.drop_first();
        lemma_word(t);
        assert forall|i: int| 0 <= i < text::word_len(s) implies !text::is_space(
            #[trigger] s[i],
        ) by {
            if i > 0 {
                assert(s[i] == t[i - 1]);
            }
        }
    }
}

/// No word is empty or holds white space.
pub proof fn law_words(s: Seq<char>)
    ensures
        forall|i: int| 0 <= i < text::words(s).len() ==> (#[trigger] text::words(s)[i]).len() > 0,
        forall|i: int, j: int|
            0 <= i < text::words(s).len() && 0 <= j < text::words(s)[i].len() ==> !text::is_space(
                #[trigger] text::words(s)[i][j],
            ),
    decreases s.len(),
{
    let t = text::trim_start(s, CharClass::Space);
    lemma_trim_start(s, CharClass::Space);
    if t.len() > 0 {
        let n = text::word_len(t);
        let all = text::words(s);
        lemma_word(t);
        lemma_word(t.drop_first());
        let rest = text::words(t.skip(n));
        law_words(t.skip(n));
        assert(all[0] == t.take(n));
        assert forall|i: int| 0 <= i < all.len() implies (#[trigger] all[i]).len() > 0 by {
            if i > 0 {
                assert(all[i] == rest[i - 1]);
            }
        }
        assert forall|i: int, j: int|
            0 <= i < all.len() && 0 <= j < all[i].len() implies !text::is_space(
            #[trigger] all[i][j],
        ) by {
            if i > 0 {
                assert(all[i] == rest[i - 1]);
                assert(!text::is_space(rest[i - 1][j]));
            } else {
                assert(t.take(n)[j] == t[j]);
            }
        }
    }
}

/// No line holds a line feed.
pub proof fn law_lines(s: Seq<char>)
    ensures
        forall|i: int| 0 <= i < text::lines(s).len() ==> !(#[trigger] text::lines(s)[i]).contains(
            '\n',
        ),
    decreases s.len(),
{
    let n = text::position(s, '\n');
    text::lemma_position(s, '\n');
    if s.len() > 0 && n < s.len() {
        let rest = text::lines(s.skip(n + 1));
        let all = text::lines(s);
        law_lines(s.skip(n + 1));
        assert forall|i: int| 0 <= i < all.len() implies !(#[trigger] all[i]).contains('\n') by {
            if i > 0 {
                assert(all[i] == rest[i - 1]);
            } else {
                let head = s.take(n);
                assert(forall|k: int| 0 <= k < n ==> head[k] == s[k]);
                assert(all[0] == text::strip_cr(head));
                assert(forall|k: int| 0 <= k < all[0].len() ==> all[0][k] == head[k]);
            }
        }
    }
}

/// A text that is not empty has a line.
pub proof fn lemma_lines_len(s: Seq<char>)
    ensures
        text::lines(s).len() > 0 <==> s.len() > 0,
{
}

/// The lines of two texts with a line feed between them are those of the first,
/// ended by the line feed, and then those of the second.
pub proof fn lemma_lines_of_parts(a: Seq<char>, b: Seq<char>)
    ensures
        text::lines(a.push('\n') + b) == text::lines(a.push('\n')) + text::lines(b),
    decreases a.len(),
{
    let s = a.push('\n');
    let t = s + b;
    let n = text::position(s, '\n');
    text::lemma_position(s, '\n');
    text::lemma_position(t, '\n');
    assert(s[a.len() as int] == '\n');
    assert(t[a.len() as int] == '\n');
    assert(forall|i: int| 0 <= i < s.len() ==> t[i] == s[i]);
    assert(s[n] == '\n');
    assert(text::position(t, '\n') == n);
    assert(t.take(n) =~= s.take(n));
    let head = seq![text::strip_cr(s.take(n))];
    if n < a.len() {
        let rest = a.skip(n + 1);
        assert(s.skip(n + 1) =~= rest.push('\n'));
        assert(t.skip(n + 1) =~= rest.push('\n') + b);
        lemma_lines_of_parts(rest, b);
        assert(head + (text::lines(rest.push('\n')) + text::lines(b)) =~= (head + text::lines(
            rest.push('\n'),
        )) + text::lines(b));
    } else {
        lemma_lines_len(s.skip(n + 1));
        assert(t.skip(n + 1) =~= b);
        assert(text::lines(s) =~= head);
    }
}

// ---------------------------------------------------------------------------
// Keywords
// ---------------------------------------------------------------------------

proof fn lemma_position_front(s: Seq<char>, rest: Seq<char>, c: char)
    ensures
        text::position(s.push(c) + rest, c) == text::position(s, c),
{
    let t = s.push(c) + rest;
    let (n, m) = (text::position(s, c), text::position(t, c));
    text::lemma_position(s, c);
    text::lemma_position(t, c);
    assert(t[s.len() as int] == c);
    assert(forall|i: int| 0 <= i < s.len() ==> t[i] == s[i]);
    if n < m {
        assert(t[n] != c);
    } else if m < n {
        assert(s[m] != c);
    }
}

/// What stands behind a full stop does not hide the keyword before it.
pub proof fn law_suffixes_hide_no_keyword(word: Seq<char>, suffix: Seq<char>)
    ensures
        statement::keyword_of(word.push('.') + suffix) == statement::keyword_of(word),
{
    let t = word.push('.') + suffix;
    let n = text::position(word, '.');
    text::lemma_position(word, '.');
    lemma_position_front(word, suffix, '.');
    assert(t.take(n) =~= word.take(n));
}

/// Nor does a colon behind the keyword hide it.
pub proof fn law_colons_hide_no_keyword(word: Seq<char>)
    ensures
        statement::keyword_of(word.push(':')) == statement::keyword_of(word),
{
    let t = word.push(':');
    let (n, m) = (text::position(word, '.'), text::position(t, '.'));
    text::lemma_position(word, '.');
    text::lemma_position(t, '.');
    assert(forall|i: int| 0 <= i < word.len() ==> t[i] == word[i]);
    assert(t[word.len() as int] == ':');
    if n < word.len() {
        assert(t[n] == '.');
        assert(m == n);
        assert(t.take(n) =~= word.take(n));
    } else {
        assert(m == t.len());
        assert(t.take(m) =~= t);
        assert(word.take(n) =~= word);
        assert(t.drop_last() =~= word);
    }
}

// ---------------------------------------------------------------------------
// Labels
// ---------------------------------------------------------------------------

/// Whether the word at `pos`, if there is one, has more than full stops and
/// commas.
pub open spec fn names_something(words: Seq<Seq<char>>, pos: nat) -> bool {
    pos < words.len() ==> exists|i: int|
        0 <= i < words[pos as int].len() && !CharClass::DotComma.has(#[trigger] words[pos as int][i])
}

/// The label of a block or of a program declaration is empty only where its
/// name consists of full stops and commas alone.
pub proof fn law_names_are_not_empty(words: Seq<Seq<char>>, pos: nat)
    ensures
        statement::name_at(words, pos).len() > 0 <==> names_something(words, pos),
{
    if pos < words.len() {
        let word = words[pos as int];
        let name = statement::name_at(words, pos);
        lemma_trim_end(word, CharClass::DotComma);
        if name.len() > 0 {
            assert(name.last() == word[name.len() - 1]);
        }
    } else {
        let name = "(anonymous)"@;
        reveal_strlit("(anonymous)");
        assert(name.last() == ')');
        assert(text::trim_end(name, CharClass::DotComma) == name);
    }
}

/// A text with a character other than white space is not empty when trimmed.
proof fn lemma_trim_keeps(s: Seq<char>, i: int)
    requires
        0 <= i < s.len(),
        !text::is_space(s[i]),
    ensures
        text::trim(s).len() > 0,
{
    let t = text::trim_start(s, CharClass::Space);
    lemma_trim_start(s, CharClass::Space);
    lemma_trim_end(t, CharClass::Space);
    assert(t.len() > 0);
    assert(!text::is_space(t[0]));
}

/// A trimmed statement without the full stops at its end is empty only where it
/// consists of full stops.
proof fn lemma_bare(raw: Seq<char>)
    ensures
        statement::bare(text::trim(raw)).len() > 0 <==> exists|i: int|
            0 <= i < text::trim(raw).len() && #[trigger] text::trim(raw)[i] != '.',
{
    let s = text::trim(raw);
    let t = text::trim_end(s, CharClass::Dot);
    law_trim(raw);
    lemma_trim_end(s, CharClass::Dot);
    if t.len() > 0 {
        assert(t.last() == s[t.len() - 1]);
        lemma_trim_keeps(t, 0);
    } else {
        lemma_trim_start(t, CharClass::Space);
        lemma_trim_end(text::trim_start(t, CharClass::Space), CharClass::Space);
        assert(forall|i: int| 0 <= i < s.len() ==> CharClass::Dot.has(#[trigger] s[i]));
    }
}

/// A write statement has a label where more than colons stands behind its
/// letters.
proof fn lemma_write_label(s: Seq<char>)
    ensures
        statement::write_label_of(s).len() > 0 <==> exists|i: int|
            0 <= i < text::trim_start(statement::bare(s), CharClass::Letter).len()
                && #[trigger] text::trim_start(statement::bare(s), CharClass::Letter)[i] != ':',
{
    let b = statement::bare(s);
    let operands = text::trim_start(b, CharClass::Letter);
    let rest = text::trim_start(operands, CharClass::Colon);
    law_trim(text::trim_end(s, CharClass::Dot));
    lemma_trim_start(b, CharClass::Letter);
    lemma_trim_start(operands, CharClass::Colon);
    if rest.len() > 0 {
        let n = operands.len() - rest.len();
        assert(rest.first() == operands[n]);
        assert(rest.last() == operands.last());
        assert(operands.last() == b.last());
        lemma_trim_keeps(rest, rest.len() - 1);
    } else {
        lemma_trim_start(rest, CharClass::Space);
        lemma_trim_end(text::trim_start(rest, CharClass::Space), CharClass::Space);
        assert(forall|i: int|
            0 <= i < operands.len() ==> CharClass::Colon.has(#[trigger] operands[i]));
    }
}

/// Whether a statement has what its label is made of: a write statement more
/// than colons behind its letters, the first method of a list more than full
/// stops and commas, any other statement more than full stops. An inline
/// declaration has its name, though nothing is known of the length of a name
/// in upper case that is not all ASCII.
pub open spec fn says_something(trimmed: Seq<char>, upper: Seq<char>) -> bool {
    let kw = statement::first_keyword(upper);
    if text::has_prefix(kw, "DATA"@) {
        statement::parenthesised(trimmed) matches Some(name) ==> vstd::utf8::is_ascii_chars(name)
            || text::upper(name).len() > 0
    } else if kw == "WRITE"@ {
        let operands = text::trim_start(statement::bare(trimmed), CharClass::Letter);
        exists|i: int| 0 <= i < operands.len() && #[trigger] operands[i] != ':'
    } else if kw == "METHODS"@ {
        names_something(text::words(statement::bare(upper)), 1)
    } else {
        exists|i: int| 0 <= i < trimmed.len() && #[trigger] trimmed[i] != '.'
    }
}

/// The label of a statement is empty only where the statement has nothing that
/// a label is made of.
pub proof fn law_statement_labels(raw: Seq<char>, upper: Seq<char>)
    ensures
        statement::statement_parts(text::trim(raw), upper).1.len() > 0 <==> says_something(
            text::trim(raw),
            upper,
        ),
{
    let kw = statement::first_keyword(upper);
    let bare = statement::bare(upper);
    lemma_bare(raw);
    lemma_write_label(text::trim(raw));
    law_names_are_not_empty(text::words(bare), 1);
    if text::has_prefix(kw, "DATA"@) && bare.len() == 0 {
        reveal_strlit("DATA");
        reveal_strlit("");
        lemma_trim_start(bare, CharClass::Space);
        assert(text::words(bare).len() == 0);
        text::lemma_position(""@, '.');
        lemma_trim_end(""@.take(text::position(""@, '.')), CharClass::DotColon);
        assert(kw.len() == 0);
    }
}

} // verus!
