//! Laws of strings: what the result of each operation on a text satisfies, and
//! how the results for a text and for its parts relate.
use crate::text;
use crate::text::CharClass;
use crate::text_laws;
use vstd::prelude::*;

verus! {

// ---------------------------------------------------------------------------
// Characters
// ---------------------------------------------------------------------------

/// White space: of the ASCII characters the space and the five control
/// characters from tab to carriage return, and beyond them the next line, the
/// spaces of fixed width and the separators of lines and paragraphs.
pub proof fn law_spaces(c: char)
    ensures
        c <= '\u{7f}' ==> (text::is_space(c) <==> c == ' ' || c == '\t' || c == '\n' || c
            == '\u{b}' || c == '\u{c}' || c == '\r'),
        c > '\u{7f}' ==> (text::is_space(c) <==> c == '\u{85}' || c == '\u{a0}' || c
            == '\u{1680}' || ('\u{2000}' <= c && c <= '\u{200a}') || c == '\u{2028}' || c
            == '\u{2029}' || c == '\u{202f}' || c == '\u{205f}' || c == '\u{3000}'),
{
}

/// The punctuation and the letters that are stripped.
pub proof fn law_classes(c: char)
    ensures
        CharClass::Space.has(c) <==> text::is_space(c),
        CharClass::Dot.has(c) <==> c == '.',
        CharClass::DotComma.has(c) <==> c == '.' || c == ',',
        CharClass::DotColon.has(c) <==> c == '.' || c == ':',
        CharClass::Colon.has(c) <==> c == ':',
        CharClass::Letter.has(c) <==> ('a' <= c && c <= 'z') || ('A' <= c && c <= 'Z'),
{
}

// ---------------------------------------------------------------------------
// Trimming
// ---------------------------------------------------------------------------

/// Trimming the end leaves a front of the text that does not end in the class,
/// and everything behind it is of the class.
pub proof fn law_trim_end(s: Seq<char>, class: CharClass)
    ensures
        ({
            let r = text::trim_end(s, class);
            &&& r.len() <= s.len()
            &&& forall|i: int| 0 <= i < r.len() ==> #[trigger] r[i] == s[i]
            &&& forall|i: int| r.len() <= i < s.len() ==> class.has(#[trigger] s[i])
            &&& r.len() > 0 ==> !class.has(r[r.len() - 1])
        }),
{
    let r = text::trim_end(s, class);
    text_laws::lemma_trim_end(s, class);
    assert(forall|i: int| 0 <= i < r.len() ==> s.take(r.len() as int)[i] == s[i]);
}

/// Trimming the start leaves an end of the text that does not begin with the
/// class, and everything before it is of the class.
pub proof fn law_trim_start(s: Seq<char>, class: CharClass)
    ensures
        ({
            let r = text::trim_start(s, class);
            let n = s.len() - r.len();
            &&& n >= 0
            &&& forall|i: int| 0 <= i < r.len() ==> #[trigger] r[i] == s[n + i]
            &&& forall|i: int| 0 <= i < n ==> class.has(#[trigger] s[i])
            &&& r.len() > 0 ==> !class.has(r[0])
        }),
{
    text_laws::lemma_trim_start(s, class);
}

/// Whether `r` is what is left of `s` between `from` and `to` when only white
/// space is taken from its ends, and none is left there.
pub open spec fn is_trimmed(s: Seq<char>, r: Seq<char>, from: int, to: int) -> bool {
    &&& 0 <= from <= to <= s.len()
    &&& r == s.subrange(from, to)
    &&& forall|i: int| 0 <= i < from ==> text::is_space(#[trigger] s[i])
    &&& forall|i: int| to <= i < s.len() ==> text::is_space(#[trigger] s[i])
    &&& from < to ==> !text::is_space(s[from]) && !text::is_space(s[to - 1])
}

/// Trimming takes white space from both ends, all of it, and nothing else.
pub proof fn law_trim_whole(s: Seq<char>)
    ensures
        exists|from: int, to: int| #[trigger] is_trimmed(s, text::trim(s), from, to),
{
    let t = text::trim_start(s, CharClass::Space);
    let r = text::trim(s);
    let from = s.len() - t.len();
    let to = from + r.len();
    law_trim_start(s, CharClass::Space);
    law_trim_end(t, CharClass::Space);
    assert(r =~= s.subrange(from, to));
    assert forall|i: int| to <= i < s.len() implies text::is_space(#[trigger] s[i]) by {
        assert(t[i - from] == s[i]);
        assert(CharClass::Space.has(t[i - from]));
    }
    assert(is_trimmed(s, r, from, to));
}

/// There is one way to trim a text.
pub proof fn lemma_trimmed_once(s: Seq<char>, r: Seq<char>, from: int, to: int)
    requires
        is_trimmed(s, r, from, to),
    ensures
        r == text::trim(s),
{
    law_trim_whole(s);
    let (f, t) = choose|f: int, t: int| #[trigger] is_trimmed(s, text::trim(s), f, t);
    if from < to {
        if f >= t {
            assert(text::is_space(s[from]));
        }
        if f < from {
            assert(text::is_space(s[f]));
        } else if from < f {
            assert(text::is_space(s[from]));
        }
        if t < to {
            assert(text::is_space(s[to - 1]));
        } else if to < t {
            assert(text::is_space(s[t - 1]));
        }
    } else {
        if f < t {
            assert(text::is_space(s[f]));
        }
        assert(r =~= text::trim(s));
    }
}

// ---------------------------------------------------------------------------
// Searching
// ---------------------------------------------------------------------------

/// A character is found where it first stands, or at the end.
pub proof fn law_position(before: Seq<char>, c: char, after: Seq<char>)
    requires
        !before.contains(c),
    ensures
        text::position(before, c) == before.len(),
        text::position(before.push(c) + after, c) == before.len(),
{
    let t = before.push(c) + after;
    text::lemma_position(before, c);
    text::lemma_position(t, c);
    assert(t[before.len() as int] == c);
    let n = text::position(t, c);
    if n < before.len() {
        assert(t[n] == before[n]);
    }
}

/// A text begins with another where it is that text and something behind it.
pub proof fn law_prefix(s: Seq<char>, prefix: Seq<char>)
    ensures
        text::has_prefix(s, prefix) <==> exists|rest: Seq<char>| s == #[trigger] (prefix + rest),
{
    if text::has_prefix(s, prefix) {
        let rest = s.skip(prefix.len() as int);
        assert(s =~= prefix + rest);
    }
    if exists|rest: Seq<char>| s == #[trigger] (prefix + rest) {
        let rest = choose|rest: Seq<char>| s == #[trigger] (prefix + rest);
        assert(s.take(prefix.len() as int) =~= prefix);
    }
}

/// A text ends with another where it is something and that text behind it.
pub proof fn law_suffix(s: Seq<char>, suffix: Seq<char>)
    ensures
        text::has_suffix(s, suffix) <==> exists|front: Seq<char>| s == #[trigger] (front + suffix),
{
    if text::has_suffix(s, suffix) {
        let front = s.take(s.len() - suffix.len());
        assert(s =~= front + suffix);
    }
    if exists|front: Seq<char>| s == #[trigger] (front + suffix) {
        let front = choose|front: Seq<char>| s == #[trigger] (front + suffix);
        assert(s.skip(s.len() - suffix.len()) =~= suffix);
    }
}

// ---------------------------------------------------------------------------
// Words
// ---------------------------------------------------------------------------

/// A text without white space is one word, unless it is empty.
pub proof fn law_one_word(w: Seq<char>)
    requires
        forall|i: int| 0 <= i < w.len() ==> !text::is_space(#[trigger] w[i]),
    ensures
        w.len() == 0 ==> text::words(w).len() == 0,
        w.len() > 0 ==> text::words(w) == seq![w],
{
    if w.len() > 0 {
        lemma_word_len_whole(w);
        assert(w.take(w.len() as int) =~= w);
        assert(w.skip(w.len() as int).len() == 0);
        assert(text::words(w.skip(w.len() as int)).len() == 0);
        assert(text::words(w) =~= seq![w]);
    }
}

proof fn lemma_word_len_whole(w: Seq<char>)
    requires
        forall|i: int| 0 <= i < w.len() ==> !text::is_space(#[trigger] w[i]),
    ensures
        text::word_len(w) == w.len(),
    decreases w.len(),
{
    if w.len() > 0 {
        let t = w.drop_first();
        assert(!text::is_space(w[0]));
        assert forall|i: int| 0 <= i < t.len() implies !text::is_space(#[trigger] t[i]) by {
            assert(t[i] == w[i + 1]);
        }
        lemma_word_len_whole(t);
    }
}

proof fn lemma_word_len_front(s: Seq<char>, c: char, rest: Seq<char>)
    requires
        text::is_space(c),
    ensures
        text::word_len(s.push(c) + rest) == text::word_len(s),
    decreases s.len(),
{
    let t = s.push(c) + rest;
    if s.len() == 0 {
        assert(t.first() == c);
    } else {
        assert(t.first() == s.first());
        assert(t.drop_first() =~= s.drop_first().push(c) + rest);
        lemma_word_len_front(s.drop_first(), c, rest);
    }
}

/// The words of two texts with white space between them are those of the first
/// and then those of the second.
pub proof fn law_words_of_parts(a: Seq<char>, c: char, b: Seq<char>)
    requires
        text::is_space(c),
    ensures
        text::words(a.push(c) + b) == text::words(a) + text::words(b),
    decreases a.len(),
{
    let s = a.push(c) + b;
    if a.len() == 0 {
        assert(s.first() == c);
        assert(s.drop_first() =~= b);
        assert(text::words(s) == text::words(s.drop_first()));
        assert(text::words(a) =~= Seq::empty());
        assert(text::words(a) + text::words(b) =~= text::words(b));
    } else if text::is_space(a.first()) {
        assert(s.first() == a.first());
        assert(s.drop_first() =~= a.drop_first().push(c) + b);
        assert(text::words(s) == text::words(s.drop_first()));
        assert(text::words(a) == text::words(a.drop_first()));
        law_words_of_parts(a.drop_first(), c, b);
    } else {
        let n = text::word_len(a);
        assert(s.first() == a.first());
        lemma_word_len_front(a, c, b);
        text::lemma_word_len(a);
        text::lemma_word_len(a.drop_first());
        assert(n >= 1);
        assert(s.take(n) =~= a.take(n));
        assert(s.skip(n) =~= a.skip(n).push(c) + b);
        law_words_of_parts(a.skip(n), c, b);
        assert(text::words(s) == seq![s.take(n)] + text::words(s.skip(n)));
        assert(text::words(a) == seq![a.take(n)] + text::words(a.skip(n)));
        assert(seq![a.take(n)] + (text::words(a.skip(n)) + text::words(b)) =~= (seq![a.take(n)]
            + text::words(a.skip(n))) + text::words(b));
    }
}

// ---------------------------------------------------------------------------
// Lines
// ---------------------------------------------------------------------------

/// A text without a line feed is one line, unless it is empty.
pub proof fn law_one_line(s: Seq<char>)
    requires
        !s.contains('\n'),
    ensures
        s.len() == 0 ==> text::lines(s).len() == 0,
        s.len() > 0 ==> text::lines(s) == seq![s],
        text::first_line_of(s) == s,
{
    text::lemma_position(s, '\n');
    if s.len() == 0 {
        assert(text::first_line_of(s) =~= s);
    }
}

/// A line feed ends a line, together with one carriage return before it, and
/// the lines behind it are those of the rest.
pub proof fn law_lines_of_parts(a: Seq<char>, b: Seq<char>)
    requires
        !a.contains('\n'),
    ensures
        ({
            let line = if a.len() > 0 && a[a.len() - 1] == '\r' {
                a.subrange(0, a.len() - 1)
            } else {
                a
            };
            &&& text::lines(a.push('\n') + b) == seq![line] + text::lines(b)
            &&& text::first_line_of(a.push('\n') + b) == line
        }),
{
    let s = a.push('\n') + b;
    law_position(a, '\n', b);
    assert(s.take(a.len() as int) =~= a);
    assert(s.skip(a.len() + 1int) =~= b);
    assert(a.len() > 0 ==> a.drop_last() =~= a.subrange(0, a.len() - 1));
}

// ---------------------------------------------------------------------------
// Case
// ---------------------------------------------------------------------------

/// Of the ASCII characters the letters, and they alone, change with the case,
/// and each becomes the letter at the same place of the other alphabet.
pub proof fn law_letters(c: char)
    ensures
        'a' <= c && c <= 'z' ==> text::ascii_upper(c) as int - 'A' as int == c as int - 'a' as int,
        !('a' <= c && c <= 'z') ==> text::ascii_upper(c) == c,
        'A' <= c && c <= 'Z' ==> text::ascii_lower(c) as int - 'a' as int == c as int - 'A' as int,
        !('A' <= c && c <= 'Z') ==> text::ascii_lower(c) == c,
{
}

/// An ASCII text changes its case letter by letter.
pub proof fn law_ascii_case(s: Seq<char>)
    requires
        vstd::utf8::is_ascii_chars(s),
    ensures
        text::upper(s).len() == s.len(),
        forall|i: int| 0 <= i < s.len() ==> #[trigger] text::upper(s)[i] == text::ascii_upper(s[i]),
        text::lower(s).len() == s.len(),
        forall|i: int| 0 <= i < s.len() ==> #[trigger] text::lower(s)[i] == text::ascii_lower(s[i]),
        text::ascii_uppercase(s) == text::upper(s),
        text::ascii_lowercase(s) == text::lower(s),
{
}

/// The upper case of a text is that of its parts, one behind the other, and a
/// single character outside ASCII has the upper case of the Unicode tables.
pub proof fn law_upper_of_parts(a: Seq<char>, b: Seq<char>, c: char)
    ensures
        text::upper(a + b) == text::upper(a) + text::upper(b),
        c > '\u{7f}' ==> text::upper(seq![c]) == text::unicode_upper(c),
    decreases b.len(),
{
    if b.len() == 0 {
        assert(a + b =~= a);
        assert(text::upper(b) =~= Seq::empty());
        assert(text::upper(a) + text::upper(b) =~= text::upper(a));
    } else {
        let front = b.drop_last();
        law_upper_of_parts(a, front, c);
        text::lemma_upper_push(a + front, b.last());
        text::lemma_upper_push(front, b.last());
        assert((a + front).push(b.last()) =~= a + b);
        assert(front.push(b.last()) =~= b);
        assert((text::upper(a) + text::upper(front)) + text::upper_char(b.last()) =~= text::upper(a)
            + (text::upper(front) + text::upper_char(b.last())));
    }
    if c > '\u{7f}' {
        let one = seq![c];
        let none = Seq::<char>::empty();
        assert(one[0] == c);
        assert(one.drop_last() =~= none);
        assert(text::upper(none) =~= none);
        assert(text::upper(one) =~= text::unicode_upper(c));
    }
}

/// A text outside ASCII has the lower case of the Unicode tables.
pub proof fn law_lower_outside_ascii(s: Seq<char>, i: int)
    requires
        0 <= i < s.len(),
        s[i] > '\u{7f}',
    ensures
        text::lower(s) == text::unicode_lower(s),
{
}

// ---------------------------------------------------------------------------
// Numbers
// ---------------------------------------------------------------------------

/// The number that decimal digits stand for.
pub open spec fn value_of(digits: Seq<char>) -> int
    decreases digits.len(),
{
    if digits.len() == 0 {
        0
    } else {
        10 * value_of(digits.drop_last()) + (digits.last() as int - '0' as int)
    }
}

/// The decimal digits of a number stand for it, and do not begin with a zero
/// unless it is the only one.
pub proof fn law_decimal(n: nat)
    ensures
        value_of(text::decimal(n)) == n,
        text::decimal(n).len() > 0,
        forall|i: int|
            0 <= i < text::decimal(n).len() ==> '0' <= #[trigger] text::decimal(n)[i]
                && text::decimal(n)[i] <= '9',
        n > 0 ==> text::decimal(n)[0] != '0',
    decreases n,
{
    let d = text::decimal(n);
    if n < 10 {
        assert(d.drop_last() =~= Seq::empty());
        assert(value_of(d.drop_last()) == 0);
    } else {
        law_decimal(n / 10);
        assert(d.drop_last() =~= text::decimal(n / 10));
        assert(d.last() == text::digit(n % 10));
    }
}

// ---------------------------------------------------------------------------
// Lists
// ---------------------------------------------------------------------------

/// A list of strings stands for the texts of its strings, one for one.
pub proof fn law_texts(slices: Seq<&str>, strings: Seq<String>)
    ensures
        text::texts(slices).len() == slices.len(),
        forall|i: int| 0 <= i < slices.len() ==> #[trigger] text::texts(slices)[i] == slices[i]@,
        text::strings(strings).len() == strings.len(),
        forall|i: int|
            0 <= i < strings.len() ==> #[trigger] text::strings(strings)[i] == strings[i]@,
{
}

} // verus!
