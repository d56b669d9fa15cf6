//! Text as sequences of characters: trimming, words, lines, prefixes and
//! decimal numbers.
//!
//! Every function here states its result over the character sequence that a
//! string stands for, so that the rules of the parser can be written without
//! byte offsets.
use vstd::prelude::*;

verus! {

// ---------------------------------------------------------------------------
// Characters
// ---------------------------------------------------------------------------

/// The characters of the Unicode property `White_Space`.
pub open spec fn is_space(c: char) -> bool {
    let n = c as u32;
    ||| 0x9 <= n <= 0xd
    ||| n == 0x20
    ||| n == 0x85
    ||| n == 0xa0
    ||| n == 0x1680
    ||| 0x2000 <= n <= 0x200a
    ||| n == 0x2028
    ||| n == 0x2029
    ||| n == 0x202f
    ||| n == 0x205f
    ||| n == 0x3000
}

/// `char::is_whitespace` of the standard library: it tells the characters that
/// have the Unicode property `White_Space`, which are those of `is_space`.
pub assume_specification[ char::is_whitespace ](c: char) -> (r: bool)
    ensures
        r == is_space(c),
;

/// The sets of characters that the parser strips from the ends of a text.
#[derive(Clone, Copy)]
pub enum CharClass {
    /// White space.
    Space,
    /// The full stop that ends a statement.
    Dot,
    /// Full stop and comma.
    DotComma,
    /// Full stop and colon.
    DotColon,
    /// The colon of a chained statement.
    Colon,
    /// The ASCII letters.
    Letter,
}

impl CharClass {
    /// Whether the class holds the character `c`.
    pub open spec fn has(self, c: char) -> bool {
        match self {
            CharClass::Space => is_space(c),
            CharClass::Dot => c == '.',
            CharClass::DotComma => c == '.' || c == ',',
            CharClass::DotColon => c == '.' || c == ':',
            CharClass::Colon => c == ':',
            CharClass::Letter => ('a' <= c && c <= 'z') || ('A' <= c && c <= 'Z'),
        }
    }

    /// Tells whether the class holds the character `c`.
    pub fn contains(self, c: char) -> (r: bool)
        ensures
            r == self.has(c),
    {
        match self {
            CharClass::Space => c.is_whitespace(),
            CharClass::Dot => c == '.',
            CharClass::DotComma => c == '.' || c == ',',
            CharClass::DotColon => c == '.' || c == ':',
            CharClass::Colon => c == ':',
            CharClass::Letter => ('a' <= c && c <= 'z') || ('A' <= c && c <= 'Z'),
        }
    }
}

// ---------------------------------------------------------------------------
// Strings and characters
// ---------------------------------------------------------------------------

/// The character sequences of a list of string slices.
pub open spec fn texts(v: Seq<&str>) -> Seq<Seq<char>> {
    v.map_values(|s: &str| s@)
}

/// The character sequences of a list of strings.
pub open spec fn strings(v: Seq<String>) -> Seq<Seq<char>> {
    v.map_values(|s: String| s@)
}

/// `String::push` of the standard library: it appends the character.
pub assume_specification[ String::push ](s: &mut String, c: char)
    ensures
        final(s)@ == old(s)@.push(c),
;

/// The characters of `s`, in order.
pub fn chars_of(s: &str) -> (r: Vec<char>)
    ensures
        r@ == s@,
{
    let mut out: Vec<char> = Vec::new();
    for c in it: s.chars()
        invariant
            out@ == it.seq().take(it.index()),
            it.seq() == s@,
    {
        out.push(c);
    }
    out
}

/// The string that holds the characters from `start` up to `end`.
pub fn string_between(chars: &Vec<char>, start: usize, end: usize) -> (r: String)
    requires
        start <= end <= chars@.len(),
    ensures
        r@ == chars@.subrange(start as int, end as int),
{
    let mut out = String::new();
    let mut i: usize = start;
    while i < end
        invariant
            start <= i <= end <= chars@.len(),
            out@ == chars@.subrange(start as int, i as int),
        decreases end - i,
    {
        out.push(chars[i]);
        i += 1;
    }
    out
}

/// Tells whether two texts hold the same characters.
pub fn same_text(a: &str, b: &str) -> (r: bool)
    ensures
        r == (a@ == b@),
{
    let left: &[u8] = a.as_bytes();
    let right: &[u8] = b.as_bytes();
    proof {
        vstd::utf8::encode_utf8_decode_utf8(a@);
        vstd::utf8::encode_utf8_decode_utf8(b@);
    }
    if left.len() != right.len() {
        return false;
    }
    let mut i: usize = 0;
    while i < left.len()
        invariant
            i <= left@.len() == right@.len(),
            left@ == vstd::utf8::encode_utf8(a@),
            right@ == vstd::utf8::encode_utf8(b@),
            forall|k: int| 0 <= k < i ==> left@[k] == right@[k],
        decreases left@.len() - i,
    {
        if left[i] != right[i] {
            return false;
        }
        i += 1;
    }
    proof {
        assert(left@ =~= right@);
    }
    true
}

// ---------------------------------------------------------------------------
// Trimming
// ---------------------------------------------------------------------------

/// `s` without the characters of `class` at its end.
pub open spec fn trim_end(s: Seq<char>, class: CharClass) -> Seq<char>
    decreases s.len(),
{
    if s.len() > 0 && class.has(s.last()) {
        trim_end(s.drop_last(), class)
    } else {
        s
    }
}

/// `s` without the characters of `class` at its start.
pub open spec fn trim_start(s: Seq<char>, class: CharClass) -> Seq<char>
    decreases s.len(),
{
    if s.len() > 0 && class.has(s.first()) {
        trim_start(s.drop_first(), class)
    } else {
        s
    }
}

/// `s` without white space at its ends.
pub open spec fn trim(s: Seq<char>) -> Seq<char> {
    trim_end(trim_start(s, CharClass::Space), CharClass::Space)
}

/// Removes the characters of `class` from the end.
pub fn trim_end_matches<'a>(s: &'a str, class: CharClass) -> (r: &'a str)
    ensures
        r@ == trim_end(s@, class),
{
    let chars = chars_of(s);
    let mut end: usize = chars.len();
    proof {
        assert(chars@.take(end as int) == chars@);
    }
    while end > 0 && class.contains(chars[end - 1])
        invariant
            end <= chars@.len(),
            chars@ == s@,
            trim_end(chars@.take(end as int), class) == trim_end(s@, class),
        decreases end,
    {
        proof {
            assert(chars@.take(end as int).drop_last() == chars@.take(end - 1));
        }
        end -= 1;
    }
    proof {
        assert(chars@.take(end as int) == s@.subrange(0, end as int));
    }
    s.substring_char(0, end)
}

/// Removes the characters of `class` from the start.
pub fn trim_start_matches<'a>(s: &'a str, class: CharClass) -> (r: &'a str)
    ensures
        r@ == trim_start(s@, class),
{
    let chars = chars_of(s);
    let mut start: usize = 0;
    proof {
        assert(chars@.skip(0) == chars@);
    }
    while start < chars.len() && class.contains(chars[start])
        invariant
            start <= chars@.len(),
            chars@ == s@,
            trim_start(chars@.skip(start as int), class) == trim_start(s@, class),
        decreases chars@.len() - start,
    {
        proof {
            assert(chars@.skip(start as int).drop_first() == chars@.skip(start + 1));
        }
        start += 1;
    }
    proof {
        assert(chars@.skip(start as int) == s@.subrange(start as int, s@.len() as int));
    }
    s.substring_char(start, chars.len())
}

/// Removes white space from both ends.
pub fn trimmed<'a>(s: &'a str) -> (r: &'a str)
    ensures
        r@ == trim(s@),
{
    trim_end_matches(trim_start_matches(s, CharClass::Space), CharClass::Space)
}

// ---------------------------------------------------------------------------
// Searching
// ---------------------------------------------------------------------------

/// The number of characters before the first `c` in `s`, which is the length
/// of `s` where `c` does not occur.
pub open spec fn position(s: Seq<char>, c: char) -> int
    decreases s.len(),
{
    if s.len() == 0 || s.first() == c {
        0
    } else {
        1 + position(s.drop_first(), c)
    }
}

/// `position` lies within the text, the text up to it does not hold `c`, and
/// `c` stands there unless it is the end.
pub proof fn lemma_position(s: Seq<char>, c: char)
    ensures
        0 <= position(s, c) <= s.len(),
        forall|i: int| 0 <= i < position(s, c) ==> s[i] != c,
        position(s, c) < s.len() ==> s[position(s, c)] == c,
        s.contains(c) <==> position(s, c) < s.len(),
    decreases s.len(),
{
    if s.len() > 0 && s.first() != c {
        let t = s.drop_first();
        lemma_position(t, c);
        assert forall|i: int| 0 <= i < position(s, c) implies s[i] != c by {
            if i > 0 {
                assert(s[i] == t[i - 1]);
            }
        }
    }
}

/// The number of characters from `from` to the first `c` behind it.
pub fn find_from(chars: &Vec<char>, from: usize, c: char) -> (r: usize)
    requires
        from <= chars@.len(),
    ensures
        r == position(chars@.skip(from as int), c),
        from + r <= chars@.len(),
{
    let mut i: usize = from;
    while i < chars.len() && chars[i] != c
        invariant
            from <= i <= chars@.len(),
            position(chars@.skip(from as int), c) == (i - from) + position(
                chars@.skip(i as int),
                c,
            ),
        decreases chars@.len() - i,
    {
        proof {
            assert(chars@.skip(i as int).drop_first() == chars@.skip(i + 1));
        }
        i += 1;
    }
    i - from
}

/// Tells whether `c` occurs in `s`.
pub fn contains_char(s: &str, c: char) -> (r: bool)
    ensures
        r == s@.contains(c),
{
    let chars = chars_of(s);
    let at = find_from(&chars, 0, c);
    proof {
        assert(chars@.skip(0) == s@);
        lemma_position(s@, c);
    }
    at < chars.len()
}

/// Whether `s` begins with `prefix`.
pub open spec fn has_prefix(s: Seq<char>, prefix: Seq<char>) -> bool {
    prefix.len() <= s.len() && s.take(prefix.len() as int) == prefix
}

/// Whether `s` ends with `suffix`.
pub open spec fn has_suffix(s: Seq<char>, suffix: Seq<char>) -> bool {
    suffix.len() <= s.len() && s.skip(s.len() - suffix.len()) == suffix
}

/// Tells whether `s` begins with `prefix`.
pub fn starts_with(s: &str, prefix: &str) -> (r: bool)
    ensures
        r == has_prefix(s@, prefix@),
{
    let n = s.unicode_len();
    let m = prefix.unicode_len();
    proof {
        assert(s@.take(m as int) == s@.subrange(0, m as int));
    }
    m <= n && same_text(s.substring_char(0, m), prefix)
}

/// Returns what stands behind `prefix` in `s`, where `s` begins with it.
pub fn strip_prefix<'a>(s: &'a str, prefix: &str) -> (r: Option<&'a str>)
    ensures
        match r {
            Some(rest) => has_prefix(s@, prefix@) && rest@ == s@.skip(prefix@.len() as int),
            None => !has_prefix(s@, prefix@),
        },
{
    if starts_with(s, prefix) {
        let m = prefix.unicode_len();
        let n = s.unicode_len();
        proof {
            assert(s@.skip(m as int) == s@.subrange(m as int, n as int));
        }
        Some(s.substring_char(m, n))
    } else {
        None
    }
}

/// Tells whether `s` ends with `suffix`.
pub fn ends_with(s: &str, suffix: &str) -> (r: bool)
    ensures
        r == has_suffix(s@, suffix@),
{
    let n = s.unicode_len();
    let m = suffix.unicode_len();
    proof {
        if m <= n {
            assert(s@.skip(n - m) == s@.subrange(n - m, n as int));
        }
    }
    m <= n && same_text(s.substring_char(n - m, n), suffix)
}

// ---------------------------------------------------------------------------
// Words
// ---------------------------------------------------------------------------

/// The number of characters before the first white space in `s`.
pub open spec fn word_len(s: Seq<char>) -> int
    decreases s.len(),
{
    if s.len() == 0 || is_space(s.first()) {
        0
    } else {
        1 + word_len(s.drop_first())
    }
}

/// Trimming the start does not lengthen a text and leaves no character of the
/// class there.
pub proof fn lemma_trim_start_len(s: Seq<char>, class: CharClass)
    ensures
        trim_start(s, class).len() <= s.len(),
        trim_start(s, class).len() > 0 ==> !class.has(trim_start(s, class).first()),
    decreases s.len(),
{
    if s.len() > 0 && class.has(s.first()) {
        lemma_trim_start_len(s.drop_first(), class);
    }
}

/// The first word lies within the text.
pub proof fn lemma_word_len(s: Seq<char>)
    ensures
        0 <= word_len(s) <= s.len(),
    decreases s.len(),
{
    if s.len() > 0 && !is_space(s.first()) {
        lemma_word_len(s.drop_first());
    }
}

/// The words of `s`: its longest runs of characters without white space, in
/// order.
pub open spec fn words(s: Seq<char>) -> Seq<Seq<char>>
    decreases s.len(),
{
    let t = trim_start(s, CharClass::Space);
    if t.len() == 0 {
        Seq::empty()
    } else {
        proof {
            lemma_trim_start_len(s, CharClass::Space);
            lemma_word_len(t);
            assert(word_len(t) >= 1) by {
                lemma_word_len(t.drop_first());
            }
        }
        seq![t.take(word_len(t))] + words(t.skip(word_len(t)))
    }
}

/// Splits `s` at white space.
pub fn split_words<'a>(s: &'a str) -> (r: Vec<&'a str>)
    ensures
        texts(r@) == words(s@),
{
    let chars = chars_of(s);
    let n: usize = chars.len();
    let mut out: Vec<&'a str> = Vec::new();
    let mut i: usize = 0;
    proof {
        assert(s@.skip(0) == s@);
        assert(texts(out@) + words(s@) == words(s@));
    }
    while i < n
        invariant
            i <= n == chars@.len(),
            chars@ == s@,
            texts(out@) + words(s@.skip(i as int)) == words(s@),
        decreases n - i,
    {
        let ghost rest = s@.skip(i as int);
        if chars[i].is_whitespace() {
            proof {
                assert(rest.first() == s@[i as int]);
                assert(rest.drop_first() == s@.skip(i + 1));
                assert(words(rest) == words(rest.drop_first()));
            }
            i += 1;
        } else {
            let start: usize = i;
            while i < n && !chars[i].is_whitespace()
                invariant
                    start <= i <= n == chars@.len(),
                    chars@ == s@,
                    word_len(s@.skip(start as int)) == (i - start) + word_len(s@.skip(i as int)),
                decreases n - i,
            {
                proof {
                    assert(s@.skip(i as int).drop_first() == s@.skip(i + 1));
                }
                i += 1;
            }
            let ghost before = out@;
            let word = s.substring_char(start, i);
            out.push(word);
            proof {
                assert(i == n ==> s@.skip(i as int).len() == 0);
                assert(i < n ==> s@.skip(i as int).first() == s@[i as int]);
                assert(word_len(s@.skip(i as int)) == 0);
                assert(rest.first() == s@[start as int]);
                assert(trim_start(rest, CharClass::Space) == rest);
                assert(word_len(rest) == i - start);
                assert(rest.take(i - start) == word@);
                assert(rest.skip(i - start) == s@.skip(i as int));
                assert(words(rest) == seq![word@] + words(s@.skip(i as int)));
                assert(texts(out@) == texts(before).push(word@));
                assert(texts(out@) + words(s@.skip(i as int)) == texts(before) + words(rest));
            }
        }
    }
    proof {
        assert(s@.skip(n as int).len() == 0);
        assert(words(s@.skip(n as int)) == Seq::<Seq<char>>::empty());
        assert(texts(out@) + words(s@.skip(n as int)) == texts(out@));
    }
    out
}

// ---------------------------------------------------------------------------
// Lines
// ---------------------------------------------------------------------------

/// A line without the carriage return that stood before its line feed.
pub open spec fn strip_cr(s: Seq<char>) -> Seq<char> {
    if s.len() > 0 && s.last() == '\r' {
        s.drop_last()
    } else {
        s
    }
}

/// The lines of `s`. A line ends with a line feed or with a carriage return
/// and a line feed, neither of which belongs to it; the end of the last line
/// may be missing.
pub open spec fn lines(s: Seq<char>) -> Seq<Seq<char>>
    decreases s.len(),
{
    let n = position(s, '\n');
    if s.len() == 0 {
        Seq::empty()
    } else if n == s.len() {
        seq![s]
    } else {
        proof {
            lemma_position(s, '\n');
        }
        seq![strip_cr(s.take(n))] + lines(s.skip(n + 1))
    }
}

/// Splits `s` into its lines.
pub fn split_lines(s: &str) -> (r: Vec<String>)
    ensures
        strings(r@) == lines(s@),
{
    let chars = chars_of(s);
    let n: usize = chars.len();
    let mut out: Vec<String> = Vec::new();
    let mut start: usize = 0;
    proof {
        assert(s@.skip(0) == s@);
        assert(strings(out@) + lines(s@) == lines(s@));
    }
    while start < n
        invariant
            start <= n == chars@.len(),
            chars@ == s@,
            strings(out@) + lines(s@.skip(start as int)) == lines(s@),
        decreases n - start,
    {
        let ghost rest = s@.skip(start as int);
        let ghost before = out@;
        let len: usize = find_from(&chars, start, '\n');
        let end: usize = start + len;
        if end == n {
            let line = string_between(&chars, start, n);
            out.push(line);
            start = n;
            proof {
                assert(line@ == rest);
                assert(lines(rest) == seq![rest]);
                assert(strings(out@) == strings(before).push(line@));
                assert(lines(s@.skip(n as int)) == Seq::<Seq<char>>::empty());
                assert(strings(out@) + lines(s@.skip(n as int)) == strings(before) + lines(rest));
            }
        } else {
            let stop: usize = if end > start && chars[end - 1] == '\r' {
                end - 1
            } else {
                end
            };
            let line = string_between(&chars, start, stop);
            out.push(line);
            start = end + 1;
            proof {
                let head = rest.take(len as int);
                assert(len > 0 ==> head.last() == s@[end - 1]);
                assert(line@ == strip_cr(head));
                assert(rest.skip(len + 1) == s@.skip(start as int));
                assert(lines(rest) == seq![line@] + lines(s@.skip(start as int)));
                assert(strings(out@) == strings(before).push(line@));
                assert(strings(out@) + lines(s@.skip(start as int)) == strings(before) + lines(
                    rest,
                ));
            }
        }
    }
    proof {
        assert(lines(s@.skip(n as int)) == Seq::<Seq<char>>::empty());
        assert(strings(out@) + lines(s@.skip(n as int)) == strings(out@));
    }
    out
}

/// The first line of `s`, which is empty where `s` is.
pub open spec fn first_line_of(s: Seq<char>) -> Seq<char> {
    if lines(s).len() > 0 {
        lines(s)[0]
    } else {
        Seq::empty()
    }
}

/// Returns the first line of `s`.
pub fn first_line<'a>(s: &'a str) -> (r: &'a str)
    ensures
        r@ == first_line_of(s@),
{
    let chars = chars_of(s);
    let n: usize = find_from(&chars, 0, '\n');
    proof {
        assert(chars@.skip(0) == s@);
        lemma_position(s@, '\n');
        assert(n > 0 ==> s@.take(n as int).last() == s@[n - 1]);
    }
    let end: usize = if n < chars.len() && n > 0 && chars[n - 1] == '\r' {
        n - 1
    } else {
        n
    };
    proof {
        assert(s@.subrange(0, end as int) =~= first_line_of(s@));
    }
    s.substring_char(0, end)
}

// ---------------------------------------------------------------------------
// Case
// ---------------------------------------------------------------------------

/// A character in upper case, where it is an ASCII letter.
pub open spec fn ascii_upper(c: char) -> char {
    if 'a' <= c && c <= 'z' {
        (c as u32 - 32) as char
    } else {
        c
    }
}

/// A character in lower case, where it is an ASCII letter.
pub open spec fn ascii_lower(c: char) -> char {
    if 'A' <= c && c <= 'Z' {
        (c as u32 + 32) as char
    } else {
        c
    }
}

/// A text with each ASCII letter in upper case.
pub open spec fn ascii_uppercase(s: Seq<char>) -> Seq<char> {
    s.map_values(|c: char| ascii_upper(c))
}

/// A text with each ASCII letter in lower case.
pub open spec fn ascii_lowercase(s: Seq<char>) -> Seq<char> {
    s.map_values(|c: char| ascii_lower(c))
}

/// What `char::to_uppercase` yields for a character that is not ASCII.
pub uninterp spec fn unicode_upper(c: char) -> Seq<char>;

/// What `str::to_lowercase` returns for a text that is not all ASCII.
pub uninterp spec fn unicode_lower(s: Seq<char>) -> Seq<char>;

/// A character in upper case, which may take more than one character.
pub open spec fn upper_char(c: char) -> Seq<char> {
    if c <= '\u{7f}' {
        seq![ascii_upper(c)]
    } else {
        unicode_upper(c)
    }
}

/// A text in upper case: each of its characters is.
pub open spec fn upper(s: Seq<char>) -> Seq<char>
    decreases s.len(),
{
    if vstd::utf8::is_ascii_chars(s) {
        ascii_uppercase(s)
    } else {
        upper(s.drop_last()) + upper_char(s.last())
    }
}

/// A text in lower case.
pub open spec fn lower(s: Seq<char>) -> Seq<char> {
    if vstd::utf8::is_ascii_chars(s) {
        ascii_lowercase(s)
    } else {
        unicode_lower(s)
    }
}

/// `char::to_uppercase` of the standard library: the character in upper case,
/// which is one character or more. A small ASCII letter becomes its capital, any
/// other ASCII character stays, and the rest follows the Unicode tables.
#[verifier::external_body]
fn uppercase_char(c: char) -> (r: Vec<char>)
    ensures
        c <= '\u{7f}' ==> r@ == seq![ascii_upper(c)],
        c > '\u{7f}' ==> r@ == unicode_upper(c),
        r@.len() > 0,
{
    c.to_uppercase().collect()
}

/// A text in upper case, one character longer.
pub proof fn lemma_upper_push(s: Seq<char>, c: char)
    ensures
        upper(s.push(c)) == upper(s) + upper_char(c),
{
    let t = s.push(c);
    assert(t.drop_last() =~= s);
    assert(t.last() == c);
    if vstd::utf8::is_ascii_chars(t) {
        assert(forall|i: int| 0 <= i < s.len() ==> t[i] == s[i]);
        assert(vstd::utf8::is_ascii_chars(s));
        assert(t[s.len() as int] == c);
        assert(ascii_uppercase(t) =~= ascii_uppercase(s) + upper_char(c));
    }
}

/// Returns a text in upper case. Only an empty text has an empty result.
pub fn uppercase(s: &str) -> (r: String)
    ensures
        r@ == upper(s@),
        r@.len() == 0 <==> s@.len() == 0,
{
    let chars = chars_of(s);
    let mut out = String::new();
    let mut i: usize = 0;
    proof {
        assert(chars@.take(0) =~= Seq::<char>::empty());
        assert(upper(chars@.take(0)) =~= Seq::<char>::empty());
    }
    while i < chars.len()
        invariant
            i <= chars@.len(),
            out@ == upper(chars@.take(i as int)),
            out@.len() >= i,
        decreases chars@.len() - i,
    {
        let mapped = uppercase_char(chars[i]);
        let ghost before = out@;
        let mut k: usize = 0;
        while k < mapped.len()
            invariant
                k <= mapped@.len(),
                out@ == before + mapped@.take(k as int),
            decreases mapped@.len() - k,
        {
            out.push(mapped[k]);
            proof {
                assert(mapped@.take(k + 1) =~= mapped@.take(k as int).push(mapped@[k as int]));
            }
            k += 1;
        }
        proof {
            assert(mapped@.take(k as int) =~= mapped@);
            assert(chars@.take(i + 1) =~= chars@.take(i as int).push(chars@[i as int]));
            lemma_upper_push(chars@.take(i as int), chars@[i as int]);
        }
        i += 1;
    }
    proof {
        assert(chars@.take(i as int) =~= s@);
        if s@.len() == 0 {
            assert(upper(s@).len() == 0);
        }
    }
    out
}

/// `str::to_lowercase` of the standard library: the text in lower case. Where
/// it is all ASCII, each capital becomes its small letter and nothing else
/// changes; else the result follows the Unicode tables.
pub assume_specification[ str::to_lowercase ](s: &str) -> (r: String)
    ensures
        vstd::utf8::is_ascii_chars(s@) ==> r@ == ascii_lowercase(s@),
        !vstd::utf8::is_ascii_chars(s@) ==> r@ == unicode_lower(s@),
;

// ---------------------------------------------------------------------------
// Numbers
// ---------------------------------------------------------------------------

/// The digit for a number below ten.
pub open spec fn digit(d: nat) -> char {
    (48 + d) as char
}

/// The decimal digits of `n`.
pub open spec fn decimal(n: nat) -> Seq<char>
    decreases n,
{
    if n < 10 {
        seq![digit(n)]
    } else {
        decimal(n / 10).push(digit(n % 10))
    }
}

/// Appends the decimal digits of `n`.
pub fn push_decimal(out: &mut String, n: usize)
    ensures
        final(out)@ == old(out)@ + decimal(n as nat),
    decreases n,
{
    if n >= 10 {
        push_decimal(out, n / 10);
    }
    out.push((48u8 + (n % 10) as u8) as char);
    proof {
        assert(out@ == old(out)@ + decimal(n as nat));
    }
}

} // verus!
