//! Single statements: keywords, names, signatures and the nodes of statements
//! inside a block.
use crate::node;
use crate::node::SemanticNode;
use crate::text;
use crate::text::CharClass;
use vstd::prelude::*;

verus! {

/// The keyword of a word: what stands before its first full stop, without
/// colons at the end.
pub open spec fn keyword_of(word: Seq<char>) -> Seq<char> {
    text::trim_end(word.take(text::position(word, '.')), CharClass::DotColon)
}

/// Returns the keyword of a word, without statement punctuation.
pub fn keyword(word: &str) -> (r: &str)
    ensures
        r@ == keyword_of(word@),
{
    let chars = text::chars_of(word);
    let dot = text::find_from(&chars, 0, '.');
    proof {
        assert(chars@.skip(0) == word@);
        assert(word@.take(dot as int) == word@.subrange(0, dot as int));
    }
    text::trim_end_matches(word.substring_char(0, dot), CharClass::DotColon)
}

/// The name at `pos` among the words of a statement: the word without full
/// stops and commas at its end, or `(anonymous)` where there is no such word.
pub open spec fn name_at(words: Seq<Seq<char>>, pos: nat) -> Seq<char> {
    text::trim_end(
        if pos < words.len() {
            words[pos as int]
        } else {
            "(anonymous)"@
        },
        CharClass::DotComma,
    )
}

/// Returns the name at `pos` among the words of a statement, without trailing
/// full stops and commas.
pub fn extract_name(words: &[&str], pos: usize) -> (r: String)
    ensures
        r@ == name_at(text::texts(words@), pos as nat),
{
    let word: &str = if pos < words.len() {
        words[pos]
    } else {
        "(anonymous)"
    };
    text::trim_end_matches(word, CharClass::DotComma).to_string()
}

/// The signature that a list of words spells: each word without full stops and
/// commas at its end, those that are left separated by single spaces.
pub open spec fn signature_label(words: Seq<Seq<char>>) -> Seq<char>
    decreases words.len(),
{
    if words.len() == 0 {
        Seq::empty()
    } else {
        let before = signature_label(words.drop_last());
        let word = text::trim_end(words.last(), CharClass::DotComma);
        if word.len() == 0 {
            before
        } else if before.len() == 0 {
            word
        } else {
            before.push(' ') + word
        }
    }
}

/// The words of a statement from `from` on.
pub open spec fn words_from(words: Seq<Seq<char>>, from: nat) -> Seq<Seq<char>> {
    if from <= words.len() {
        words.skip(from as int)
    } else {
        Seq::empty()
    }
}

/// The children that a block starts with: one node for its signature, if it
/// has any.
pub open spec fn signature_trees(
    parent_id: Seq<char>,
    words: Seq<Seq<char>>,
    from: nat,
    line: u32,
    end_col: u32,
) -> Seq<node::SemanticTree> {
    let signature = signature_label(words_from(words, from));
    if signature.len() == 0 {
        Seq::empty()
    } else {
        seq![
            node::tree(
                node::child_id(parent_id, 0),
                "signature"@,
                signature,
                node::span(line, line, end_col),
                Seq::empty(),
            ),
        ]
    }
}

/// Builds the signature node of a block from the words of its first line.
pub fn signature_children(
    parent_id: &str,
    words: &[&str],
    from: usize,
    line: u32,
    end_col: u32,
) -> (r: Vec<SemanticNode>)
    ensures
        node::models(r@) == signature_trees(
            parent_id@,
            text::texts(words@),
            from as nat,
            line,
            end_col,
        ),
{
    let ghost all = text::texts(words@);
    let ghost rest = words_from(all, from as nat);
    let mut signature = String::new();
    let mut i: usize = from;
    proof {
        assert(rest.take(0) == Seq::<Seq<char>>::empty());
    }
    while i < words.len()
        invariant
            from <= i,
            from <= words@.len() ==> i <= words@.len(),
            from > words@.len() ==> i == from,
            all == text::texts(words@),
            rest == words_from(all, from as nat),
            signature@ == signature_label(rest.take(i - from)),
        decreases words@.len() - i,
    {
        let word = text::trim_end_matches(words[i], CharClass::DotComma);
        proof {
            let next = rest.take(i - from + 1);
            assert(next.drop_last() == rest.take(i - from));
            assert(next.last() == words@[i as int]@);
        }
        if !word.is_empty() {
            if !signature.as_str().is_empty() {
                signature.push(' ');
            }
            signature.append(word);
        }
        i += 1;
    }
    let mut children: Vec<SemanticNode> = Vec::new();
    proof {
        assert(rest.take(i - from) == rest);
    }
    if !signature.as_str().is_empty() {
        let id = node::make_child_id(parent_id, 0);
        children.push(
            node::leaf_span(id.as_str(), "signature", signature.as_str(), line, end_col),
        );
    }
    proof {
        assert(node::models(children@) =~= signature_trees(
            parent_id@,
            all,
            from as nat,
            line,
            end_col,
        ));
    }
    children
}

/// The text between the first opening parenthesis and the first closing one
/// behind it, trimmed, unless there is none or it is empty.
pub open spec fn parenthesised(s: Seq<char>) -> Option<Seq<char>> {
    let open = text::position(s, '(');
    if open >= s.len() {
        None
    } else {
        let rest = s.skip(open + 1);
        let close = text::position(rest, ')');
        let name = text::trim(rest.take(close));
        if close >= rest.len() || name.len() == 0 {
            None
        } else {
            Some(name)
        }
    }
}

/// Returns the name that an inline declaration puts in parentheses.
pub fn inline_name(trimmed: &str) -> (r: Option<&str>)
    ensures
        match r {
            Some(name) => parenthesised(trimmed@) == Some(name@),
            None => parenthesised(trimmed@) is None,
        },
{
    let chars = text::chars_of(trimmed);
    let n: usize = chars.len();
    let open = text::find_from(&chars, 0, '(');
    proof {
        assert(chars@.skip(0) == trimmed@);
    }
    if open == n {
        return None;
    }
    let len = text::find_from(&chars, open + 1, ')');
    let close: usize = open + 1 + len;
    if close == n {
        return None;
    }
    proof {
        assert(trimmed@.skip(open + 1).take(len as int) == trimmed@.subrange(
            open + 1,
            close as int,
        ));
    }
    let name = text::trimmed(trimmed.substring_char(open + 1, close));
    if name.is_empty() {
        None
    } else {
        Some(name)
    }
}

/// The label of an inline declaration: the name in parentheses, in upper case.
pub open spec fn data_label_of(s: Seq<char>) -> Option<Seq<char>> {
    match parenthesised(s) {
        Some(name) => Some(text::upper(name)),
        None => None,
    }
}

/// Returns the label of an inline declaration, if the statement is one. It is
/// never empty.
pub fn data_label(trimmed: &str) -> (r: Option<String>)
    ensures
        match r {
            Some(label) => data_label_of(trimmed@) == Some(label@) && label@.len() > 0,
            None => data_label_of(trimmed@) is None,
        },
{
    match inline_name(trimmed) {
        Some(name) => Some(text::uppercase(name)),
        None => None,
    }
}

/// A statement without the full stops at its end and the white space around it.
pub open spec fn bare(s: Seq<char>) -> Seq<char> {
    text::trim(text::trim_end(s, CharClass::Dot))
}

/// What a write statement writes: the statement without its leading letters,
/// the colons behind them, the full stop and the white space.
pub open spec fn write_label_of(s: Seq<char>) -> Seq<char> {
    text::trim(text::trim_start(text::trim_start(bare(s), CharClass::Letter), CharClass::Colon))
}

/// Returns what a write statement writes.
pub fn write_label(trimmed: &str) -> (r: String)
    ensures
        r@ == write_label_of(trimmed@),
{
    let bare = text::trimmed(text::trim_end_matches(trimmed, CharClass::Dot));
    let operands = text::trim_start_matches(bare, CharClass::Letter);
    text::trimmed(text::trim_start_matches(operands, CharClass::Colon)).to_string()
}

/// The keyword that a statement in upper case begins with.
pub open spec fn first_keyword(upper: Seq<char>) -> Seq<char> {
    let words = text::words(bare(upper));
    if words.len() > 0 {
        keyword_of(words[0])
    } else {
        keyword_of(""@)
    }
}

/// The type and the label of the node for a statement inside a block, given
/// the statement and the same in upper case.
pub open spec fn statement_parts(trimmed: Seq<char>, upper: Seq<char>) -> (Seq<char>, Seq<char>) {
    let kw = first_keyword(upper);
    if text::has_prefix(kw, "DATA"@) {
        (
            "data_declaration"@,
            match data_label_of(trimmed) {
                Some(label) => label,
                None => bare(upper),
            },
        )
    } else if kw == "WRITE"@ {
        ("write_statement"@, write_label_of(trimmed))
    } else if kw == "METHODS"@ {
        ("method_signature"@, name_at(text::words(bare(upper)), 1))
    } else if bare(trimmed).contains('=') {
        ("assignment_statement"@, bare(trimmed))
    } else {
        ("statement"@, bare(trimmed))
    }
}

/// The node for a statement inside a block.
pub open spec fn statement_tree(
    id: Seq<char>,
    trimmed: Seq<char>,
    upper: Seq<char>,
    line: u32,
    end_col: u32,
) -> node::SemanticTree {
    let (node_type, label) = statement_parts(trimmed, upper);
    node::tree(id, node_type, label, node::span(line, line, end_col), Seq::empty())
}

/// Builds the node for a statement inside a block, given the statement and the
/// same in upper case.
pub fn statement_node(id: &str, trimmed: &str, upper: &str, line: u32, end_col: u32) -> (r:
    SemanticNode)
    ensures
        r.model() == statement_tree(id@, trimmed@, upper@, line, end_col),
{
    let stripped = text::trimmed(text::trim_end_matches(trimmed, CharClass::Dot));
    let upper_stripped = text::trimmed(text::trim_end_matches(upper, CharClass::Dot));
    let words = text::split_words(upper_stripped);
    let ghost all = text::texts(words@);
    let first_word: &str = if words.len() > 0 {
        words[0]
    } else {
        ""
    };
    let first_kw = keyword(first_word);
    proof {
        assert(words@.len() > 0 ==> all[0] == words@[0]@);
        assert(first_kw@ == first_keyword(upper@));
    }
    let node_type: &'static str;
    let label: String;
    if text::starts_with(first_kw, "DATA") {
        node_type = "data_declaration";
        label = match data_label(trimmed) {
            Some(name) => name,
            None => upper_stripped.to_string(),
        };
    } else if text::same_text(first_kw, "WRITE") {
        node_type = "write_statement";
        label = write_label(trimmed);
    } else if text::same_text(first_kw, "METHODS") {
        node_type = "method_signature";
        label = extract_name(words.as_slice(), 1);
    } else if text::contains_char(stripped, '=') {
        node_type = "assignment_statement";
        label = stripped.to_string();
    } else {
        node_type = "statement";
        label = stripped.to_string();
    }
    node::leaf_span(id, node_type, label.as_str(), line, end_col)
}

} // verus!
