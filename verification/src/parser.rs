//! The parser: the grammar where it supports the source, the line scanner
//! everywhere else.
use crate::convert;
use crate::node::{SemanticNode, SemanticTree};
use crate::scanner;
use crate::syntax;
use crate::text;
use crate::text::CharClass;
use vstd::prelude::*;

verus! {

// ---------------------------------------------------------------------------
// Language detection
// ---------------------------------------------------------------------------

/// The language of a file by its name: `abap`, where the name in lower case
/// ends with `.abap`, and else none.
pub open spec fn language_of(filename: Seq<char>) -> Seq<char> {
    if text::has_suffix(text::lower(filename), ".abap"@) {
        "abap"@
    } else {
        Seq::empty()
    }
}

/// Detects the language of a file by its name. The contents do not matter.
pub fn detect_language_impl(filename: &str, _content: &str) -> (r: String)
    ensures
        r@ == language_of(filename@),
{
    let lower = filename.to_lowercase();
    if text::ends_with(lower.as_str(), ".abap") {
        "abap".to_string()
    } else {
        String::new()
    }
}

// ---------------------------------------------------------------------------
// Unsupported blocks
// ---------------------------------------------------------------------------

/// Whether a line in upper case, without white space before it, begins or ends
/// a block that the grammar does not support.
pub open spec fn marks_unsupported(upper: Seq<char>) -> bool {
    ||| text::has_prefix(upper, "FORM "@)
    ||| text::has_prefix(upper, "ENDFORM"@)
    ||| text::has_prefix(upper, "MODULE "@)
    ||| text::has_prefix(upper, "ENDMODULE"@)
}

/// Tells whether a line in upper case, without white space before it, begins or
/// ends a block that the grammar does not support.
pub fn is_unsupported_line(upper: &str) -> (r: bool)
    ensures
        r == marks_unsupported(upper@),
{
    text::starts_with(upper, "FORM ") || text::starts_with(upper, "ENDFORM") || text::starts_with(
        upper,
        "MODULE ",
    ) || text::starts_with(upper, "ENDMODULE")
}

/// A line in upper case without white space before it.
pub open spec fn upper_line(line: Seq<char>) -> Seq<char> {
    text::upper(text::trim_start(line, CharClass::Space))
}

/// Whether a source has a block that the grammar does not support.
pub open spec fn has_unsupported(source: Seq<char>) -> bool {
    exists|i: int|
        0 <= i < text::lines(source).len() && marks_unsupported(
            upper_line(#[trigger] text::lines(source)[i]),
        )
}

/// Tells whether a source has a block that the grammar does not support.
pub fn source_has_known_unsupported_blocks(source: &str) -> (r: bool)
    ensures
        r == has_unsupported(source@),
{
    let lines = text::split_lines(source);
    let ghost all = text::lines(source@);
    let mut i: usize = 0;
    while i < lines.len()
        invariant
            i <= lines@.len(),
            all == text::lines(source@),
            all == text::strings(lines@),
            forall|k: int| 0 <= k < i ==> !marks_unsupported(upper_line(#[trigger] all[k])),
        decreases lines@.len() - i,
    {
        proof {
            assert(all[i as int] == lines@[i as int]@);
        }
        let upper = text::uppercase(text::trim_start_matches(lines[i].as_str(), CharClass::Space));
        if is_unsupported_line(upper.as_str()) {
            return true;
        }
        i += 1;
    }
    false
}

// ---------------------------------------------------------------------------
// Parsing
// ---------------------------------------------------------------------------

/// The semantic tree that the grammar gives for a source, where it gives one.
pub open spec fn grammar_program(source: Seq<char>) -> Option<SemanticTree> {
    if has_unsupported(source) {
        None
    } else {
        match syntax::grammar_tree(source) {
            Some(root) => if syntax::readable(root, source) {
                convert::semantic_program(
                    syntax::shape_of(root),
                    syntax::named_tree(root, source),
                    scanner::last_line(text::lines(source).len()),
                )
            } else {
                None
            },
            None => None,
        }
    }
}

/// Parses a source with the grammar.
pub fn parse_abap_tree_sitter(source: &str) -> (r: Option<SemanticNode>)
    ensures
        match r {
            Some(t) => grammar_program(source@) == Some(t.model()),
            None => grammar_program(source@) is None,
        },
{
    if source_has_known_unsupported_blocks(source) {
        return None;
    }
    match syntax::parse_tree(source) {
        Some(tree) => {
            let lines = text::split_lines(source);
            proof {
                assert(text::strings(lines@).len() == lines@.len());
            }
            convert::convert_tree(&tree, scanner::last_line_number(lines.len()))
        },
        None => None,
    }
}

/// The semantic tree of a source: that of the grammar, or else that of the line
/// scanner.
pub open spec fn parsed(source: Seq<char>) -> SemanticTree {
    match grammar_program(source) {
        Some(t) => t,
        None => scanner::scanned_source(source),
    }
}

/// Parses a source.
pub fn parse_abap(source: &str) -> (r: SemanticNode)
    ensures
        r.model() == parsed(source@),
{
    match parse_abap_tree_sitter(source) {
        Some(root) => root,
        None => scanner::parse_abap_fallback(source),
    }
}

} // verus!
