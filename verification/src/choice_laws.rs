//! Laws of the choice: the language of a file, and the parser for a source.
use crate::convert;
use crate::parser;
use crate::plugin;
use crate::scanner;
use crate::string_laws;
use crate::syntax;
use crate::text;
use crate::text::CharClass;
use vstd::prelude::*;

verus! {

// ---------------------------------------------------------------------------
// Languages
// ---------------------------------------------------------------------------

/// A file is an ABAP file where its name in lower case ends in `.abap`, and has
/// no language otherwise.
pub proof fn law_languages(filename: Seq<char>)
    ensures
        ({
            let abap = exists|front: Seq<char>|
                text::lower(filename) == #[trigger] (front + ".abap"@);
            &&& abap ==> parser::language_of(filename) == "abap"@
            &&& !abap ==> parser::language_of(filename).len() == 0
        }),
{
    string_laws::law_suffix(text::lower(filename), ".abap"@);
}

// ---------------------------------------------------------------------------
// Unsupported blocks
// ---------------------------------------------------------------------------

/// Whether a text is another one and something behind it.
pub open spec fn begins_with(s: Seq<char>, front: Seq<char>) -> bool {
    exists|rest: Seq<char>| s == #[trigger] (front + rest)
}

/// A line begins or ends an unsupported block where it begins with `FORM` or
/// `MODULE` and a space, with `ENDFORM` or with `ENDMODULE`, and nowhere else.
pub proof fn law_unsupported_lines(upper: Seq<char>)
    ensures
        parser::marks_unsupported(upper) <==> begins_with(upper, "FORM "@) || begins_with(
            upper,
            "ENDFORM"@,
        ) || begins_with(upper, "MODULE "@) || begins_with(upper, "ENDMODULE"@),
{
    string_laws::law_prefix(upper, "FORM "@);
    string_laws::law_prefix(upper, "ENDFORM"@);
    string_laws::law_prefix(upper, "MODULE "@);
    string_laws::law_prefix(upper, "ENDMODULE"@);
}

/// White space before a line does not matter there, nor does its case.
pub proof fn law_upper_lines(before: Seq<char>, rest: Seq<char>)
    requires
        forall|i: int| 0 <= i < before.len() ==> text::is_space(#[trigger] before[i]),
        rest.len() > 0 ==> !text::is_space(rest[0]),
    ensures
        parser::upper_line(before + rest) == text::upper(rest),
{
    let line = before + rest;
    let t = text::trim_start(line, CharClass::Space);
    let n = before.len() as int;
    let m = line.len() - t.len();
    string_laws::law_trim_start(line, CharClass::Space);
    if m < n {
        assert(t[0] == line[m]);
        assert(line[m] == before[m]);
    } else if m > n {
        assert(CharClass::Space.has(line[n]));
        assert(line[n] == rest[0]);
    }
    assert(t =~= rest);
}

proof fn lemma_word_len_at_least(front: Seq<char>, rest: Seq<char>)
    requires
        forall|i: int| 0 <= i < front.len() ==> !text::is_space(#[trigger] front[i]),
    ensures
        text::word_len(front + rest) >= front.len(),
    decreases front.len(),
{
    let s = front + rest;
    text::lemma_word_len(s);
    if front.len() > 0 {
        let t = front.drop_first();
        assert(s.first() == front[0]);
        assert(s.drop_first() =~= t + rest);
        assert forall|i: int| 0 <= i < t.len() implies !text::is_space(#[trigger] t[i]) by {
            assert(t[i] == front[i + 1]);
        }
        lemma_word_len_at_least(t, rest);
    }
}

/// The first word of a text that begins with some characters other than white
/// space begins with them.
proof fn lemma_first_word_begins(s: Seq<char>, front: Seq<char>)
    requires
        front.len() > 0,
        forall|i: int| 0 <= i < front.len() ==> !text::is_space(#[trigger] front[i]),
        begins_with(s, front),
    ensures
        text::words(s).len() > 0,
        begins_with(text::words(s)[0], front),
{
    let rest = choose|rest: Seq<char>| s == #[trigger] (front + rest);
    let n = text::word_len(s);
    assert(s.first() == front[0]);
    assert(text::trim_start(s, CharClass::Space) == s);
    lemma_word_len_at_least(front, rest);
    text::lemma_word_len(s);
    assert(text::words(s)[0] == s.take(n));
    assert(s.take(n) =~= front + rest.take(n - front.len()));
}

proof fn lemma_first_word_is(s: Seq<char>, front: Seq<char>, word: Seq<char>)
    requires
        word.len() > 0,
        front == word.push(' '),
        forall|i: int| 0 <= i < word.len() ==> !text::is_space(#[trigger] word[i]),
        begins_with(s, front),
    ensures
        text::words(s).len() > 0,
        text::words(s)[0] == word,
{
    let rest = choose|rest: Seq<char>| s == #[trigger] (front + rest);
    string_laws::law_one_word(word);
    string_laws::law_words_of_parts(word, ' ', rest);
}

/// Whether the first word of a line in upper case is one that begins or ends an
/// unsupported block.
pub open spec fn has_unsupported_word(line: Seq<char>) -> bool {
    let words = text::words(parser::upper_line(line));
    words.len() > 0 && (words[0] == "FORM"@ || words[0] == "MODULE"@ || begins_with(
        words[0],
        "ENDFORM"@,
    ) || begins_with(words[0], "ENDMODULE"@))
}

/// A source has an unsupported block where one of its lines begins or ends one,
/// and only where the first word of a line is `FORM` or `MODULE`, or begins with
/// `ENDFORM` or `ENDMODULE`.
pub proof fn law_unsupported_sources(source: Seq<char>)
    ensures
        parser::has_unsupported(source) <==> exists|i: int|
            0 <= i < text::lines(source).len() && parser::marks_unsupported(
                parser::upper_line(#[trigger] text::lines(source)[i]),
            ),
        parser::has_unsupported(source) ==> exists|i: int|
            0 <= i < text::lines(source).len() && has_unsupported_word(
                #[trigger] text::lines(source)[i],
            ),
{
    if parser::has_unsupported(source) {
        let i = choose|i: int|
            0 <= i < text::lines(source).len() && parser::marks_unsupported(
                parser::upper_line(#[trigger] text::lines(source)[i]),
            );
        lemma_unsupported_word(text::lines(source)[i]);
    }
}

proof fn lemma_unsupported_word(line: Seq<char>)
    requires
        parser::marks_unsupported(parser::upper_line(line)),
    ensures
        has_unsupported_word(line),
{
    let u = parser::upper_line(line);
    law_unsupported_lines(u);
    reveal_strlit("FORM");
    reveal_strlit("MODULE");
    reveal_strlit("FORM ");
    reveal_strlit("MODULE ");
    reveal_strlit("ENDFORM");
    reveal_strlit("ENDMODULE");
    if begins_with(u, "FORM "@) {
        assert("FORM "@ =~= "FORM"@.push(' '));
        lemma_first_word_is(u, "FORM "@, "FORM"@);
    } else if begins_with(u, "MODULE "@) {
        assert("MODULE "@ =~= "MODULE"@.push(' '));
        lemma_first_word_is(u, "MODULE "@, "MODULE"@);
    } else if begins_with(u, "ENDFORM"@) {
        lemma_first_word_begins(u, "ENDFORM"@);
    } else {
        lemma_first_word_begins(u, "ENDMODULE"@);
    }
}

// ---------------------------------------------------------------------------
// The parser
// ---------------------------------------------------------------------------

/// A source without such a line goes to the grammar: where the grammar's tree
/// can be read, has a construct of the top level, fewer than a third faults and
/// something below the program, its conversion is the tree of the source.
pub proof fn law_supported_sources_use_the_grammar(source: Seq<char>, root: syntax::GrammarNode)
    requires
        forall|i: int|
            0 <= i < text::lines(source).len() ==> !has_unsupported_word(
                #[trigger] text::lines(source)[i],
            ),
        syntax::grammar_tree(source) == Some(root),
        syntax::readable(root, source),
        convert::has_top_level(syntax::named_tree(root, source)),
        convert::fault_count(syntax::shape_of(root)) * 3 < syntax::node_count(
            syntax::shape_of(root),
        ),
        convert::converted(syntax::named_tree(root, source), "0"@) matches Some(t) && t.node_type
            == "program"@ && t.children.len() > 0,
    ensures
        Some(parser::parsed(source)) == convert::converted(syntax::named_tree(root, source), "0"@),
{
    law_unsupported_sources(source);
}

/// The tree of a source is the one of the grammar, where that gives one, and
/// the scanner's otherwise. The grammar gives one exactly where no line is
/// unsupported and its tree can be read and is used.
pub proof fn law_one_parser_answers(source: Seq<char>)
    ensures
        ({
            let own = syntax::grammar_tree(source);
            let last = if text::lines(source).len() == 0 {
                0u32
            } else {
                (text::lines(source).len() - 1) as u32
            };
            let used = !parser::has_unsupported(source) && own is Some && syntax::readable(
                own->0,
                source,
            ) && convert::semantic_program(
                syntax::shape_of(own->0),
                syntax::named_tree(own->0, source),
                last,
            ) is Some;
            &&& used ==> Some(parser::parsed(source)) == convert::semantic_program(
                syntax::shape_of(own->0),
                syntax::named_tree(own->0, source),
                last,
            )
            &&& !used ==> parser::parsed(source) == scanner::scanned_source(source)
            &&& parser::grammar_program(source) is Some <==> used
            &&& used ==> parser::grammar_program(source) == Some(parser::parsed(source))
        }),
{
}

// ---------------------------------------------------------------------------
// The grammar's tree in plain values
// ---------------------------------------------------------------------------

/// The shape of a tree has all its nodes, the faults where they are.
pub proof fn law_shapes(root: syntax::GrammarNode)
    ensures
        syntax::shape_of(root).error == root.error,
        syntax::shape_of(root).missing == root.missing,
        syntax::shape_of(root).children.len() == root.children.len(),
        forall|i: int|
            0 <= i < root.children.len() ==> {
                &&& (#[trigger] root.children[i]) is None ==> syntax::shape_of(
                    root,
                ).children[i] is None
                &&& root.children[i] is Some ==> syntax::shape_of(root).children[i] == Some(
                    syntax::shape_of(root.children[i]->0),
                )
            },
{
    assert forall|i: int| 0 <= i < root.children.len() implies {
        &&& (#[trigger] root.children[i]) is None ==> syntax::shape_of(root).children[i] is None
        &&& root.children[i] is Some ==> syntax::shape_of(root).children[i] == Some(
            syntax::shape_of(root.children[i]->0),
        )
    } by {
        assert(syntax::shape_of(root).children[i] == match root.children[i] {
            Some(child) => Some(syntax::shape_of(child)),
            None => None,
        });
    }
}

/// The text between two offsets is what the bytes there stand for.
pub proof fn law_texts_between(source: Seq<char>, start: int, end: int)
    ensures
        ({
            let part = vstd::utf8::encode_utf8(source).subrange(start, end);
            &&& vstd::utf8::valid_utf8(part) ==> syntax::text_between(source, start, end)
                == vstd::utf8::decode_utf8(part)
            &&& !vstd::utf8::valid_utf8(part) ==> syntax::text_between(source, start, end).len()
                == 0
        }),
{
}

/// A node is read out with its kind, its faults, its place, its text, the text
/// of its field `name` and all its named children.
pub proof fn law_read_nodes(n: syntax::GrammarNode, source: Seq<char>)
    ensures
        ({
            let read = syntax::named_tree(n, source);
            &&& read.kind == n.kind
            &&& read.error == n.error
            &&& read.missing == n.missing
            &&& read.start == n.start
            &&& read.end == n.end
            &&& read.text == syntax::text_between(source, n.start_byte as int, n.end_byte as int)
            &&& read.name is Some <==> n.name is Some
            &&& n.name is Some ==> read.name->0 == syntax::text_between(
                source,
                (n.name->0).0 as int,
                (n.name->0).1 as int,
            )
            &&& read.children.len() == n.named_children.len()
            &&& forall|i: int|
                0 <= i < n.named_children.len() ==> {
                    &&& (#[trigger] n.named_children[i]) is None ==> read.children[i] is None
                    &&& n.named_children[i] is Some ==> read.children[i] == Some(
                        syntax::named_tree(n.named_children[i]->0, source),
                    )
                }
        }),
{
    let read = syntax::named_tree(n, source);
    assert forall|i: int| 0 <= i < n.named_children.len() implies {
        &&& (#[trigger] n.named_children[i]) is None ==> read.children[i] is None
        &&& n.named_children[i] is Some ==> read.children[i] == Some(
            syntax::named_tree(n.named_children[i]->0, source),
        )
    } by {
        assert(read.children[i] == match n.named_children[i] {
            Some(child) => Some(syntax::named_tree(child, source)),
            None => None,
        });
    }
}

/// A tree can be read where the ranges of its named nodes and of their names
/// lie within the source, and the number of its nodes fits the machine.
pub proof fn law_readable(root: syntax::GrammarNode, source: Seq<char>, len: int)
    ensures
        syntax::readable(root, source) <==> syntax::in_bounds(
            root,
            vstd::utf8::encode_utf8(source).len() as int,
        ) && syntax::node_count(syntax::shape_of(root)) <= usize::MAX,
        syntax::in_bounds(root, len) <==> root.start_byte <= root.end_byte <= len && (
        root.name is Some ==> (root.name->0).0 <= (root.name->0).1 && (root.name->0).1 <= len) && (
        forall|i: int|
            0 <= i < root.named_children.len() && (#[trigger] root.named_children[i]) is Some
                ==> syntax::in_bounds(root.named_children[i]->0, len)),
{
    if syntax::in_bounds(root, len) {
        assert forall|i: int|
            0 <= i < root.named_children.len() && (
            #[trigger] root.named_children[i]) is Some implies syntax::in_bounds(
            root.named_children[i]->0,
            len,
        ) by {}
    }
}

/// A tree is well-formed where the number of its nodes fits the machine.
pub proof fn law_well_formed(tree: syntax::SyntaxTree<'_>)
    ensures
        tree.well_formed() <==> syntax::node_count(tree.shape.model()) <= usize::MAX,
{
}

/// What was read out stands for itself: shapes and nodes keep their fields and
/// their children, one for one.
pub proof fn law_read_values(shape: syntax::Shape, n: syntax::SyntaxNode<'_>)
    ensures
        shape.model().error == shape.error,
        shape.model().missing == shape.missing,
        shape.model().children.len() == shape.children@.len(),
        forall|i: int|
            0 <= i < shape.children@.len() ==> {
                &&& (#[trigger] shape.children@[i]) is None ==> shape.model().children[i] is None
                &&& shape.children@[i] is Some ==> shape.model().children[i] == Some(
                    shape.children@[i]->0.model(),
                )
            },
        n.model().kind == n.kind@,
        n.model().error == n.error,
        n.model().missing == n.missing,
        n.model().text == n.text@,
        n.model().start == n.start,
        n.model().end == n.end,
        n.model().name is Some <==> n.name is Some,
        n.name is Some ==> n.model().name->0 == n.name->0@,
        n.model().children.len() == n.children@.len(),
        forall|i: int|
            0 <= i < n.children@.len() ==> {
                &&& (#[trigger] n.children@[i]) is None ==> n.model().children[i] is None
                &&& n.children@[i] is Some ==> n.model().children[i] == Some(
                    n.children@[i]->0.model(),
                )
            },
{
    assert forall|i: int| 0 <= i < shape.children@.len() implies {
        &&& (#[trigger] shape.children@[i]) is None ==> shape.model().children[i] is None
        &&& shape.children@[i] is Some ==> shape.model().children[i] == Some(
            shape.children@[i]->0.model(),
        )
    } by {
        assert(shape.model().children[i] == match shape.children@[i] {
            Some(child) => Some(child.model()),
            None => None,
        });
    }
    assert forall|i: int| 0 <= i < n.children@.len() implies {
        &&& (#[trigger] n.children@[i]) is None ==> n.model().children[i] is None
        &&& n.children@[i] is Some ==> n.model().children[i] == Some(n.children@[i]->0.model())
    } by {
        assert(n.model().children[i] == match n.children@[i] {
            Some(child) => Some(child.model()),
            None => None,
        });
    }
}

// ---------------------------------------------------------------------------
// Answers to a host
// ---------------------------------------------------------------------------

/// A tree in JSON is the answer itself, and a failure is told in an object with
/// the message.
pub proof fn law_answers(text: Seq<char>)
    ensures
        plugin::answer(Ok(text)) == text,
        plugin::answer(Err(text)) == "{\"error\":\"Serialisation error: "@ + text + "\"}"@,
{
}

/// A record tells all that the metadata say of the language and of the plugin,
/// each under its name.
pub proof fn law_records(
    record: plugin::LanguageInfoRecord,
    info: plugin::LanguageInfo,
    about: plugin::PluginInfo,
)
    ensures
        plugin::records(record, info, about) <==> {
            &&& record.language_id@ == info.language_id@
            &&& record.language_name@ == info.language_name@
            &&& record.language_short_name@ == info.language_short_name@
            &&& record.monaco_language@ == info.monaco_language@
            &&& record.default_filename@ == info.default_filename@
            &&& text::strings(record.language_file_extensions@) == text::strings(
                info.language_file_extensions@,
            )
            &&& record.author@ == about.author@
            &&& record.plugin_version@ == about.plugin_version@
            &&& record.last_updated@ == about.last_updated@
        },
{
}

} // verus!
