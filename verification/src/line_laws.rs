//! Laws of lines: what each kind of line does to the open blocks and to the
//! nodes below the program.
use crate::node;
use crate::node::SemanticTree;
use crate::scanner;
use crate::scanner::{BlockKind, LineAction, OpenBlock, ScanState};
use crate::statement;
use crate::string_laws;
use crate::text;
use vstd::prelude::*;

verus! {

// ---------------------------------------------------------------------------
// Actions
// ---------------------------------------------------------------------------

proof fn lemma_keywords_differ()
    ensures
        "REPORT"@.len() == 6 && "REPORT"@[0] == 'R',
        "PROGRAM"@.len() == 7 && "PROGRAM"@[0] == 'P',
        "CLASS"@.len() == 5,
        "INTERFACE"@.len() == 9 && "INTERFACE"@[0] == 'I',
        "METHOD"@.len() == 6 && "METHOD"@[0] == 'M' && "METHOD"@[1] == 'E',
        "FORM"@.len() == 4,
        "FUNCTION"@.len() == 8 && "FUNCTION"@[0] == 'F',
        "MODULE"@.len() == 6 && "MODULE"@[0] == 'M' && "MODULE"@[1] == 'O',
        "ENDCLASS"@.len() == 8 && "ENDCLASS"@[0] == 'E',
        "ENDINTERFACE"@.len() == 12,
        "ENDFORM"@.len() == 7 && "ENDFORM"@[0] == 'E',
        "ENDFUNCTION"@.len() == 11,
        "ENDMODULE"@.len() == 9 && "ENDMODULE"@[0] == 'E' && "ENDMODULE"@[4] == 'O',
        "ENDMETHOD"@.len() == 9 && "ENDMETHOD"@[0] == 'E' && "ENDMETHOD"@[4] == 'E',
{
    reveal_strlit("REPORT");
    reveal_strlit("PROGRAM");
    reveal_strlit("CLASS");
    reveal_strlit("INTERFACE");
    reveal_strlit("METHOD");
    reveal_strlit("FORM");
    reveal_strlit("FUNCTION");
    reveal_strlit("MODULE");
    reveal_strlit("ENDCLASS");
    reveal_strlit("ENDINTERFACE");
    reveal_strlit("ENDFORM");
    reveal_strlit("ENDFUNCTION");
    reveal_strlit("ENDMODULE");
    reveal_strlit("ENDMETHOD");
}

/// Program declarations stand outside of blocks and have a name. A class has
/// three words, the third of which tells its implementation from its
/// definition. Methods stand inside a block, interfaces, subroutines, function
/// modules and screen modules outside, and all have a name. `POOL` is no name of
/// a function module.
pub proof fn law_opening_lines(words: Seq<Seq<char>>, nested: bool)
    requires
        words.len() > 0,
    ensures
        ({
            let kw = statement::keyword_of(words[0]);
            let action = scanner::action_of(words, nested);
            let named = words.len() >= 2;
            let implementation = exists|rest: Seq<char>| words[2] == #[trigger] ("IMPL"@ + rest);
            &&& action == LineAction::Report <==> (kw == "REPORT"@ || kw == "PROGRAM"@) && !nested
                && named
            &&& action == LineAction::Open(BlockKind::ClassImpl) <==> kw == "CLASS"@ && words.len()
                >= 3 && implementation
            &&& action == LineAction::Open(BlockKind::ClassDefinition) <==> kw == "CLASS"@
                && words.len() >= 3 && !implementation
            &&& action == LineAction::Open(BlockKind::Interface) <==> kw == "INTERFACE"@ && !nested
                && named
            &&& action == LineAction::Open(BlockKind::Method) <==> kw == "METHOD"@ && nested
                && named
            &&& action == LineAction::Open(BlockKind::Form) <==> kw == "FORM"@ && !nested && named
            &&& action == LineAction::Open(BlockKind::FunctionModule) <==> kw == "FUNCTION"@
                && !nested && named && words[1] != "POOL"@
            &&& action == LineAction::Open(BlockKind::Module) <==> kw == "MODULE"@ && !nested
                && named
        }),
{
    lemma_keywords_differ();
    string_laws::law_prefix(words[2], "IMPL"@);
}

/// The ends of blocks close a block wherever they stand. Any other line that
/// opens nothing is a statement inside a block, and nothing outside.
pub proof fn law_other_lines(words: Seq<Seq<char>>, nested: bool)
    requires
        words.len() > 0,
    ensures
        ({
            let kw = statement::keyword_of(words[0]);
            let action = scanner::action_of(words, nested);
            let end = kw == "ENDCLASS"@ || kw == "ENDINTERFACE"@ || kw == "ENDFORM"@ || kw
                == "ENDFUNCTION"@ || kw == "ENDMODULE"@;
            let begin = kw == "CLASS"@ && words.len() >= 3 || kw == "METHOD"@ && words.len() >= 2;
            &&& action == LineAction::Close <==> end
            &&& action == LineAction::CloseMethod <==> kw == "ENDMETHOD"@
            &&& action == LineAction::Statement <==> nested && !end && kw != "ENDMETHOD"@ && !begin
            &&& action == LineAction::Ignore ==> !nested
        }),
{
    lemma_keywords_differ();
}

/// What stands behind the third word of a line does not matter for what it
/// does.
pub proof fn law_three_words_decide(words: Seq<Seq<char>>, more: Seq<Seq<char>>, nested: bool)
    requires
        words.len() >= 3,
    ensures
        scanner::action_of(words + more, nested) == scanner::action_of(words, nested),
{
    assert((words + more)[0] == words[0]);
    assert((words + more)[1] == words[1]);
    assert((words + more)[2] == words[2]);
}

/// Only the keyword of the first word matters, not its punctuation.
pub proof fn law_keyword_decides(a: Seq<Seq<char>>, b: Seq<Seq<char>>, nested: bool)
    requires
        a.len() > 0,
        a.len() == b.len(),
        statement::keyword_of(a[0]) == statement::keyword_of(b[0]),
        forall|i: int| 0 < i < a.len() ==> #[trigger] a[i] == b[i],
    ensures
        scanner::action_of(a, nested) == scanner::action_of(b, nested),
{
    if a.len() >= 2 {
        assert(a[1] == b[1]);
    }
    if a.len() >= 3 {
        assert(a[2] == b[2]);
    }
}

/// The names of the blocks in the tree, and which of them are parts of classes.
pub proof fn law_block_names(kind: BlockKind)
    ensures
        kind is ClassDefinition ==> kind.name() == "class_definition"@ && kind.is_class(),
        kind is ClassImpl ==> kind.name() == "class_impl"@ && kind.is_class(),
        kind is Interface ==> kind.name() == "interface"@ && !kind.is_class(),
        kind is Method ==> kind.name() == "method"@ && !kind.is_class(),
        kind is Form ==> kind.name() == "form"@ && !kind.is_class(),
        kind is FunctionModule ==> kind.name() == "function_module"@ && !kind.is_class(),
        kind is Module ==> kind.name() == "module"@ && !kind.is_class(),
{
}

// ---------------------------------------------------------------------------
// Lines without effect
// ---------------------------------------------------------------------------

/// An empty line and a line that begins with an asterisk or a double quote do
/// nothing, nor does a line without words.
pub proof fn law_lines_without_effect(st: ScanState, line: u32, raw: Seq<char>, upper: Seq<char>)
    requires
        text::trim(raw).len() == 0 || text::trim(raw)[0] == '*' || text::trim(raw)[0] == '"'
            || text::words(upper).len() == 0 || scanner::action_of(
            text::words(upper),
            st.stack.len() > 0,
        ) is Ignore,
    ensures
        st.scanned(line, raw, upper) == st,
{
}

/// Whether a line has an effect: it holds words and is no comment.
pub open spec fn speaks(raw: Seq<char>, upper: Seq<char>) -> bool {
    &&& text::trim(raw).len() > 0
    &&& text::trim(raw)[0] != '*'
    &&& text::trim(raw)[0] != '"'
    &&& text::words(upper).len() > 0
}

/// The length of a line in bytes, as a column.
pub open spec fn end_of(raw: Seq<char>) -> u32 {
    (vstd::utf8::encode_utf8(raw).len() as usize) as u32
}

proof fn lemma_bytes_of_parts(a: Seq<char>, b: Seq<char>)
    ensures
        vstd::utf8::encode_utf8(a + b).len() == vstd::utf8::encode_utf8(a).len()
            + vstd::utf8::encode_utf8(b).len(),
    decreases a.len(),
{
    if a.len() == 0 {
        assert(a + b =~= b);
    } else {
        assert((a + b)[0] == a[0]);
        assert((a + b).drop_first() =~= a.drop_first() + b);
        lemma_bytes_of_parts(a.drop_first(), b);
    }
}

/// The width of a line counts bytes: those of the parts of a line together, and
/// one for each ASCII character. Columns have 32 bits, so a longer line does not
/// tell its width.
pub proof fn law_widths(a: Seq<char>, b: Seq<char>)
    requires
        vstd::utf8::encode_utf8(a).len() + vstd::utf8::encode_utf8(b).len() <= u32::MAX,
    ensures
        scanner::width(a) == vstd::utf8::encode_utf8(a).len(),
        scanner::width(a + b) == scanner::width(a) + scanner::width(b),
        vstd::utf8::is_ascii_chars(a) ==> scanner::width(a) == a.len(),
        end_of(a) == scanner::width(a),
{
    lemma_bytes_of_parts(a, b);
    if vstd::utf8::is_ascii_chars(a) {
        vstd::utf8::is_ascii_chars_encode_utf8(a);
    }
}

// ---------------------------------------------------------------------------
// Lines with an effect
// ---------------------------------------------------------------------------

/// A program declaration adds a leaf with the next number below the program.
pub proof fn law_report_lines(st: ScanState, line: u32, raw: Seq<char>, upper: Seq<char>)
    requires
        speaks(raw, upper),
        scanner::action_of(text::words(upper), st.stack.len() > 0) is Report,
    ensures
        ({
            let next = st.scanned(line, raw, upper);
            let report = next.roots.last();
            &&& next.stack == st.stack
            &&& next.counter == st.counter + 1
            &&& next.roots.len() == st.roots.len() + 1
            &&& next.roots.drop_last() == st.roots
            &&& report.id == node::child_id("0"@, st.counter)
            &&& report.node_type == "report"@
            &&& report.label == statement::name_at(text::words(upper), 1)
            &&& report.position.start_line == line
            &&& report.position.start_col == 0
            &&& report.position.end_line == line
            &&& report.position.end_col == 0
            &&& report.children.len() == 0
        }),
{
    let next = st.scanned(line, raw, upper);
    assert(next.roots.drop_last() =~= st.roots);
}

/// A line that opens a block puts it on top of the others. A method has the
/// next number below the block around it, any other block the next number below
/// the program. The block bears the second word as its name, and starts with its
/// signature unless it is a part of a class.
pub proof fn law_opened_blocks(
    st: ScanState,
    line: u32,
    raw: Seq<char>,
    upper: Seq<char>,
    kind: BlockKind,
)
    requires
        speaks(raw, upper),
        scanner::action_of(text::words(upper), st.stack.len() > 0) == LineAction::Open(kind),
    ensures
        ({
            let next = st.scanned(line, raw, upper);
            let words = text::words(upper);
            let block = next.stack.last();
            let parent = st.stack.last();
            &&& next.roots == st.roots
            &&& next.stack.len() == st.stack.len() + 1
            &&& next.stack.drop_last() == st.stack
            &&& kind is Method ==> next.counter == st.counter && block.id == node::child_id(
                parent.id,
                parent.children.len(),
            )
            &&& !(kind is Method) ==> next.counter == st.counter + 1 && block.id == node::child_id(
                "0"@,
                st.counter,
            )
            &&& block.node_type == kind.name()
            &&& block.label == statement::name_at(words, 1)
            &&& block.start_line == line
            &&& kind is ClassDefinition || kind is ClassImpl ==> block.children.len() == 0
            &&& !(kind is ClassDefinition) && !(kind is ClassImpl) ==> block.children
                == statement::signature_trees(block.id, words, 2, line, end_of(raw))
        }),
{
    let next = st.scanned(line, raw, upper);
    assert(next.stack.drop_last() =~= st.stack);
}

/// Whether a tree is the block, ended on a line.
pub open spec fn is_closed_block(t: SemanticTree, block: OpenBlock, line: u32) -> bool {
    &&& t.id == block.id
    &&& t.node_type == block.node_type
    &&& t.label == block.label
    &&& t.position.start_line == block.start_line
    &&& t.position.start_col == 0
    &&& t.position.end_line == line
    &&& t.position.end_col == 0
    &&& t.children == block.children
}

/// The end of a class, an interface, a subroutine, a function module or a screen
/// module closes the innermost block, if there is one, into the program.
pub proof fn law_closing_lines(st: ScanState, line: u32, raw: Seq<char>, upper: Seq<char>)
    requires
        speaks(raw, upper),
        scanner::action_of(text::words(upper), st.stack.len() > 0) is Close,
    ensures
        ({
            let next = st.scanned(line, raw, upper);
            &&& next.counter == st.counter
            &&& st.stack.len() == 0 ==> next == st
            &&& st.stack.len() > 0 ==> {
                &&& next.stack == st.stack.subrange(0, st.stack.len() - 1)
                &&& next.roots.len() == st.roots.len() + 1
                &&& next.roots.drop_last() == st.roots
                &&& is_closed_block(next.roots.last(), st.stack.last(), line)
            }
        }),
{
    let next = st.scanned(line, raw, upper);
    if st.stack.len() > 0 {
        assert(next.stack =~= st.stack.subrange(0, st.stack.len() - 1));
        assert(next.roots.drop_last() =~= st.roots);
    }
}

/// The end of a method closes the innermost block, if there is one, into the
/// block around it, or into the program where there is none.
pub proof fn law_closing_methods(st: ScanState, line: u32, raw: Seq<char>, upper: Seq<char>)
    requires
        speaks(raw, upper),
        scanner::action_of(text::words(upper), st.stack.len() > 0) is CloseMethod,
    ensures
        ({
            let next = st.scanned(line, raw, upper);
            let n = st.stack.len();
            &&& next.counter == st.counter
            &&& n == 0 ==> next == st
            &&& n == 1 ==> {
                &&& next.stack.len() == 0
                &&& next.roots.len() == st.roots.len() + 1
                &&& next.roots.drop_last() == st.roots
                &&& is_closed_block(next.roots.last(), st.stack.last(), line)
            }
            &&& n > 1 ==> {
                let before = st.stack[n - 2];
                let after = next.stack.last();
                &&& next.roots == st.roots
                &&& next.stack.len() == n - 1
                &&& next.stack.drop_last() == st.stack.subrange(0, n - 2)
                &&& after.id == before.id
                &&& after.node_type == before.node_type
                &&& after.label == before.label
                &&& after.start_line == before.start_line
                &&& after.children.len() == before.children.len() + 1
                &&& after.children.drop_last() == before.children
                &&& is_closed_block(after.children.last(), st.stack.last(), line)
            }
        }),
{
    let next = st.scanned(line, raw, upper);
    let n = st.stack.len();
    if n == 1 {
        assert(next.roots.drop_last() =~= st.roots);
    } else if n > 1 {
        assert(next.stack.drop_last() =~= st.stack.subrange(0, n - 2));
        assert(next.stack.last().children.drop_last() =~= st.stack[n - 2].children);
    }
}

/// A statement becomes one more child of the innermost block, with the next
/// number there, on its line and as wide as the line.
pub proof fn law_statement_lines(st: ScanState, line: u32, raw: Seq<char>, upper: Seq<char>)
    requires
        speaks(raw, upper),
        st.stack.len() > 0,
        scanner::action_of(text::words(upper), true) is Statement,
    ensures
        ({
            let next = st.scanned(line, raw, upper);
            let n = st.stack.len();
            let before = st.stack.last();
            let after = next.stack.last();
            let child = after.children.last();
            &&& next.roots == st.roots
            &&& next.counter == st.counter
            &&& next.stack.len() == n
            &&& next.stack.drop_last() == st.stack.drop_last()
            &&& after.id == before.id
            &&& after.node_type == before.node_type
            &&& after.label == before.label
            &&& after.start_line == before.start_line
            &&& after.children.len() == before.children.len() + 1
            &&& after.children.drop_last() == before.children
            &&& child.id == node::child_id(before.id, before.children.len())
            &&& child.node_type == statement::statement_parts(text::trim(raw), upper).0
            &&& child.label == statement::statement_parts(text::trim(raw), upper).1
            &&& child.position.start_line == line
            &&& child.position.start_col == 0
            &&& child.position.end_line == line
            &&& child.position.end_col == end_of(raw)
            &&& child.children.len() == 0
        }),
{
    let next = st.scanned(line, raw, upper);
    assert(next.stack.drop_last() =~= st.stack.drop_last());
    assert(next.stack.last().children.drop_last() =~= st.stack.last().children);
}

// ---------------------------------------------------------------------------
// Single steps
// ---------------------------------------------------------------------------

/// What it is to open a block, to report a program, to close a block into the
/// program and to close one into the block around it, whatever the line.
pub proof fn law_opening_step(
    st: ScanState,
    kind: BlockKind,
    words: Seq<Seq<char>>,
    line: u32,
    end_col: u32,
)
    ensures
        ({
            let next = st.opened(kind, words, line, end_col);
            let block = next.stack.last();
            let parent = st.stack.last();
            &&& next.roots == st.roots
            &&& next.stack.len() == st.stack.len() + 1
            &&& next.stack.drop_last() == st.stack
            &&& kind is Method ==> next.counter == st.counter && block.id == node::child_id(
                parent.id,
                parent.children.len(),
            )
            &&& !(kind is Method) ==> next.counter == st.counter + 1 && block.id == node::child_id(
                "0"@,
                st.counter,
            )
            &&& block.node_type == kind.name()
            &&& block.label == statement::name_at(words, 1)
            &&& block.start_line == line
            &&& kind is ClassDefinition || kind is ClassImpl ==> block.children.len() == 0
            &&& !(kind is ClassDefinition) && !(kind is ClassImpl) ==> block.children
                == statement::signature_trees(block.id, words, 2, line, end_col)
        }),
{
    assert(st.opened(kind, words, line, end_col).stack.drop_last() =~= st.stack);
}

/// A report adds a leaf with the next number to the program.
pub proof fn law_reporting_step(st: ScanState, words: Seq<Seq<char>>, line: u32)
    ensures
        ({
            let next = st.reported(words, line);
            let report = next.roots.last();
            &&& next.stack == st.stack
            &&& next.counter == st.counter + 1
            &&& next.roots.len() == st.roots.len() + 1
            &&& next.roots.drop_last() == st.roots
            &&& report.id == node::child_id("0"@, st.counter)
            &&& report.node_type == "report"@
            &&& report.label == statement::name_at(words, 1)
            &&& report.position.start_line == line
            &&& report.position.start_col == 0
            &&& report.position.end_line == line
            &&& report.position.end_col == 0
            &&& report.children.len() == 0
        }),
{
    assert(st.reported(words, line).roots.drop_last() =~= st.roots);
}

/// Closing takes the innermost block, if there is one, off the stack and adds it
/// to the program, or to the block around it, if there is one.
pub proof fn law_closing_steps(st: ScanState, line: u32)
    ensures
        ({
            let n = st.stack.len();
            let into_program = st.block_closed(line);
            let into_block = st.method_closed(line);
            &&& n == 0 ==> into_program == st && into_block == st
            &&& n > 0 ==> {
                &&& into_program.counter == st.counter
                &&& into_program.stack == st.stack.subrange(0, n - 1)
                &&& into_program.roots.len() == st.roots.len() + 1
                &&& into_program.roots.drop_last() == st.roots
                &&& is_closed_block(into_program.roots.last(), st.stack.last(), line)
            }
            &&& n == 1 ==> into_block == into_program
            &&& n > 1 ==> {
                let before = st.stack[n - 2];
                let after = into_block.stack.last();
                &&& into_block.counter == st.counter
                &&& into_block.roots == st.roots
                &&& into_block.stack.len() == n - 1
                &&& into_block.stack.drop_last() == st.stack.subrange(0, n - 2)
                &&& after.id == before.id
                &&& after.node_type == before.node_type
                &&& after.label == before.label
                &&& after.start_line == before.start_line
                &&& after.children.len() == before.children.len() + 1
                &&& after.children.drop_last() == before.children
                &&& is_closed_block(after.children.last(), st.stack.last(), line)
            }
        }),
{
    let n = st.stack.len();
    let into_program = st.block_closed(line);
    let into_block = st.method_closed(line);
    if n > 0 {
        assert(into_program.stack =~= st.stack.subrange(0, n - 1));
        assert(into_program.roots.drop_last() =~= st.roots);
    }
    if n > 1 {
        assert(into_block.stack.drop_last() =~= st.stack.subrange(0, n - 2));
        assert(into_block.stack.last().children.drop_last() =~= st.stack[n - 2].children);
    }
}

/// A block is closed at a line and gets one more child at its end.
pub proof fn law_blocks(block: OpenBlock, child: SemanticTree, line: u32)
    ensures
        is_closed_block(block.closed(line), block, line),
        block.with_child(child).id == block.id,
        block.with_child(child).node_type == block.node_type,
        block.with_child(child).label == block.label,
        block.with_child(child).start_line == block.start_line,
        block.with_child(child).children.len() == block.children.len() + 1,
        block.with_child(child).children.last() == child,
        block.with_child(child).children.drop_last() == block.children,
{
    assert(block.with_child(child).children.drop_last() =~= block.children);
}

// ---------------------------------------------------------------------------
// Whole sources
// ---------------------------------------------------------------------------

/// Before the first line there is nothing, and each line is scanned under its
/// number, with its trimmed text in upper case.
pub proof fn law_line_by_line(lines: Seq<Seq<char>>, i: nat)
    ensures
        scanner::scan_lines(lines, 0).roots.len() == 0,
        scanner::scan_lines(lines, 0).stack.len() == 0,
        scanner::scan_lines(lines, 0).counter == 0,
        scanner::scan_lines(lines, i + 1) == scanner::scan_lines(lines, i).scanned(
            i as u32,
            lines[i as int],
            text::upper(text::trim(lines[i as int])),
        ),
{
}

/// What the first lines did does not depend on the lines behind them.
pub proof fn law_later_lines_change_nothing(a: Seq<Seq<char>>, b: Seq<Seq<char>>, n: nat)
    requires
        n <= a.len(),
    ensures
        scanner::scan_lines(a + b, n) == scanner::scan_lines(a, n),
    decreases n,
{
    if n > 0 {
        law_later_lines_change_nothing(a, b, (n - 1) as nat);
        assert((a + b)[n - 1] == a[n - 1]);
    }
}

/// At the end of the source the finished nodes stay where they are, and behind
/// them come the open blocks, the innermost first, ended on the last line.
pub proof fn law_end_of_source(st: ScanState, last: u32)
    ensures
        ({
            let all = st.drained(last);
            let n = st.stack.len();
            &&& all.len() == st.roots.len() + n
            &&& forall|i: int| 0 <= i < st.roots.len() ==> #[trigger] all[i] == st.roots[i]
            &&& forall|j: int|
                0 <= j < n ==> is_closed_block(
                    all[st.roots.len() + j],
                    #[trigger] st.stack.reverse()[j],
                    last,
                )
        }),
    decreases st.stack.len(),
{
    if st.stack.len() > 0 {
        let t = st.stack.last().closed(last);
        let next = st.popped().with_root(t);
        let all = st.drained(last);
        let n = st.stack.len();
        law_end_of_source(next, last);
        assert(all == next.drained(last));
        assert forall|i: int| 0 <= i < st.roots.len() implies #[trigger] all[i] == st.roots[i] by {
            assert(next.roots[i] == st.roots[i]);
        }
        assert forall|j: int| 0 <= j < n implies is_closed_block(
            all[st.roots.len() + j],
            #[trigger] st.stack.reverse()[j],
            last,
        ) by {
            if j == 0 {
                assert(next.roots[st.roots.len() as int] == t);
                assert(st.stack.reverse()[0] == st.stack.last());
            } else {
                assert(next.stack.reverse()[j - 1] == st.stack.reverse()[j]);
                assert(is_closed_block(
                    all[next.roots.len() + (j - 1)],
                    next.stack.reverse()[j - 1],
                    last,
                ));
            }
        }
    }
}

/// The root of the scanner's tree is the program, from the first line of the
/// source to the last, with all that the lines left.
pub proof fn law_scanned_program(source: Seq<char>)
    ensures
        ({
            let root = scanner::scanned_source(source);
            let lines = text::lines(source);
            let last = if lines.len() == 0 {
                0u32
            } else {
                (lines.len() - 1) as u32
            };
            &&& root.id == "0"@
            &&& root.node_type == "program"@
            &&& root.label == "program"@
            &&& root.position.start_line == 0
            &&& root.position.start_col == 0
            &&& root.position.end_line == last
            &&& root.position.end_col == 0
            &&& root.children == scanner::scan_lines(lines, lines.len()).drained(last)
        }),
{
}

/// The last of some lines has the number of the lines less one, and the program
/// spans the lines up to it.
pub proof fn law_programs(n: nat, last: u32, children: Seq<SemanticTree>)
    ensures
        n == 0 ==> scanner::last_line(n) == 0,
        n > 0 ==> scanner::last_line(n) == (n - 1) as u32,
        scanner::program(last, children).id == "0"@,
        scanner::program(last, children).node_type == "program"@,
        scanner::program(last, children).label == "program"@,
        scanner::program(last, children).position.start_line == 0,
        scanner::program(last, children).position.start_col == 0,
        scanner::program(last, children).position.end_line == last,
        scanner::program(last, children).position.end_col == 0,
        scanner::program(last, children).children == children,
{
}

// ---------------------------------------------------------------------------
// Identifiers and views
// ---------------------------------------------------------------------------

/// The identifier of a child is that of its parent, a full stop and the number
/// of the child.
pub proof fn law_child_ids(parent: Seq<char>, index: nat)
    ensures
        node::child_id(parent, index) == parent + seq!['.'] + text::decimal(index),
{
    assert(node::child_id(parent, index) =~= parent + seq!['.'] + text::decimal(index));
}

/// A node stands for the tree with the same fields, and its children for the
/// children of the tree, one for one.
pub proof fn law_nodes_stand_for_trees(n: node::SemanticNode, list: Seq<node::SemanticNode>)
    ensures
        n.model().id == n.id@,
        n.model().node_type == n.node_type@,
        n.model().label == n.label@,
        n.model().position == n.position,
        n.model().children.len() == n.children@.len(),
        forall|i: int|
            0 <= i < n.children@.len() ==> #[trigger] n.model().children[i]
                == n.children@[i].model(),
        node::models(list).len() == list.len(),
        forall|i: int| 0 <= i < list.len() ==> #[trigger] node::models(list)[i] == list[i].model(),
{
}

/// A scanner stands for the state with the same finished nodes, open blocks and
/// number.
pub proof fn law_scanners_stand_for_states(s: scanner::Scanner)
    ensures
        s.model().counter == s.counter,
        s.model().roots.len() == s.roots@.len(),
        forall|i: int|
            0 <= i < s.roots@.len() ==> #[trigger] s.model().roots[i] == s.roots@[i].model(),
        s.model().stack.len() == s.stack@.len(),
        forall|j: int|
            0 <= j < s.stack@.len() ==> (#[trigger] s.model().stack[j]).id == s.stack@[j].id@
                && s.model().stack[j].node_type == s.stack@[j].node_type@
                && s.model().stack[j].label == s.stack@[j].label@
                && s.model().stack[j].start_line == s.stack@[j].start_line
                && s.model().stack[j].children == node::models(s.stack@[j].children@),
{
}

/// A stack of frames stands for the open blocks with the same fields, one for
/// one.
pub proof fn law_frames_stand_for_blocks(stack: Seq<scanner::Frame>)
    ensures
        scanner::blocks(stack).len() == stack.len(),
        forall|j: int|
            0 <= j < stack.len() ==> (#[trigger] scanner::blocks(stack)[j]).id == stack[j].id@
                && scanner::blocks(stack)[j].node_type == stack[j].node_type@
                && scanner::blocks(stack)[j].label == stack[j].label@
                && scanner::blocks(stack)[j].start_line == stack[j].start_line
                && scanner::blocks(stack)[j].children == node::models(stack[j].children@),
{
}

/// A tree and a span have the fields that they are given.
pub proof fn law_fields(
    id: Seq<char>,
    node_type: Seq<char>,
    label: Seq<char>,
    position: node::Position,
    children: Seq<SemanticTree>,
    start: u32,
    end: u32,
    end_col: u32,
)
    ensures
        node::tree(id, node_type, label, position, children).id == id,
        node::tree(id, node_type, label, position, children).node_type == node_type,
        node::tree(id, node_type, label, position, children).label == label,
        node::tree(id, node_type, label, position, children).position == position,
        node::tree(id, node_type, label, position, children).children == children,
        node::span(start, end, end_col).start_line == start,
        node::span(start, end, end_col).start_col == 0,
        node::span(start, end, end_col).end_line == end,
        node::span(start, end, end_col).end_col == end_col,
{
}

} // verus!
