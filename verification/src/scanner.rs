//! The line scanner: a conservative parser that recognises blocks by the
//! keyword of each line and keeps every other line of a block as a statement.
use crate::node;
use crate::node::{Position, SemanticNode, SemanticTree};
use crate::statement;
use crate::text;
use vstd::prelude::*;

verus! {

// ---------------------------------------------------------------------------
// Blocks and line actions
// ---------------------------------------------------------------------------

/// The kinds of blocks that the scanner recognises.
#[derive(Clone, Copy, Debug, PartialEq, Eq, Structural)]
pub enum BlockKind {
    ClassDefinition,
    ClassImpl,
    Interface,
    Method,
    Form,
    FunctionModule,
    Module,
}

impl BlockKind {
    /// The node type of the block.
    pub open spec fn name(self) -> Seq<char> {
        match self {
            BlockKind::ClassDefinition => "class_definition"@,
            BlockKind::ClassImpl => "class_impl"@,
            BlockKind::Interface => "interface"@,
            BlockKind::Method => "method"@,
            BlockKind::Form => "form"@,
            BlockKind::FunctionModule => "function_module"@,
            BlockKind::Module => "module"@,
        }
    }

    /// Whether the block is a part of a class.
    pub open spec fn is_class(self) -> bool {
        self is ClassDefinition || self is ClassImpl
    }

    /// Returns the node type of the block.
    pub fn as_str(self) -> (r: &'static str)
        ensures
            r@ == self.name(),
    {
        match self {
            BlockKind::ClassDefinition => "class_definition",
            BlockKind::ClassImpl => "class_impl",
            BlockKind::Interface => "interface",
            BlockKind::Method => "method",
            BlockKind::Form => "form",
            BlockKind::FunctionModule => "function_module",
            BlockKind::Module => "module",
        }
    }
}

/// What a line makes the scanner do.
#[derive(Clone, Copy, Debug, PartialEq, Eq, Structural)]
pub enum LineAction {
    /// Add a node for the program declaration.
    Report,
    /// Open a block.
    Open(BlockKind),
    /// Close the innermost block and add it to the program.
    Close,
    /// Close the innermost block and add it to the block around it.
    CloseMethod,
    /// Add the line to the innermost block as a statement.
    Statement,
    /// Nothing.
    Ignore,
}

/// The action for a line with the given words in upper case, where `nested`
/// tells whether a block is open.
///
/// A keyword that does not apply where it stands is an ordinary statement.
pub open spec fn action_of(words: Seq<Seq<char>>, nested: bool) -> LineAction {
    let kw = statement::keyword_of(words[0]);
    let named = words.len() >= 2;
    if !nested && (kw == "REPORT"@ || kw == "PROGRAM"@) {
        if named {
            LineAction::Report
        } else {
            LineAction::Ignore
        }
    } else if kw == "CLASS"@ && words.len() >= 3 {
        LineAction::Open(
            if text::has_prefix(words[2], "IMPL"@) {
                BlockKind::ClassImpl
            } else {
                BlockKind::ClassDefinition
            },
        )
    } else if kw == "INTERFACE"@ && !nested && named {
        LineAction::Open(BlockKind::Interface)
    } else if kw == "METHOD"@ && nested && named {
        LineAction::Open(BlockKind::Method)
    } else if kw == "FORM"@ && !nested && named {
        LineAction::Open(BlockKind::Form)
    } else if kw == "FUNCTION"@ && !nested && named && words[1] != "POOL"@ {
        LineAction::Open(BlockKind::FunctionModule)
    } else if kw == "MODULE"@ && !nested && named {
        LineAction::Open(BlockKind::Module)
    } else if kw == "ENDCLASS"@ || kw == "ENDINTERFACE"@ || kw == "ENDFORM"@ || kw
        == "ENDFUNCTION"@ || kw == "ENDMODULE"@ {
        LineAction::Close
    } else if kw == "ENDMETHOD"@ {
        LineAction::CloseMethod
    } else if nested {
        LineAction::Statement
    } else {
        LineAction::Ignore
    }
}

/// Tells what a line with the given words in upper case makes the scanner do,
/// where `nested` tells whether a block is open.
pub fn line_action(words: &[&str], nested: bool) -> (r: LineAction)
    requires
        words@.len() > 0,
    ensures
        r == action_of(text::texts(words@), nested),
{
    let ghost all = text::texts(words@);
    let named: bool = words.len() >= 2;
    let kw = statement::keyword(words[0]);
    proof {
        assert(all[0] == words@[0]@);
        assert(words@.len() >= 2 ==> all[1] == words@[1]@);
        assert(words@.len() >= 3 ==> all[2] == words@[2]@);
    }
    if !nested && (text::same_text(kw, "REPORT") || text::same_text(kw, "PROGRAM")) {
        if named {
            LineAction::Report
        } else {
            LineAction::Ignore
        }
    } else if words.len() >= 3 && text::same_text(kw, "CLASS") {
        if text::starts_with(words[2], "IMPL") {
            LineAction::Open(BlockKind::ClassImpl)
        } else {
            LineAction::Open(BlockKind::ClassDefinition)
        }
    } else if !nested && named && text::same_text(kw, "INTERFACE") {
        LineAction::Open(BlockKind::Interface)
    } else if nested && named && text::same_text(kw, "METHOD") {
        LineAction::Open(BlockKind::Method)
    } else if !nested && named && text::same_text(kw, "FORM") {
        LineAction::Open(BlockKind::Form)
    } else if !nested && named && text::same_text(kw, "FUNCTION") && !text::same_text(
        words[1],
        "POOL",
    ) {
        LineAction::Open(BlockKind::FunctionModule)
    } else if !nested && named && text::same_text(kw, "MODULE") {
        LineAction::Open(BlockKind::Module)
    } else if text::same_text(kw, "ENDCLASS") || text::same_text(kw, "ENDINTERFACE")
        || text::same_text(kw, "ENDFORM") || text::same_text(kw, "ENDFUNCTION")
        || text::same_text(kw, "ENDMODULE") {
        LineAction::Close
    } else if text::same_text(kw, "ENDMETHOD") {
        LineAction::CloseMethod
    } else if nested {
        LineAction::Statement
    } else {
        LineAction::Ignore
    }
}

// ---------------------------------------------------------------------------
// State
// ---------------------------------------------------------------------------

/// An open block.
#[derive(Debug)]
pub struct Frame {
    pub id: String,
    pub node_type: &'static str,
    pub label: String,
    pub start_line: u32,
    pub children: Vec<SemanticNode>,
}

/// What a `Frame` stands for.
#[verifier::ext_equal]
pub struct OpenBlock {
    pub id: Seq<char>,
    pub node_type: Seq<char>,
    pub label: Seq<char>,
    pub start_line: u32,
    pub children: Seq<SemanticTree>,
}

impl Frame {
    /// The open block that the frame stands for.
    pub open spec fn model(self) -> OpenBlock {
        OpenBlock {
            id: self.id@,
            node_type: self.node_type@,
            label: self.label@,
            start_line: self.start_line,
            children: node::models(self.children@),
        }
    }

    /// Turns the frame into the node of a block that ends on line `end`.
    pub fn close(self, end: u32) -> (r: SemanticNode)
        ensures
            r.model() == self.model().closed(end),
    {
        node::block_node(
            self.id.as_str(),
            self.node_type,
            self.label.as_str(),
            self.start_line,
            end,
            self.children,
        )
    }
}

impl OpenBlock {
    /// The node of the block, where it ends on line `end`.
    pub open spec fn closed(self, end: u32) -> SemanticTree {
        node::tree(
            self.id,
            self.node_type,
            self.label,
            node::span(self.start_line, end, 0),
            self.children,
        )
    }

    /// The block with one more child.
    pub open spec fn with_child(self, child: SemanticTree) -> OpenBlock {
        OpenBlock { children: self.children.push(child), ..self }
    }
}

/// The blocks that a stack of frames stands for.
pub open spec fn blocks(stack: Seq<Frame>) -> Seq<OpenBlock> {
    stack.map_values(|f: Frame| f.model())
}

/// The state of the scanner between two lines.
#[derive(Debug)]
pub struct Scanner {
    /// The finished nodes below the program.
    pub roots: Vec<SemanticNode>,
    /// The open blocks, the innermost last.
    pub stack: Vec<Frame>,
    /// The number of nodes that were numbered below the program.
    pub counter: usize,
}

/// What a `Scanner` stands for.
#[verifier::ext_equal]
pub struct ScanState {
    pub roots: Seq<SemanticTree>,
    pub stack: Seq<OpenBlock>,
    pub counter: nat,
}

impl ScanState {
    /// The state before the first line.
    pub open spec fn initial() -> ScanState {
        ScanState { roots: Seq::empty(), stack: Seq::empty(), counter: 0 }
    }

    /// The state with a finished node added to the program.
    pub open spec fn with_root(self, n: SemanticTree) -> ScanState {
        ScanState { roots: self.roots.push(n), ..self }
    }

    /// The state with a finished node added to the innermost open block, or to
    /// the program where none is open.
    pub open spec fn with_node(self, n: SemanticTree) -> ScanState {
        if self.stack.len() > 0 {
            ScanState {
                stack: self.stack.drop_last().push(self.stack.last().with_child(n)),
                ..self
            }
        } else {
            self.with_root(n)
        }
    }

    /// The state without its innermost open block.
    pub open spec fn popped(self) -> ScanState {
        ScanState { stack: self.stack.drop_last(), ..self }
    }

    /// The identifier of the next child of the innermost open block.
    pub open spec fn next_child_id(self) -> Seq<char> {
        node::child_id(self.stack.last().id, self.stack.last().children.len())
    }

    /// The state after a block was opened by a line with the given words.
    pub open spec fn opened(
        self,
        kind: BlockKind,
        words: Seq<Seq<char>>,
        line: u32,
        end_col: u32,
    ) -> ScanState {
        let id = if kind is Method {
            self.next_child_id()
        } else {
            node::child_id("0"@, self.counter)
        };
        let block = OpenBlock {
            id,
            node_type: kind.name(),
            label: statement::name_at(words, 1),
            start_line: line,
            children: if kind.is_class() {
                Seq::empty()
            } else {
                statement::signature_trees(id, words, 2, line, end_col)
            },
        };
        ScanState {
            stack: self.stack.push(block),
            counter: if kind is Method {
                self.counter
            } else {
                self.counter + 1
            },
            ..self
        }
    }

    /// The state after a program declaration with the given words.
    pub open spec fn reported(self, words: Seq<Seq<char>>, line: u32) -> ScanState {
        let report = node::tree(
            node::child_id("0"@, self.counter),
            "report"@,
            statement::name_at(words, 1),
            node::span(line, line, 0),
            Seq::empty(),
        );
        ScanState { counter: self.counter + 1, ..self.with_root(report) }
    }

    /// The state after the innermost block, if one is open, was closed on line
    /// `line` and added to the program.
    pub open spec fn block_closed(self, line: u32) -> ScanState {
        if self.stack.len() > 0 {
            self.popped().with_root(self.stack.last().closed(line))
        } else {
            self
        }
    }

    /// The state after the innermost block, if one is open, was closed on line
    /// `line` and added to the block around it.
    pub open spec fn method_closed(self, line: u32) -> ScanState {
        if self.stack.len() > 0 {
            self.popped().with_node(self.stack.last().closed(line))
        } else {
            self
        }
    }

    /// The state after the action of a line was carried out, given the line
    /// without white space around it and the same in upper case.
    pub open spec fn acted(
        self,
        action: LineAction,
        trimmed: Seq<char>,
        upper: Seq<char>,
        line: u32,
        end_col: u32,
    ) -> ScanState {
        let words = text::words(upper);
        match action {
            LineAction::Report => self.reported(words, line),
            LineAction::Open(kind) => self.opened(kind, words, line, end_col),
            LineAction::Close => self.block_closed(line),
            LineAction::CloseMethod => self.method_closed(line),
            LineAction::Statement => if self.stack.len() > 0 {
                self.with_node(
                    statement::statement_tree(self.next_child_id(), trimmed, upper, line, end_col),
                )
            } else {
                self
            },
            LineAction::Ignore => self,
        }
    }

    /// The state after a line, given its trimmed text in upper case.
    pub open spec fn scanned(self, line: u32, raw: Seq<char>, upper: Seq<char>) -> ScanState {
        let trimmed = text::trim(raw);
        if skipped(trimmed) || text::words(upper).len() == 0 {
            self
        } else {
            self.acted(
                action_of(text::words(upper), self.stack.len() > 0),
                trimmed,
                upper,
                line,
                width(raw),
            )
        }
    }

    /// The nodes of the program after the last line, where the blocks that are
    /// still open end on line `last`, from the innermost outwards.
    pub open spec fn drained(self, last: u32) -> Seq<SemanticTree>
        decreases self.stack.len(),
    {
        if self.stack.len() == 0 {
            self.roots
        } else {
            self.popped().with_root(self.stack.last().closed(last)).drained(last)
        }
    }
}

/// Whether a trimmed line holds no statement: it is empty, or a comment, which
/// begins with an asterisk or a double quote.
pub open spec fn skipped(trimmed: Seq<char>) -> bool {
    trimmed.len() == 0 || trimmed[0] == '*' || trimmed[0] == '"'
}

/// The length of a line in bytes.
pub open spec fn width(raw: Seq<char>) -> u32 {
    (vstd::utf8::encode_utf8(raw).len() as usize) as u32
}

/// Adds `child` to the innermost open frame, or to the finished nodes where
/// the stack is empty.
pub fn push_to(stack: &mut Vec<Frame>, roots: &mut Vec<SemanticNode>, child: SemanticNode)
    ensures
        old(stack)@.len() > 0 ==> *final(roots) == *old(roots) && blocks(final(stack)@) == blocks(
            old(stack)@,
        ).drop_last().push(blocks(old(stack)@).last().with_child(child.model())),
        old(stack)@.len() == 0 ==> *final(stack) == *old(stack) && final(roots)@ == old(
            roots,
        )@.push(child),
{
    let n: usize = stack.len();
    if n > 0 {
        stack[n - 1].children.push(child);
        proof {
            assert(node::models(stack@[n - 1].children@) =~= node::models(
                old(stack)@[n - 1].children@,
            ).push(child.model()));
            assert(blocks(stack@) =~= blocks(old(stack)@).drop_last().push(
                blocks(old(stack)@).last().with_child(child.model()),
            ));
        }
    } else {
        roots.push(child);
    }
}

/// Adds a statement to the innermost open frame, if there is one.
pub fn push_statement(
    stack: &mut Vec<Frame>,
    trimmed: &str,
    upper: &str,
    line: u32,
    end_col: u32,
)
    ensures
        old(stack)@.len() > 0 ==> ({
            let top = blocks(old(stack)@).last();
            let id = node::child_id(top.id, top.children.len());
            blocks(final(stack)@) == blocks(old(stack)@).drop_last().push(
                top.with_child(
                    statement::statement_tree(id, trimmed@, upper@, line, end_col),
                ),
            )
        }),
        old(stack)@.len() == 0 ==> *final(stack) == *old(stack),
{
    let n: usize = stack.len();
    if n > 0 {
        let id = node::make_child_id(stack[n - 1].id.as_str(), stack[n - 1].children.len());
        let child = statement::statement_node(id.as_str(), trimmed, upper, line, end_col);
        let mut roots: Vec<SemanticNode> = Vec::new();
        push_to(stack, &mut roots, child);
    }
}

impl Scanner {
    /// The state that the scanner stands for.
    pub open spec fn model(self) -> ScanState {
        ScanState {
            roots: node::models(self.roots@),
            stack: blocks(self.stack@),
            counter: self.counter as nat,
        }
    }

    /// A scanner before the first line.
    pub fn new() -> (r: Scanner)
        ensures
            r.model() == ScanState::initial(),
    {
        let r = Scanner { roots: Vec::new(), stack: Vec::new(), counter: 0 };
        proof {
            assert(r.model() =~= ScanState::initial());
        }
        r
    }

    /// Opens a block on a line with the given words in upper case.
    pub fn open_block(&mut self, kind: BlockKind, words: &[&str], line: u32, end_col: u32)
        requires
            kind is Method ==> old(self).stack@.len() > 0,
            old(self).counter < usize::MAX,
        ensures
            final(self).model() == old(self).model().opened(
                kind,
                text::texts(words@),
                line,
                end_col,
            ),
    {
        let id: String;
        let mut next: usize = self.counter;
        match kind {
            BlockKind::Method => {
                let n: usize = self.stack.len();
                let parent: &Frame = &self.stack[n - 1];
                id = node::make_child_id(parent.id.as_str(), parent.children.len());
            },
            _ => {
                id = node::make_child_id("0", self.counter);
                next = next + 1;
            },
        }
        let children: Vec<SemanticNode> = match kind {
            BlockKind::ClassDefinition | BlockKind::ClassImpl => Vec::new(),
            _ => statement::signature_children(id.as_str(), words, 2, line, end_col),
        };
        let frame = Frame {
            id,
            node_type: kind.as_str(),
            label: statement::extract_name(words, 1),
            start_line: line,
            children,
        };
        self.stack.push(frame);
        self.counter = next;
        proof {
            let before = old(self).model();
            if kind is Method {
                assert(before.stack.last() == old(self).stack@.last().model());
            }
            if kind.is_class() {
                assert(node::models(frame.children@) =~= Seq::empty());
            }
            assert(self.model().stack =~= before.stack.push(frame.model()));
            assert(self.model() =~= before.opened(kind, text::texts(words@), line, end_col));
        }
    }

    /// Adds the program declaration to the finished nodes.
    pub fn add_report(&mut self, words: &[&str], line: u32)
        requires
            old(self).counter < usize::MAX,
        ensures
            final(self).model() == old(self).model().reported(text::texts(words@), line),
    {
        let id = node::make_child_id("0", self.counter);
        let label = statement::extract_name(words, 1);
        let report = node::leaf(id.as_str(), "report", label.as_str(), line);
        self.roots.push(report);
        self.counter = self.counter + 1;
        proof {
            assert(node::models(self.roots@) =~= node::models(old(self).roots@).push(
                report.model(),
            ));
        }
    }

    /// Closes the innermost block on line `line` and adds it to the finished
    /// nodes.
    pub fn close_block(&mut self, line: u32)
        ensures
            final(self).model() == old(self).model().block_closed(line),
            old(self).stack@.len() > 0 ==> final(self).stack@.len() == old(self).stack@.len() - 1,
    {
        if let Some(frame) = self.stack.pop() {
            let closed = frame.close(line);
            self.roots.push(closed);
            proof {
                assert(node::models(self.roots@) =~= node::models(old(self).roots@).push(
                    closed.model(),
                ));
                assert(blocks(self.stack@) =~= blocks(old(self).stack@).drop_last());
            }
        }
    }

    /// Closes the innermost block on line `line` and adds it to the block
    /// around it.
    pub fn close_method(&mut self, line: u32)
        ensures
            final(self).model() == old(self).model().method_closed(line),
    {
        if let Some(frame) = self.stack.pop() {
            let ghost popped = blocks(self.stack@);
            let closed = frame.close(line);
            push_to(&mut self.stack, &mut self.roots, closed);
            proof {
                assert(popped =~= blocks(old(self).stack@).drop_last());
                if popped.len() == 0 {
                    assert(node::models(self.roots@) =~= node::models(old(self).roots@).push(
                        closed.model(),
                    ));
                }
            }
        }
    }

    /// Takes the scanner over a line, given its trimmed text in upper case.
    pub fn scan_line(&mut self, line: u32, raw_line: &str, upper: &str)
        requires
            old(self).counter < usize::MAX,
        ensures
            final(self).model() == old(self).model().scanned(line, raw_line@, upper@),
            final(self).counter <= old(self).counter + 1,
    {
        let trimmed = text::trimmed(raw_line);
        if trimmed.is_empty() {
            return;
        }
        let first = trimmed.get_char(0);
        if first == '*' || first == '"' {
            return;
        }
        let words = text::split_words(upper);
        proof {
            assert(text::texts(words@).len() == words@.len());
        }
        if words.len() == 0 {
            return;
        }
        let end_col: u32 = raw_line.len() as u32;
        match line_action(words.as_slice(), self.stack.len() > 0) {
            LineAction::Report => self.add_report(words.as_slice(), line),
            LineAction::Open(kind) => self.open_block(kind, words.as_slice(), line, end_col),
            LineAction::Close => self.close_block(line),
            LineAction::CloseMethod => self.close_method(line),
            LineAction::Statement => push_statement(&mut self.stack, trimmed, upper, line, end_col),
            LineAction::Ignore => {},
        }
    }

    /// Ends the scan: blocks that are still open end on line `last`.
    pub fn finish(self, last: u32) -> (r: Vec<SemanticNode>)
        ensures
            node::models(r@) == self.model().drained(last),
    {
        let mut scanner = self;
        while scanner.stack.len() > 0
            invariant
                scanner.model().drained(last) == self.model().drained(last),
            decreases scanner.stack@.len(),
        {
            scanner.close_block(last);
        }
        scanner.roots
    }
}

// ---------------------------------------------------------------------------
// Whole sources
// ---------------------------------------------------------------------------

/// The number of the last of `n` lines.
pub open spec fn last_line(n: nat) -> u32 {
    if n == 0 {
        0
    } else {
        (n - 1) as u32
    }
}

/// The state after the first `n` of the given lines.
pub open spec fn scan_lines(lines: Seq<Seq<char>>, n: nat) -> ScanState
    decreases n,
{
    if n == 0 {
        ScanState::initial()
    } else {
        let i = (n - 1) as nat;
        scan_lines(lines, i).scanned(
            i as u32,
            lines[i as int],
            text::upper(text::trim(lines[i as int])),
        )
    }
}

/// The program node with the given nodes below it, for a source whose last
/// line is `last`.
pub open spec fn program(last: u32, children: Seq<SemanticTree>) -> SemanticTree {
    node::tree("0"@, "program"@, "program"@, node::span(0, last, 0), children)
}

/// The tree of a source: the program with what the scanner finds line by line.
pub open spec fn scanned_source(source: Seq<char>) -> SemanticTree {
    let lines = text::lines(source);
    let last = last_line(lines.len());
    program(last, scan_lines(lines, lines.len()).drained(last))
}

/// Builds the program node.
pub fn program_node(last: u32, children: Vec<SemanticNode>) -> (r: SemanticNode)
    ensures
        r.model() == program(last, node::models(children@)),
        r.children == children,
{
    node::build_node(
        "0",
        "program",
        "program",
        Position { start_line: 0, start_col: 0, end_line: last, end_col: 0 },
        children,
    )
}

/// Returns the number of the last of `n` lines.
pub fn last_line_number(n: usize) -> (r: u32)
    ensures
        r == last_line(n as nat),
{
    if n == 0 {
        0
    } else {
        (n - 1) as u32
    }
}

/// Parses a source with the line scanner.
pub fn parse_abap_fallback(source: &str) -> (r: SemanticNode)
    ensures
        r.model() == scanned_source(source@),
{
    let lines = text::split_lines(source);
    let ghost all = text::strings(lines@);
    let last: u32 = last_line_number(lines.len());
    let mut scanner = Scanner::new();
    let mut i: usize = 0;
    while i < lines.len()
        invariant
            i <= lines@.len(),
            all == text::strings(lines@),
            scanner.counter <= i,
            scanner.model() == scan_lines(all, i as nat),
        decreases lines@.len() - i,
    {
        let raw_line: &str = lines[i].as_str();
        let upper = text::uppercase(text::trimmed(raw_line));
        proof {
            assert(all[i as int] == raw_line@);
        }
        scanner.scan_line(i as u32, raw_line, upper.as_str());
        i += 1;
    }
    let roots = scanner.finish(last);
    program_node(last, roots)
}

} // verus!
