use abap_parser::node::SemanticNode;
use abap_parser::scanner::{
    last_line_number, line_action, parse_abap_fallback, push_statement, push_to, BlockKind, Frame,
    LineAction, Scanner,
};
use abap_parser::statement::{
    data_label, extract_name, keyword, signature_children, statement_node, write_label,
};

/// One line for each node: identifier, type, label and span, by depth.
fn dump(node: &SemanticNode, depth: usize, out: &mut Vec<String>) {
    let p = node.position;
    out.push(format!(
        "{}{} {} {:?} {}:{}-{}:{}",
        "  ".repeat(depth),
        node.id,
        node.node_type,
        node.label,
        p.start_line,
        p.start_col,
        p.end_line,
        p.end_col
    ));
    for child in &node.children {
        dump(child, depth + 1, out);
    }
}

fn scan(source: &str) -> Vec<String> {
    let mut out = Vec::new();
    dump(&parse_abap_fallback(source), 0, &mut out);
    out
}

fn ids(node: &SemanticNode, out: &mut Vec<String>) {
    out.push(node.id.clone());
    for child in &node.children {
        ids(child, out);
    }
}

fn has_twice(source: &str) -> bool {
    let mut all = Vec::new();
    ids(&parse_abap_fallback(source), &mut all);
    let n = all.len();
    all.sort();
    all.dedup();
    all.len() < n
}

/// Types and labels, without identifiers and positions.
fn contents(node: &SemanticNode) -> String {
    let below: Vec<String> = node.children.iter().map(contents).collect();
    format!("{} {:?} [{}]", node.node_type, node.label, below.join(", "))
}

const CLASSES: &str = "REPORT zmyreport.\n\
    \nCLASS zcl_manager DEFINITION.\n\
    PUBLIC SECTION.\n  METHODS get_data.\n\
    ENDCLASS.\n\
    \nCLASS zcl_manager IMPLEMENTATION.\n\
    METHOD get_data.\n    WRITE: 'Hello'.\n  ENDMETHOD.\n\
    ENDCLASS.\n\
    \nFORM my_subroutine.\n  WRITE: 'sub'.\nENDFORM.\n";

#[test]
fn whole_source() {
    assert_eq!(
        scan(CLASSES),
        vec![
            "0 program \"program\" 0:0-15:0",
            "  0.0 report \"ZMYREPORT\" 0:0-0:0",
            "  0.1 class_definition \"ZCL_MANAGER\" 2:0-5:0",
            "    0.1.0 statement \"PUBLIC SECTION\" 3:0-3:15",
            "    0.1.1 method_signature \"GET_DATA\" 4:0-4:19",
            "  0.2 class_impl \"ZCL_MANAGER\" 7:0-11:0",
            "    0.2.0 method \"GET_DATA\" 8:0-10:0",
            "      0.2.0.0 write_statement \"'Hello'\" 9:0-9:19",
            "  0.3 form \"MY_SUBROUTINE\" 13:0-15:0",
            "    0.3.0 write_statement \"'sub'\" 14:0-14:15",
        ]
    );
}

#[test]
fn signatures_and_bodies() {
    let source = "FORM greet USING lv_name TYPE string.\n  DATA(lv_msg) = |Hello, { lv_name }!|.\n  \
                  WRITE: lv_msg.\n  lv_x = 1.\nENDFORM.\n";
    assert_eq!(
        scan(source),
        vec![
            "0 program \"program\" 0:0-4:0",
            "  0.0 form \"GREET\" 0:0-4:0",
            "    0.0.0 signature \"USING LV_NAME TYPE STRING\" 0:0-0:37",
            "    0.0.1 data_declaration \"LV_MSG\" 1:0-1:39",
            "    0.0.2 write_statement \"lv_msg\" 2:0-2:16",
            "    0.0.3 assignment_statement \"lv_x = 1\" 3:0-3:11",
        ]
    );
}

#[test]
fn every_kind_of_block() {
    let source = "interface zif.\nendinterface.\nfunction z_f.\nendfunction.\nmodule m output.\n\
                  endmodule.\nprogram p.\n";
    assert_eq!(
        scan(source),
        vec![
            "0 program \"program\" 0:0-6:0",
            "  0.0 interface \"ZIF\" 0:0-1:0",
            "  0.1 function_module \"Z_F\" 2:0-3:0",
            "  0.2 module \"M\" 4:0-5:0",
            "    0.2.0 signature \"OUTPUT\" 4:0-4:16",
            "  0.3 report \"P\" 6:0-6:0",
        ]
    );
}

#[test]
fn comments_and_empty_lines_only_move() {
    let plain = "FORM a.\n  x = 1.\nENDFORM.";
    let commented = "* one\n\nFORM a.\n   \" two\n\n  x = 1.\n* three\nENDFORM.\n\" four";
    assert_eq!(
        contents(&parse_abap_fallback(plain)),
        contents(&parse_abap_fallback(commented))
    );
    assert_eq!(
        scan(commented),
        vec![
            "0 program \"program\" 0:0-8:0",
            "  0.0 form \"A\" 2:0-7:0",
            "    0.0.0 assignment_statement \"x = 1\" 5:0-5:8",
        ]
    );
}

#[test]
fn changes_show() {
    let before = parse_abap_fallback("FORM a.\n  x = 1.\nENDFORM.");
    let body = parse_abap_fallback("FORM a.\n  x = 2.\nENDFORM.");
    let signature = parse_abap_fallback("FORM a USING b.\n  x = 1.\nENDFORM.");
    let name = parse_abap_fallback("FORM c.\n  x = 1.\nENDFORM.");
    for after in [&body, &signature, &name] {
        assert_ne!(contents(&before), contents(after));
    }
}

/// The types and labels of the nodes, each node before those below it.
fn listed(node: &SemanticNode, out: &mut Vec<(String, String)>) {
    out.push((node.node_type.clone(), node.label.clone()));
    for child in &node.children {
        listed(child, out);
    }
}

#[test]
fn order_is_kept() {
    let source = "REPORT r.\nCLASS c IMPLEMENTATION.\nMETHOD m USING x.\na = 1.\nb = 2.\nENDMETHOD.\n\
                  ENDCLASS.\nFORM f.\nWRITE y.";
    let mut found = Vec::new();
    listed(&parse_abap_fallback(source), &mut found);
    let labels: Vec<&str> = found.iter().map(|(_, label)| label.as_str()).collect();
    assert_eq!(labels, vec!["program", "R", "C", "M", "USING X", "a = 1", "b = 2", "F", "y"]);
    let before = parse_abap_fallback("FORM f.\na = 1.\nb = 2.\nENDFORM.");
    let after = parse_abap_fallback("FORM f.\nb = 2.\na = 1.\nENDFORM.");
    assert_ne!(contents(&before), contents(&after));
}

#[test]
fn keywords_ignore_case() {
    assert_eq!(
        scan("Class a Definition.\n  mEthods b.\nEndClass."),
        scan("CLASS A DEFINITION.\n  METHODS B.\nENDCLASS.")
    );
}

#[test]
fn open_blocks_end_with_the_source() {
    assert_eq!(
        scan("CLASS a IMPLEMENTATION.\n METHOD m.\n  x = 1.\n\n"),
        vec![
            "0 program \"program\" 0:0-3:0",
            "  0.0.0 method \"M\" 1:0-3:0",
            "    0.0.0.0 assignment_statement \"x = 1\" 2:0-2:8",
            "  0.0 class_impl \"A\" 0:0-3:0",
        ]
    );
}

#[test]
fn stray_ends_are_ignored() {
    assert_eq!(
        scan("ENDCLASS.\nENDMETHOD.\nENDFORM.\nx = 1.\nREPORT r."),
        vec!["0 program \"program\" 0:0-4:0", "  0.0 report \"R\" 4:0-4:0"]
    );
}

#[test]
fn a_method_outside_a_class_closes_into_the_program() {
    assert_eq!(
        scan("FORM f.\nENDMETHOD.\nMETHOD m."),
        vec!["0 program \"program\" 0:0-2:0", "  0.0 form \"F\" 0:0-1:0"]
    );
}

#[test]
fn keywords_out_of_place_are_statements() {
    assert_eq!(
        scan("FORM f.\nREPORT r.\nINTERFACE i.\nFORM g.\nCLASS c.\nMETHOD.\nENDFORM."),
        vec![
            "0 program \"program\" 0:0-6:0",
            "  0.0 form \"F\" 0:0-6:0",
            "    0.0.0 statement \"REPORT r\" 1:0-1:9",
            "    0.0.1 statement \"INTERFACE i\" 2:0-2:12",
            "    0.0.2 statement \"FORM g\" 3:0-3:7",
            "    0.0.3 statement \"CLASS c\" 4:0-4:8",
            "    0.0.4 statement \"METHOD\" 5:0-5:7",
        ]
    );
    assert_eq!(scan("FUNCTION POOL.\nx = 1.").len(), 3);
    assert_eq!(scan("FUNCTION POOL z.\nx = 1."), vec!["0 program \"program\" 0:0-1:0"]);
}

#[test]
fn a_class_inside_a_block_is_numbered_below_the_program() {
    assert_eq!(
        scan("FORM f.\nCLASS c DEFINITION.\nx = 1.\nENDCLASS.\nENDFORM."),
        vec![
            "0 program \"program\" 0:0-4:0",
            "  0.1 class_definition \"C\" 1:0-3:0",
            "    0.1.0 assignment_statement \"x = 1\" 2:0-2:6",
            "  0.0 form \"F\" 0:0-4:0",
        ]
    );
}

#[test]
fn identifiers_are_unique_but_for_cut_off_methods() {
    assert!(!has_twice(CLASSES));
    assert!(!has_twice("CLASS a DEFINITION.\nCLASS b DEFINITION.\nMETHOD m.\nENDMETHOD.\nENDCLASS."));
    assert!(!has_twice("CLASS a IMPLEMENTATION.\nMETHOD x.\nENDCLASS.\nENDCLASS."));
    assert!(has_twice("CLASS a IMPLEMENTATION.\nMETHOD x.\nENDCLASS.\nMETHOD y.\nENDMETHOD.\nENDCLASS."));
}

const UNRULY: &str = "REPORT a.\nCLASS c IMPLEMENTATION.\n METHOD m USING x.\n  y = 1.\n  METHOD n.\n\
    WRITE z.\nENDMETHOD.\nCLASS d DEFINITION.\n METHODS e.\nENDMETHOD.\nENDCLASS.\n\
    INTERFACE i.\nMODULE o.\nFUNCTION f.\n.\nENDFORM.\n\n";

fn nests(node: &SemanticNode) -> bool {
    let p = node.position;
    p.start_line <= p.end_line
        && node.children.iter().all(|c| {
            nests(c) && p.start_line <= c.position.start_line && c.position.end_line <= p.end_line
        })
}

fn in_order(node: &SemanticNode) -> bool {
    node.children
        .windows(2)
        .all(|pair| pair[0].position.end_line < pair[1].position.start_line)
        && node.children.iter().all(in_order)
}

/// Whether two trees differ in the case of their labels at most, and in that
/// only where the label is taken from a statement as it stands.
fn same_but_case(a: &SemanticNode, b: &SemanticNode) -> bool {
    let keeps = ["write_statement", "assignment_statement", "statement"];
    a.id == b.id
        && a.node_type == b.node_type
        && a.position == b.position
        && a.label.eq_ignore_ascii_case(&b.label)
        && (keeps.contains(&a.node_type.as_str()) || a.label == b.label)
        && a.children.len() == b.children.len()
        && a.children.iter().zip(&b.children).all(|(x, y)| same_but_case(x, y))
}

#[test]
fn case_changes_no_structure() {
    let inline = "form a using b.\n  data(lv_x) = f( y ).\n  data z type i.\n  methods m.\nendform.";
    for source in [CLASSES, UNRULY, inline] {
        let upper = source.to_ascii_uppercase();
        assert!(same_but_case(&parse_abap_fallback(source), &parse_abap_fallback(&upper)));
    }
    assert_eq!(scan(inline)[3], "    0.0.1 data_declaration \"LV_X\" 1:0-1:22");
    let kept = parse_abap_fallback("FORM a.\n  call x.\nENDFORM.");
    assert_eq!(kept.children[0].children[0].label, "call x");
}

#[test]
fn labels_follow_the_words() {
    let empty = |source: &str| {
        let found = scan(source);
        found.iter().any(|line| line.contains("\"\""))
    };
    assert!(!empty(CLASSES));
    assert!(empty("FORM ,.\nENDFORM."));
    assert!(empty("REPORT ."));
    for statement in ["..", "WRITE.", "WRITE: .", "METHODS ,."] {
        assert!(empty(&format!("FORM f.\n{}\nENDFORM.", statement)));
    }
    for statement in [". .", "WRITE: x", "METHODS.", "DATA.", "DATA(\u{df}) = 1.", "x"] {
        assert!(!empty(&format!("FORM f.\n{}\nENDFORM.", statement)));
    }
}

#[test]
fn spans_nest_and_siblings_are_in_order() {
    for source in [CLASSES, UNRULY] {
        let root = parse_abap_fallback(source);
        assert!(nests(&root));
        assert!(root.children.iter().all(in_order));
    }
    assert!(in_order(&parse_abap_fallback(CLASSES)));
    for source in [CLASSES, UNRULY, "CLASS a IMPLEMENTATION.\nMETHOD m.\nx = 1."] {
        let ends: Vec<u32> =
            parse_abap_fallback(source).children.iter().map(|n| n.position.end_line).collect();
        assert!(ends.windows(2).all(|pair| pair[0] <= pair[1]));
    }
}

#[test]
fn nothing_is_lost() {
    let mut found = Vec::new();
    dump(&parse_abap_fallback(UNRULY), 0, &mut found);
    let mut entries: Vec<String> = found
        .iter()
        .map(|line| {
            let fields: Vec<&str> = line.trim_start().splitn(2, ' ').collect();
            let end = fields[1].rfind(' ').unwrap();
            fields[1][..end].to_string()
        })
        .collect();
    entries.sort();
    assert_eq!(
        entries,
        vec![
            "assignment_statement \"y = 1\"",
            "class_definition \"D\"",
            "class_impl \"C\"",
            "method \"M\"",
            "method \"N\"",
            "method_signature \"E\"",
            "program \"program\"",
            "report \"A\"",
            "signature \"USING X\"",
            "statement \"\"",
            "statement \"FUNCTION f\"",
            "statement \"INTERFACE i\"",
            "statement \"MODULE o\"",
            "write_statement \"z\"",
        ]
    );
}

#[test]
fn lines_may_end_with_carriage_returns() {
    assert_eq!(
        scan("FORM a.\r\n  x = 1.\r\nENDFORM.\r\n"),
        vec![
            "0 program \"program\" 0:0-2:0",
            "  0.0 form \"A\" 0:0-2:0",
            "    0.0.0 assignment_statement \"x = 1\" 1:0-1:8",
        ]
    );
}

#[test]
fn columns_count_bytes_and_upper_case_is_unicode() {
    assert_eq!(
        scan("FORM gr\u{fc}\u{df}e.\n  x = '\u{e9}'.\nENDFORM."),
        vec![
            "0 program \"program\" 0:0-2:0",
            "  0.0 form \"GR\u{dc}SSE\" 0:0-2:0",
            "    0.0.0 assignment_statement \"x = '\u{e9}'\" 1:0-1:11",
        ]
    );
}

#[test]
fn line_actions() {
    let act = |line: &str, nested: bool| {
        let words: Vec<&str> = line.split_whitespace().collect();
        line_action(&words, nested)
    };
    assert_eq!(act("REPORT Z.", false), LineAction::Report);
    assert_eq!(act("PROGRAM Z.", false), LineAction::Report);
    assert_eq!(act("REPORT.", false), LineAction::Ignore);
    assert_eq!(act("REPORT Z.", true), LineAction::Statement);
    assert_eq!(act("CLASS C IMPLEMENTATION.", true), LineAction::Open(BlockKind::ClassImpl));
    assert_eq!(act("CLASS C DEFINITION", false), LineAction::Open(BlockKind::ClassDefinition));
    assert_eq!(act("CLASS C.", false), LineAction::Ignore);
    assert_eq!(act("INTERFACE I.", false), LineAction::Open(BlockKind::Interface));
    assert_eq!(act("METHOD M.", true), LineAction::Open(BlockKind::Method));
    assert_eq!(act("METHOD M.", false), LineAction::Ignore);
    assert_eq!(act("FORM F.", false), LineAction::Open(BlockKind::Form));
    assert_eq!(act("FUNCTION F.", false), LineAction::Open(BlockKind::FunctionModule));
    assert_eq!(act("FUNCTION POOL", false), LineAction::Ignore);
    assert_eq!(act("FUNCTION POOL.", false), LineAction::Open(BlockKind::FunctionModule));
    assert_eq!(act("MODULE M.", false), LineAction::Open(BlockKind::Module));
    for end in ["ENDCLASS.", "ENDINTERFACE.", "ENDFORM.", "ENDFUNCTION.", "ENDMODULE.X"] {
        assert_eq!(act(end, true), LineAction::Close);
        assert_eq!(act(end, false), LineAction::Close);
    }
    assert_eq!(act("ENDMETHOD.", true), LineAction::CloseMethod);
    assert_eq!(act("X = 1.", true), LineAction::Statement);
    assert_eq!(act("X = 1.", false), LineAction::Ignore);
}

#[test]
fn block_names() {
    let names: Vec<&str> = [
        BlockKind::ClassDefinition,
        BlockKind::ClassImpl,
        BlockKind::Interface,
        BlockKind::Method,
        BlockKind::Form,
        BlockKind::FunctionModule,
        BlockKind::Module,
    ]
    .iter()
    .map(|kind| kind.as_str())
    .collect();
    assert_eq!(
        names,
        vec![
            "class_definition",
            "class_impl",
            "interface",
            "method",
            "form",
            "function_module",
            "module"
        ]
    );
}

fn frame(id: &str) -> Frame {
    Frame {
        id: id.to_string(),
        node_type: "form",
        label: "F".to_string(),
        start_line: 3,
        children: Vec::new(),
    }
}

#[test]
fn nodes_go_to_the_innermost_frame() {
    let node = || statement_node("9", "x = 1.", "X = 1.", 4, 6);
    let mut stack = vec![frame("0.0"), frame("0.0.0")];
    let mut roots = Vec::new();
    push_to(&mut stack, &mut roots, node());
    assert!(roots.is_empty() && stack[0].children.is_empty());
    assert_eq!(stack[1].children.len(), 1);
    let mut empty = Vec::new();
    push_to(&mut empty, &mut roots, node());
    assert_eq!(roots.len(), 1);
    push_statement(&mut stack, "y = 2.", "Y = 2.", 5, 7);
    assert_eq!(stack[1].children[1].id, "0.0.0.1");
    push_statement(&mut empty, "y = 2.", "Y = 2.", 5, 7);
    assert!(empty.is_empty());
}

#[test]
fn frames_close_at_a_line() {
    let node = frame("0.7").close(9);
    assert_eq!((node.id.as_str(), node.node_type.as_str(), node.label.as_str()), ("0.7", "form", "F"));
    assert_eq!((node.position.start_line, node.position.end_line), (3, 9));
}

#[test]
fn scanner_steps() {
    let mut scanner = Scanner::new();
    scanner.scan_line(0, "form a.", "FORM A.");
    assert_eq!((scanner.stack.len(), scanner.roots.len(), scanner.counter), (1, 0, 1));
    scanner.scan_line(1, "endform.", "ENDFORM.");
    assert_eq!((scanner.stack.len(), scanner.roots.len(), scanner.counter), (0, 1, 1));
    scanner.add_report(&["REPORT", "R."], 2);
    scanner.open_block(BlockKind::ClassImpl, &["CLASS", "C", "IMPLEMENTATION."], 3, 9);
    scanner.open_block(BlockKind::Method, &["METHOD", "M."], 4, 9);
    scanner.close_method(5);
    assert_eq!(scanner.stack[0].children[0].id, "0.2.0");
    scanner.close_block(6);
    let roots = scanner.finish(7);
    let found: Vec<&str> = roots.iter().map(|n| n.id.as_str()).collect();
    assert_eq!(found, vec!["0.0", "0.1", "0.2"]);
}

#[test]
fn last_lines() {
    assert_eq!(last_line_number(0), 0);
    assert_eq!(last_line_number(1), 0);
    assert_eq!(last_line_number(5), 4);
}

#[test]
fn keywords_lose_punctuation() {
    assert_eq!(keyword("WRITE:"), "WRITE");
    assert_eq!(keyword("ENDFORM.X"), "ENDFORM");
    assert_eq!(keyword("A:."), "A");
    for word in ["ENDFORM", "WRITE:", "A.B", ""] {
        assert_eq!(keyword(&format!("{}.x:y.", word)), keyword(word));
        assert_eq!(keyword(&format!("{}:", word)), keyword(word));
    }
    assert_eq!(keyword("."), "");
    assert_eq!(keyword(""), "");
}

#[test]
fn names_lose_punctuation() {
    assert_eq!(extract_name(&["FORM", "F.,."], 1), "F");
    assert_eq!(extract_name(&["FORM", "F.G."], 1), "F.G");
    assert_eq!(extract_name(&["FORM"], 1), "(anonymous)");
    assert_eq!(extract_name(&["METHOD", "."], 1), "");
}

#[test]
fn signatures_join_words() {
    let words = ["FORM", "F", "USING", "A,", ".", "B."];
    let nodes = signature_children("0.4", &words, 2, 3, 20);
    assert_eq!(nodes.len(), 1);
    assert_eq!(nodes[0].id, "0.4.0");
    assert_eq!(nodes[0].node_type, "signature");
    assert_eq!(nodes[0].label, "USING A B");
    assert_eq!(nodes[0].position.end_col, 20);
    assert!(signature_children("0.4", &["FORM", "F", "."], 2, 3, 20).is_empty());
    assert!(signature_children("0.4", &["FORM"], 2, 3, 20).is_empty());
}

#[test]
fn inline_declarations() {
    assert_eq!(data_label("DATA(lv_x) = 1."), Some("LV_X".to_string()));
    assert_eq!(data_label("DATA( lv_\u{e9} ) = f( )."), Some("LV_\u{c9}".to_string()));
    assert_eq!(data_label("DATA( ) = 1."), None);
    assert_eq!(data_label("DATA x TYPE i."), None);
    assert_eq!(data_label("DATA(x"), None);
    assert_eq!(data_label(") ("), None);
}

#[test]
fn write_labels() {
    assert_eq!(write_label("WRITE: 'a.b'."), "'a.b'");
    assert_eq!(write_label("write x."), "x");
    assert_eq!(write_label("WRITE."), "");
    assert_eq!(write_label("WRITE:: / x .."), "/ x");
}

#[test]
fn statement_types() {
    let parts = |text: &str| {
        let node = statement_node("0.0.0", text, &text.to_uppercase(), 1, 2);
        (node.node_type, node.label)
    };
    let pair = |a: &str, b: &str| (a.to_string(), b.to_string());
    assert_eq!(parts("data x type i."), pair("data_declaration", "DATA X TYPE I"));
    assert_eq!(parts("DATA: x, y."), pair("data_declaration", "DATA: X, Y"));
    assert_eq!(parts("data(x) = 1."), pair("data_declaration", "X"));
    assert_eq!(parts("Write 'x'."), pair("write_statement", "'x'"));
    assert_eq!(parts("METHODS get_data, put."), pair("method_signature", "GET_DATA"));
    assert_eq!(parts("METHODS."), pair("method_signature", "(anonymous)"));
    assert_eq!(parts("x = y."), pair("assignment_statement", "x = y"));
    assert_eq!(parts("CALL METHOD m."), pair("statement", "CALL METHOD m"));
    assert_eq!(parts("."), pair("statement", ""));
}
