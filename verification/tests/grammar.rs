use abap_parser::convert::{
    convert_tree, find_name, is_entity_kind, is_leaf_kind, is_name_kind, is_statement_kind,
    strip_text, strip_write, ts_convert, ts_counts, ts_has_top_level_construct, ts_label, ts_name,
    ts_position, ts_semantic_type, ts_signature_child, ts_trimmed,
};
use abap_parser::node::SemanticNode;
use abap_parser::parser::{
    is_unsupported_line, parse_abap, parse_abap_tree_sitter, source_has_known_unsupported_blocks,
};
use abap_parser::syntax::{parse_tree, Point, Shape, SyntaxNode, SyntaxTree};

/// One line for each node: identifier, type, label and span, by depth.
fn dump(node: &SemanticNode, depth: usize, out: &mut Vec<String>) {
    let p = node.position;
    out.push(format!(
        "{}{} {} {:?} {}:{}-{}:{}",
        "  ".repeat(depth),
        node.id,
        node.node_type,
        node.label,
        p.start_line,
        p.start_col,
        p.end_line,
        p.end_col
    ));
    for child in &node.children {
        dump(child, depth + 1, out);
    }
}

fn lines(node: Option<SemanticNode>) -> Vec<String> {
    let mut out = Vec::new();
    if let Some(node) = node {
        dump(&node, 0, &mut out);
    }
    out
}

fn grammar(source: &str) -> Vec<String> {
    lines(parse_abap_tree_sitter(source))
}

fn plain<'a>(kind: &'a str, text: &'a str, children: Vec<Option<SyntaxNode<'a>>>) -> SyntaxNode<'a> {
    SyntaxNode {
        kind,
        error: false,
        missing: false,
        text,
        name: None,
        start: Point { row: 1, column: 2 },
        end: Point { row: 3, column: 4 },
        children,
    }
}

fn shape(faults: usize, sound: usize) -> Shape {
    let leaf = |error: bool| Some(Shape { error, missing: false, children: vec![] });
    let mut children = Vec::new();
    for _ in 0..faults {
        children.push(leaf(true));
    }
    for _ in 0..sound {
        children.push(leaf(false));
    }
    Shape { error: false, missing: false, children }
}

#[test]
fn reports_statements_and_literals() {
    assert_eq!(
        grammar("REPORT ztest.\nx = 'caf\u{e9}'.\nWRITE x.\n"),
        vec![
            "0 program \"program\" 0:0-3:0",
            "  0.0 report \"ZTEST\" 0:0-0:13",
            "    0.0.0 identifier \"ZTEST\" 0:6-0:12",
            "  0.1 assignment_statement \"x = 'caf\u{e9}'\" 1:0-1:12",
            "    0.1.0 identifier \"X\" 1:0-1:1",
            "    0.1.1 string_literal \"'caf\u{e9}'\" 1:3-1:11",
            "  0.2 write_statement \"WRITE x\" 2:0-2:8",
            "    0.2.0 identifier \"X\" 2:5-2:7",
        ]
    );
}

#[test]
fn classes_and_methods() {
    assert_eq!(
        grammar(
            "CLASS zcl DEFINITION.\n  PUBLIC SECTION.\n  METHODS get_data.\nENDCLASS.\n\n\
             CLASS zcl IMPLEMENTATION.\n  METHOD get_data.\n    lv = 1.\n  DATA x TYPE i.\n  \
             ENDMETHOD.\nENDCLASS.\n"
        ),
        vec![
            "0 program \"program\" 0:0-11:0",
            "  0.0 class_definition \"ZCL\" 0:0-3:9",
            "    0.0.0 signature \"CLASS ZCL DEFINITION\" 0:0-0:9",
            "    0.0.1.0 method \"GET_DATA\" 2:2-2:19",
            "      0.0.1.0.0 signature \"METHODS GET_DATA\" 2:0-2:19",
            "  0.1 class_impl \"ZCL\" 5:0-10:9",
            "    0.1.0 signature \"CLASS ZCL IMPLEMENTATION\" 5:0-5:9",
            "    0.1.1 method \"GET_DATA\" 6:0-9:12",
            "      0.1.1.0 signature \"METHOD GET_DATA\" 6:0-6:12",
            "      0.1.1.1 statement_list \"statement_list\" 7:0-8:16",
            "        0.1.1.1.0 assignment_statement \"lv = 1\" 7:0-7:11",
            "          0.1.1.1.0.0 identifier \"LV\" 7:0-7:6",
            "          0.1.1.1.0.1 numeric_literal \"1\" 7:8-7:10",
            "        0.1.1.1.1 data_declaration \"X\" 8:0-8:16",
            "          0.1.1.1.1.0 identifier \"X\" 8:6-8:8",
        ]
    );
}

#[test]
fn function_modules_and_interfaces() {
    assert_eq!(
        grammar("FUNCTION z_my_func.\n  WRITE: 'x'.\nENDFUNCTION.\n"),
        vec![
            "0 program \"program\" 0:0-3:0",
            "  0.0 function_module \"Z_MY_FUNC\" 0:0-2:12",
            "    0.0.0 signature \"FUNCTION Z_MY_FUNC\" 0:0-0:12",
            "    0.0.1 write_statement \"'x'\" 1:0-1:13",
            "      0.0.1.0 string_literal \"'x'\" 1:8-1:12",
        ]
    );
    assert_eq!(
        grammar("INTERFACE zif.\n  METHODS m.\nENDINTERFACE.\n"),
        vec![
            "0 program \"program\" 0:0-3:0",
            "  0.0 interface \"ZIF\" 0:0-2:13",
            "    0.0.0 signature \"INTERFACE ZIF\" 0:0-0:13",
            "    0.0.1 method \"M\" 1:2-1:12",
            "      0.0.1.0 signature \"METHODS M\" 1:0-1:12",
        ]
    );
    assert_eq!(
        grammar("CALL FUNCTION 'F'.\n"),
        vec![
            "0 program \"program\" 0:0-1:0",
            "  0.0 call_expression \"'F'\" 0:0-0:18",
            "    0.0.0 string_literal \"'F'\" 0:13-0:17",
        ]
    );
}

#[test]
fn errors_and_made_up_nodes_leave_nothing() {
    assert_eq!(
        grammar("REPORT z.\n@@ $$ ((.\n"),
        vec![
            "0 program \"program\" 0:0-2:0",
            "  0.0 report \"Z\" 0:0-1:9",
            "    0.0.0 identifier \"Z\" 0:6-0:8",
        ]
    );
    assert_eq!(
        grammar("REPORT z.\nx = .\n"),
        vec![
            "0 program \"program\" 0:0-2:0",
            "  0.0 report \"Z\" 0:0-0:9",
            "    0.0.0 identifier \"Z\" 0:6-0:8",
            "  0.1 assignment_statement \"x =\" 1:0-1:5",
            "    0.1.0 identifier \"X\" 1:0-1:1",
        ]
    );
}

#[test]
fn sources_that_the_grammar_gives_up() {
    assert!(parse_abap_tree_sitter("nonsense ( ( (\n").is_none());
    assert!(parse_abap_tree_sitter("* only a comment\n").is_none());
    assert!(parse_abap_tree_sitter("").is_none());
}

#[test]
fn trees_are_read_out() {
    let source = "REPORT z.\nx = .\n";
    let tree = parse_tree(source).expect("a tree");
    let root = &tree.root;
    assert_eq!(root.kind, "program");
    assert_eq!(root.text, source);
    assert_eq!((root.start, root.end), (Point { row: 0, column: 0 }, Point { row: 2, column: 0 }));
    assert_eq!(root.children.len(), 2);
    let assignment = root.children[1].as_ref().expect("an assignment");
    assert_eq!(assignment.kind, "assignment");
    assert_eq!(assignment.text, "x = .");
    assert_eq!(assignment.start, Point { row: 1, column: 0 });
    let made_up = assignment.children[1].as_ref().expect("a child");
    assert!(made_up.missing && !made_up.error);
    assert_eq!(made_up.text, "");
    assert_eq!(ts_counts(&tree.shape).1, 1);

    let call = parse_tree("CALL FUNCTION 'F'.\n").expect("a tree");
    let function = call.root.children[0].as_ref().expect("a call");
    assert_eq!(function.name, Some(" 'F'"));
    assert_eq!(function.end, Point { row: 0, column: 18 });

    let broken = parse_tree("nonsense ( ( (\n").expect("a tree");
    assert!(broken.root.children[0].as_ref().expect("an error").error);
    assert!(ts_counts(&broken.shape).1 > 0);
}

#[test]
fn unsupported_blocks() {
    for line in ["FORM f.", "ENDFORM", "MODULE m", "ENDMODULE."] {
        assert!(is_unsupported_line(line));
    }
    for line in ["FORM", "FORMS x", "form f.", "MODULES", " FORM f", ""] {
        assert!(!is_unsupported_line(line));
    }
    assert!(source_has_known_unsupported_blocks("REPORT x.\n  form f."));
    assert!(source_has_known_unsupported_blocks("EndModule"));
    assert!(!source_has_known_unsupported_blocks("x = 1. FORM f."));
    assert!(!source_has_known_unsupported_blocks(""));
    let source = "REPORT ztest.\nENDFORM.\n";
    assert!(parse_abap_tree_sitter(source).is_none());
    assert_eq!(lines(Some(parse_abap(source))).len(), 2);
}

#[test]
fn unsupported_blocks_of_parts() {
    let parts = ["", "x = 1.", "FORM f.", "x\r", "\r", " endform\r", "a\nMODULE m", "FORM\r", "b\n", "\u{e9}\r", "FORM \u{df}\r"];
    for a in parts {
        for b in parts {
            assert_eq!(
                source_has_known_unsupported_blocks(&format!("{}\n{}", a, b)),
                source_has_known_unsupported_blocks(a) || source_has_known_unsupported_blocks(b)
            );
        }
    }
}

#[test]
fn kinds_of_nodes() {
    assert!(is_entity_kind("class_method_declaration") && !is_entity_kind("program"));
    assert!(is_statement_kind("chained_write_statement") && !is_statement_kind("report_statement"));
    assert!(is_leaf_kind("string") && !is_leaf_kind("method_body"));
    assert!(is_name_kind("field_symbol_name") && !is_name_kind("string"));
    let types = [
        ("program", Some("program")),
        ("report_statement", Some("report")),
        ("class_declaration", Some("class_definition")),
        ("class_implementation", Some("class_impl")),
        ("function_implementation", Some("function_module")),
        ("interface_declaration", Some("interface")),
        ("method_implementation", Some("method")),
        ("method_declaration", Some("method")),
        ("class_method_declaration", Some("method")),
        ("method_body", Some("statement_list")),
        ("assignment", Some("assignment_statement")),
        ("chained_variable_declaration", Some("data_declaration")),
        ("variable_declaration", Some("data_declaration")),
        ("chained_write_statement", Some("write_statement")),
        ("write_statement", Some("write_statement")),
        ("call_function", Some("call_expression")),
        ("call_method", Some("call_expression")),
        ("call_method_instance", Some("call_expression")),
        ("call_method_static", Some("call_expression")),
        ("character_literal", Some("string_literal")),
        ("string", Some("string_literal")),
        ("numeric_literal", Some("numeric_literal")),
        ("name", Some("identifier")),
        ("structured_data_object", Some("identifier")),
        ("field_symbol_name", Some("identifier")),
        ("public_section", None),
        ("", None),
    ];
    for (kind, expected) in types {
        assert_eq!(ts_semantic_type(kind), expected);
    }
}

#[test]
fn names_come_from_the_field_then_the_children_then_the_text() {
    let mut node = plain(
        "report_statement",
        " report x. ",
        vec![
            None,
            Some(plain("string", "no", vec![])),
            Some(plain("name", " . ", vec![])),
            Some(plain("name", "zb.", vec![])),
        ],
    );
    node.name = Some(" za. ");
    assert_eq!(find_name(&node), Some("za"));
    assert_eq!(ts_name(&node), "ZA");
    node.name = Some(" . ");
    assert_eq!(ts_name(&node), "ZB");
    node.name = None;
    node.children.clear();
    assert_eq!(ts_name(&node), "REPORT X");
    node.text = " . ";
    assert_eq!(find_name(&node), None);
    assert_eq!(ts_name(&node), "report_statement");
    node.text = "\u{df}\u{e9}";
    assert_eq!(ts_name(&node), "SS\u{c9}");
}

#[test]
fn labels_by_type() {
    let node = plain("write_statement", " WRITE: x . ", vec![]);
    assert_eq!(ts_label(&node, "write_statement"), "x");
    assert_eq!(ts_label(&node, "program"), "program");
    assert_eq!(ts_label(&node, "statement_list"), "statement_list");
    assert_eq!(ts_label(&node, "identifier"), "WRITE: X");
    assert_eq!(ts_label(&node, "method"), "WRITE: X");
    assert_eq!(ts_label(&node, "assignment_statement"), "WRITE: x");
    assert_eq!(ts_trimmed(&node), "WRITE: x");
    assert_eq!(strip_text(" a. . "), "a.");
    assert_eq!(strip_write("write: y"), "y");
    assert_eq!(strip_write("Write: y"), "Write: y");
}

#[test]
fn positions_and_signatures() {
    let node = plain("method_implementation", " method m.\n x.", vec![]);
    let p = ts_position(&node);
    assert_eq!((p.start_line, p.start_col, p.end_line, p.end_col), (1, 2, 3, 4));
    let signature = ts_signature_child("0.2", &node).expect("a signature");
    assert_eq!(lines(Some(signature)), vec!["0.2.0 signature \"METHOD M\" 1:0-1:4"]);
    assert!(ts_signature_child("0.2", &plain("method_implementation", " .\nx", vec![])).is_none());
}

#[test]
fn conversion_of_nodes() {
    let name = || Some(plain("name", "a", vec![]));
    let convert = |node: SyntaxNode| lines(ts_convert(&node, "0"));
    assert!(convert(plain("unknown", "x", vec![])).is_empty());
    assert!(convert(plain("method_body", "x", vec![None])).is_empty());
    assert_eq!(
        convert(plain("unknown", "x", vec![None, name()])),
        vec!["0.1 identifier \"A\" 1:2-3:4"]
    );
    assert_eq!(
        convert(plain("unknown", "x", vec![name(), name()])),
        vec![
            "0 unknown \"unknown\" 1:2-3:4",
            "  0.0 identifier \"A\" 1:2-3:4",
            "  0.1 identifier \"A\" 1:2-3:4",
        ]
    );
    assert_eq!(convert(plain("program", "", vec![])), vec!["0 program \"program\" 1:2-3:4"]);
    assert_eq!(
        convert(plain("method_declaration", "METHODS a", vec![name()])),
        vec![
            "0 method \"A\" 1:2-3:4",
            "  0.0 signature \"METHODS A\" 1:0-1:4",
        ]
    );
    let mut error = plain("name", "a", vec![]);
    error.error = true;
    assert!(convert(error).is_empty());
    let mut missing = plain("name", "a", vec![]);
    missing.missing = true;
    assert!(convert(missing).is_empty());
}

#[test]
fn a_signature_can_clash_with_the_first_child() {
    let string = Some(plain("string", "s", vec![]));
    let found = lines(ts_convert(&plain("method_declaration", "METHODS", vec![string]), "0"));
    assert_eq!(
        found,
        vec![
            "0 method \"METHODS\" 1:2-3:4",
            "  0.0 signature \"METHODS\" 1:0-1:4",
            "  0.0 string_literal \"s\" 1:2-3:4",
        ]
    );
}

#[test]
fn counts() {
    assert_eq!(ts_counts(&shape(0, 0)), (1, 0));
    let mut tree = shape(2, 3);
    tree.missing = true;
    tree.children.push(None);
    tree.children.push(Some(shape(1, 0)));
    assert_eq!(ts_counts(&tree), (8, 4));
}

#[test]
fn top_level_constructs() {
    let root = |kind: &'static str| plain("program", "", vec![None, Some(plain(kind, "", vec![]))]);
    for kind in ["report_statement", "class_declaration", "write_statement"] {
        assert!(ts_has_top_level_construct(&root(kind)));
    }
    for kind in ["name", "bol_comment", "method_body"] {
        assert!(!ts_has_top_level_construct(&root(kind)));
    }
    assert!(!ts_has_top_level_construct(&plain("program", "", vec![])));
}

#[test]
fn conversion_of_trees() {
    let report = || Some(plain("report_statement", "REPORT x.", vec![]));
    let tree = |kind: &'static str, shape: Shape, children: Vec<Option<SyntaxNode<'static>>>| {
        lines(convert_tree(&SyntaxTree { shape, root: plain(kind, "", children) }, 9))
    };
    let whole = vec!["0 program \"program\" 1:2-3:4", "  0.0 report \"REPORT X\" 1:2-3:4"];
    assert_eq!(tree("program", shape(0, 1), vec![report()]), whole);
    assert_eq!(tree("program", shape(1, 2), vec![report()]), whole);
    assert!(tree("program", shape(1, 1), vec![report()]).is_empty());
    assert!(tree("program", shape(2, 3), vec![report()]).is_empty());
    assert!(tree("program", shape(0, 1), vec![]).is_empty());
    let mut broken = plain("report_statement", "REPORT x.", vec![]);
    broken.error = true;
    assert!(tree("program", shape(0, 9), vec![Some(broken)]).is_empty());
    assert_eq!(
        tree("source_file", shape(0, 1), vec![report()]),
        vec!["0 program \"program\" 0:0-9:0", "  0.0 report \"REPORT X\" 1:2-3:4"]
    );
}
