use abap_parser::node::SemanticNode;
use abap_parser::parser::{detect_language_impl, parse_abap, parse_abap_tree_sitter};
use abap_parser::plugin::{json_answer, AbapParser};
use serde_json::Value;

const SAMPLE: &str = "REPORT zmyreport.\n\
    \nCLASS zcl_manager DEFINITION.\n\
    PUBLIC SECTION.\n  METHODS get_data.\n\
    ENDCLASS.\n\
    \nCLASS zcl_manager IMPLEMENTATION.\n\
    METHOD get_data.\n    WRITE: 'Hello'.\n  ENDMETHOD.\n\
    ENDCLASS.\n\
    \nFORM my_subroutine.\n  WRITE: 'sub'.\nENDFORM.\n";

fn value(node: &SemanticNode) -> Value {
    let mut position = serde_json::Map::new();
    position.insert("start_line".to_string(), Value::from(node.position.start_line));
    position.insert("start_col".to_string(), Value::from(node.position.start_col));
    position.insert("end_line".to_string(), Value::from(node.position.end_line));
    position.insert("end_col".to_string(), Value::from(node.position.end_col));
    let mut object = serde_json::Map::new();
    object.insert("id".to_string(), Value::from(node.id.as_str()));
    object.insert("node_type".to_string(), Value::from(node.node_type.as_str()));
    object.insert("label".to_string(), Value::from(node.label.as_str()));
    object.insert("position".to_string(), Value::Object(position));
    object.insert(
        "children".to_string(),
        Value::Array(node.children.iter().map(value).collect()),
    );
    Value::Object(object)
}

fn json(node: &SemanticNode) -> String {
    json_answer(serde_json::to_string(&value(node)).map_err(|e| e.to_string()))
}

fn contains_node_type(node: &SemanticNode, node_type: &str) -> bool {
    node.node_type == node_type || node.children.iter().any(|c| contains_node_type(c, node_type))
}

fn labels_nonempty(node: &SemanticNode, node_type: &str) -> bool {
    (node.node_type != node_type || !node.label.is_empty())
        && node.children.iter().all(|c| labels_nonempty(c, node_type))
}

/// What a node says, without identifiers and positions.
fn content(node: &SemanticNode) -> String {
    let below: Vec<String> = node.children.iter().map(content).collect();
    format!("{:?} {:?} [{}]", node.node_type, node.label, below.join(", "))
}

fn tree_sitter(src: &str) -> SemanticNode {
    parse_abap_tree_sitter(src).expect("tree-sitter parse")
}

#[test]
fn test_valid_json_no_error() {
    let out = json(&parse_abap(SAMPLE));
    let parsed: Value = serde_json::from_str(&out).expect("SAMPLE");
    assert!(parsed.is_object());
    assert!(parsed.get("error").is_none());
}

#[test]
fn test_root_is_program() {
    let out = parse_abap(SAMPLE);
    assert_eq!(out.node_type, "program");
}

#[test]
fn test_report_leaf() {
    let out = parse_abap("REPORT ztest.");
    assert!(contains_node_type(&out, "report"));
}

#[test]
fn test_class_definition() {
    let out = parse_abap(SAMPLE);
    assert!(contains_node_type(&out, "class_definition"));
}

#[test]
fn test_class_impl_with_method() {
    let out = parse_abap(SAMPLE);
    assert!(contains_node_type(&out, "class_impl"));
    assert!(contains_node_type(&out, "method"));
}

#[test]
fn test_tree_sitter_class_interface_and_method_blocks() {
    let src = "REPORT ztest.\n\
        \nINTERFACE zif_demo.\n  METHODS get_data.\nENDINTERFACE.\n\
        \nCLASS zcl_manager DEFINITION.\n  PUBLIC SECTION.\n  METHODS get_data.\nENDCLASS.\n\
        \nCLASS zcl_manager IMPLEMENTATION.\n  METHOD get_data.\n    WRITE: 'Hello'.\n  ENDMETHOD.\nENDCLASS.\n";
    let out = tree_sitter(src);

    assert!(contains_node_type(&out, "report"));
    assert!(contains_node_type(&out, "interface"));
    assert!(contains_node_type(&out, "class_definition"));
    assert!(contains_node_type(&out, "class_impl"));
    assert!(contains_node_type(&out, "method"));
    assert!(contains_node_type(&out, "write_statement"));
}

#[test]
fn test_tree_sitter_function_module() {
    let src = "FUNCTION z_my_func.\n  WRITE: 'x'.\nENDFUNCTION.\n";
    let out = tree_sitter(src);

    assert!(contains_node_type(&out, "function_module"));
    assert!(contains_node_type(&out, "write_statement"));
}

#[test]
fn test_form_block_routes_to_fallback_scanner() {
    let src = "REPORT ztest.\n\nFORM greet.\n  WRITE: 'Hello'.\nENDFORM.\n";
    assert!(parse_abap_tree_sitter(src).is_none());
    let out = parse_abap(src);
    assert!(contains_node_type(&out, "form"));
}

#[test]
fn test_form_block() {
    let out = parse_abap(SAMPLE);
    assert!(contains_node_type(&out, "form"));
}

#[test]
fn test_form_signature_and_body_affect_hash() {
    let old = "REPORT z_demo.\n\
        \nFORM greet.\n  WRITE: 'Hello, World'.\nENDFORM.\n";
    let new = "REPORT z_demo.\n\
        \nFORM greet USING lv_name TYPE string.\n  DATA(lv_msg) = |Hello, { lv_name }!|.\n  WRITE: lv_msg.\nENDFORM.\n";

    let old_tree = parse_abap(old);
    let new_tree = parse_abap(new);
    let old_form = old_tree
        .children
        .iter()
        .find(|node| node.node_type == "form" && node.label == "GREET")
        .unwrap();
    let new_form = new_tree
        .children
        .iter()
        .find(|node| node.node_type == "form" && node.label == "GREET")
        .unwrap();

    assert_ne!(content(old_form), content(new_form));
    assert!(old_form
        .children
        .iter()
        .any(|node| node.node_type == "write_statement"));
    assert!(new_form
        .children
        .iter()
        .any(|node| node.node_type == "signature"));
    assert!(new_form
        .children
        .iter()
        .any(|node| node.node_type == "signature" && node.position.end_col > 0));
    assert!(new_form
        .children
        .iter()
        .any(|node| node.node_type == "data_declaration"));
}

#[test]
fn test_comment_lines_ignored() {
    let src = "* This is a comment\n\" This too\nREPORT ztest.";
    let out = parse_abap(src);
    assert!(contains_node_type(&out, "report"));
}

#[test]
fn test_function_module() {
    let src = "FUNCTION z_my_func.\n  \" code\nENDFUNCTION.";
    let out = parse_abap(src);
    assert!(contains_node_type(&out, "function_module"));
}

#[test]
fn test_labels_nonempty() {
    let out = parse_abap(SAMPLE);
    assert!(labels_nonempty(&out, "class_definition"));
    assert!(labels_nonempty(&out, "method"));
}

#[test]
fn detects_abap_by_file_name() {
    assert_eq!(detect_language_impl("my_program.abap", ""), "abap");
    assert_eq!(detect_language_impl("MY_PROGRAM.ABAP", ""), "abap");
    assert_eq!(detect_language_impl("script.sql", ""), "");
    assert_eq!(detect_language_impl("script.txt", ""), "");
}

#[test]
fn detection_reads_the_end_of_the_name_only() {
    assert_eq!(detect_language_impl(".abap", "REPORT x."), "abap");
    assert_eq!(detect_language_impl("abap", "REPORT x."), "");
    assert_eq!(detect_language_impl("a.abap.txt", "REPORT x."), "");
    assert_eq!(detect_language_impl("\u{dc}bung.AbAp", ""), "abap");
    assert_eq!(detect_language_impl("", ""), "");
}

#[test]
fn empty_sources_give_an_empty_program() {
    for src in ["", "\n", "   \n\n", "\" only a comment\n"] {
        let out = parse_abap(src);
        assert_eq!(out.id, "0");
        assert_eq!(out.node_type, "program");
        assert_eq!(out.label, "program");
        assert!(out.children.is_empty());
    }
}

#[test]
fn process_parses_the_input() {
    let out = AbapParser::process(SAMPLE.to_string(), "abap".to_string(), "a.abap".to_string());
    assert_eq!(content(&out), content(&parse_abap(SAMPLE)));
    assert_eq!(json(&out), json(&parse_abap(SAMPLE)));
}

#[test]
fn root_is_program_for_both_parsers() {
    for src in ["REPORT ztest.", SAMPLE, "WRITE 'x'.", "nonsense", "FORM f.\nENDFORM."] {
        let out = parse_abap(src);
        assert_eq!(out.node_type, "program");
        assert_eq!(out.label, "program");
    }
}
