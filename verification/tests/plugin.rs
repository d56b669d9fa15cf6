use abap_parser::plugin::{
    json_answer, language_info_for, AbapParser, LanguageInfo, ParserMode, PluginInfo,
};

fn info(id: &str) -> LanguageInfo {
    LanguageInfo {
        language_id: id.to_string(),
        language_name: format!("{} name", id),
        language_short_name: format!("{} short", id),
        monaco_language: format!("{} monaco", id),
        default_filename: format!("main.{}", id),
        language_file_extensions: vec![format!(".{}", id), ".txt".to_string()],
    }
}

fn plugin() -> PluginInfo {
    PluginInfo {
        author: "somebody".to_string(),
        plugin_version: "1.2.3".to_string(),
        last_updated: "yesterday".to_string(),
    }
}

#[test]
fn fixed_answers() {
    assert_eq!(AbapParser::get_parser_mode(), ParserMode::FullParse);
    assert_eq!(AbapParser::grammar_id(), "abap");
    assert_eq!(AbapParser::language_ids(), vec!["abap".to_string()]);
    assert!(AbapParser::trivia_node_types().is_empty());
    assert_eq!(AbapParser::priority(), 0);
}

#[test]
fn detection_goes_by_the_file_name() {
    let detect =
        |name: &str| AbapParser::detect_language(name.to_string(), "REPORT x.".to_string());
    assert_eq!(detect("x.abap"), "abap");
    assert_eq!(detect("x.cds"), "");
}

#[test]
fn sources_are_not_prepared() {
    let source = "REPORT x.\r\n* caf\u{e9}\n";
    assert_eq!(AbapParser::preprocess_source(source.to_string()), source);
}

#[test]
fn example_is_a_changed_form() {
    let pair = AbapParser::example("abap".to_string());
    assert_eq!(
        pair.old,
        "REPORT z_demo.\n\nFORM greet.\n  WRITE: 'Hello, World'.\nENDFORM.\n"
    );
    assert!(pair.new.starts_with("REPORT z_demo.\n\nFORM greet USING lv_name TYPE string.\n"));
    assert!(pair.new.ends_with("  result = a + b.\nENDFORM.\n"));
}

#[test]
fn records_follow_the_languages() {
    let records = language_info_for(vec![info("abap"), info("other")], &plugin());
    assert_eq!(records.len(), 2);
    assert_eq!(records[0].language_id, "abap");
    assert_eq!(records[1].language_id, "other");
    let first = &AbapParser::language_info(vec![info("abap")], &plugin())[0];
    assert_eq!(first.language_name, "abap name");
    assert_eq!(first.language_short_name, "abap short");
    assert_eq!(first.monaco_language, "abap monaco");
    assert_eq!(first.default_filename, "main.abap");
    assert_eq!(first.language_file_extensions, vec![".abap".to_string(), ".txt".to_string()]);
    assert_eq!(first.author, "somebody");
    assert_eq!(first.plugin_version, "1.2.3");
    assert_eq!(first.last_updated, "yesterday");
    assert!(language_info_for(vec![], &plugin()).is_empty());
}

#[test]
fn answers_are_json() {
    assert_eq!(json_answer(Ok("{}".to_string())), "{}");
    assert_eq!(
        json_answer(Err("too deep".to_string())),
        "{\"error\":\"Serialisation error: too deep\"}"
    );
}
