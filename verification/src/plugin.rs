//! What the parser offers to a host that loads it as a plugin.
use crate::node::SemanticNode;
use crate::parser;
use crate::text;
use vstd::prelude::*;

verus! {

/// How a host uses a parser.
#[derive(Clone, Copy, Debug, PartialEq, Eq, Structural)]
pub enum ParserMode {
    /// The parser takes a source and gives a finished tree.
    FullParse,
}

/// Two versions of a source that show what a comparison finds.
#[derive(Debug)]
pub struct ExamplePair {
    pub old: String,
    pub new: String,
}

/// What the metadata of a plugin says of a language.
#[derive(Debug)]
pub struct LanguageInfo {
    pub language_id: String,
    pub language_name: String,
    pub language_short_name: String,
    pub monaco_language: String,
    pub default_filename: String,
    pub language_file_extensions: Vec<String>,
}

/// What the metadata of a plugin says of the plugin.
#[derive(Debug)]
pub struct PluginInfo {
    pub author: String,
    pub plugin_version: String,
    pub last_updated: String,
}

/// What a host learns of a language of a plugin.
#[derive(Debug)]
pub struct LanguageInfoRecord {
    pub language_id: String,
    pub language_name: String,
    pub language_short_name: String,
    pub monaco_language: String,
    pub default_filename: String,
    pub language_file_extensions: Vec<String>,
    pub author: String,
    pub plugin_version: String,
    pub last_updated: String,
}

/// Whether a record says of a language and of the plugin what the metadata say.
pub open spec fn records(
    record: LanguageInfoRecord,
    info: LanguageInfo,
    plugin: PluginInfo,
) -> bool {
    &&& record.language_id@ == info.language_id@
    &&& record.language_name@ == info.language_name@
    &&& record.language_short_name@ == info.language_short_name@
    &&& record.monaco_language@ == info.monaco_language@
    &&& record.default_filename@ == info.default_filename@
    &&& text::strings(record.language_file_extensions@) == text::strings(
        info.language_file_extensions@,
    )
    &&& record.author@ == plugin.author@
    &&& record.plugin_version@ == plugin.plugin_version@
    &&& record.last_updated@ == plugin.last_updated@
}

/// Makes a record for each language of the plugin, in order.
pub fn language_info_for(infos: Vec<LanguageInfo>, plugin: &PluginInfo) -> (r: Vec<
    LanguageInfoRecord,
>)
    ensures
        r@.len() == infos@.len(),
        forall|i: int| 0 <= i < infos@.len() ==> records(#[trigger] r@[i], infos@[i], *plugin),
{
    let mut out: Vec<LanguageInfoRecord> = Vec::new();
    for info in it: infos
        invariant
            it.seq() == infos@,
            out@.len() == it.index(),
            forall|i: int| 0 <= i < it.index() ==> records(#[trigger] out@[i], infos@[i], *plugin),
    {
        out.push(
            LanguageInfoRecord {
                language_id: info.language_id,
                language_name: info.language_name,
                language_short_name: info.language_short_name,
                monaco_language: info.monaco_language,
                default_filename: info.default_filename,
                language_file_extensions: info.language_file_extensions,
                author: plugin.author.clone(),
                plugin_version: plugin.plugin_version.clone(),
                last_updated: plugin.last_updated.clone(),
            },
        );
    }
    out
}

/// The answer to a host: the tree as JSON, or a JSON object that says why it
/// could not be written.
pub open spec fn answer(json: Result<Seq<char>, Seq<char>>) -> Seq<char> {
    match json {
        Ok(text) => text,
        Err(message) => "{\"error\":\"Serialisation error: "@ + message + "\"}"@,
    }
}

/// Makes the answer to a host from the outcome of writing the tree as JSON.
pub fn json_answer(json: Result<String, String>) -> (r: String)
    ensures
        r@ == answer(
            match json {
                Ok(text) => Ok(text@),
                Err(message) => Err(message@),
            },
        ),
{
    match json {
        Ok(text) => text,
        Err(message) => {
            let mut out = "{\"error\":\"Serialisation error: ".to_string();
            out.append(message.as_str());
            out.append("\"}");
            out
        },
    }
}

/// The parser plugin for ABAP.
pub struct AbapParser;

impl AbapParser {
    /// The parser gives finished trees.
    pub fn get_parser_mode() -> (r: ParserMode)
        ensures
            r == ParserMode::FullParse,
    {
        ParserMode::FullParse
    }

    /// The grammar that the parser understands.
    pub fn grammar_id() -> (r: String)
        ensures
            r@ == "abap"@,
    {
        "abap".to_string()
    }

    /// Detects the language of a file by its name.
    pub fn detect_language(filename: String, content: String) -> (r: String)
        ensures
            r@ == parser::language_of(filename@),
    {
        parser::detect_language_impl(filename.as_str(), content.as_str())
    }

    /// A source needs no preparation.
    pub fn preprocess_source(source: String) -> (r: String)
        ensures
            r == source,
    {
        source
    }

    /// Two versions of a small program.
    pub fn example(_language: String) -> (r: ExamplePair)
        ensures
            r.old@ == "REPORT z_demo.\n\nFORM greet.\n  WRITE: 'Hello, World'.\nENDFORM.\n"@,
            r.new@
                == "REPORT z_demo.\n\nFORM greet USING lv_name TYPE string.\n  DATA(lv_msg) = |Hello, { lv_name }!|.\n  WRITE: lv_msg.\nENDFORM.\n\nFORM add_numbers USING a TYPE i b TYPE i CHANGING result TYPE i.\n  result = a + b.\nENDFORM.\n"@,
    {
        ExamplePair {
            old: "REPORT z_demo.\n\nFORM greet.\n  WRITE: 'Hello, World'.\nENDFORM.\n".to_string(),
            new: "REPORT z_demo.\n\nFORM greet USING lv_name TYPE string.\n  DATA(lv_msg) = |Hello, { lv_name }!|.\n  WRITE: lv_msg.\nENDFORM.\n\nFORM add_numbers USING a TYPE i b TYPE i CHANGING result TYPE i.\n  result = a + b.\nENDFORM.\n".to_string(),
        }
    }

    /// Parses a source.
    pub fn process(input: String, _language: String, _filename: String) -> (r: SemanticNode)
        ensures
            r.model() == parser::parsed(input@),
    {
        parser::parse_abap(input.as_str())
    }

    /// No node is trivia.
    pub fn trivia_node_types() -> (r: Vec<String>)
        ensures
            r@.len() == 0,
    {
        Vec::new()
    }

    /// The languages that the parser understands.
    pub fn language_ids() -> (r: Vec<String>)
        ensures
            text::strings(r@) == seq!["abap"@],
    {
        let mut ids: Vec<String> = Vec::new();
        ids.push("abap".to_string());
        proof {
            assert(text::strings(ids@) =~= seq!["abap"@]);
        }
        ids
    }

    /// The records of the languages that the parser understands, given what
    /// the metadata say of them.
    pub fn language_info(infos: Vec<LanguageInfo>, plugin: &PluginInfo) -> (r: Vec<
        LanguageInfoRecord,
    >)
        ensures
            r@.len() == infos@.len(),
            forall|i: int| 0 <= i < infos@.len() ==> records(#[trigger] r@[i], infos@[i], *plugin),
    {
        language_info_for(infos, plugin)
    }

    /// The rank of the parser among others for the same language.
    pub fn priority() -> (r: i32)
        ensures
            r == 0,
    {
        0
    }
}

} // verus!
