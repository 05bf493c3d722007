//! The settings of the program: read from a settings document where there
//! is one that can be read, taken from the surroundings of the program
//! otherwise.

use crate::config::yaml_parser::{
    document, parse_yaml_from_string, text_under, Value, YamlMap, YamlParserError, YamlValue,
};
use crate::text::{string_of, text_of};
use vstd::prelude::*;
use vstd::string::*;

pub mod yaml_parser;

verus! {

/// The settings of the program.
#[derive(Debug)]
pub struct OnoConfig {
    pub data_dir: Option<String>,
    pub editor: Option<String>,
    pub history_file: Option<String>,
}

/// What the settings hold.
pub struct OnoConfigView {
    pub data_dir: Option<Seq<char>>,
    pub editor: Option<Seq<char>>,
    pub history_file: Option<Seq<char>>,
}

impl View for OnoConfig {
    type V = OnoConfigView;

    open spec fn view(&self) -> OnoConfigView {
        OnoConfigView {
            data_dir: string_of(self.data_dir),
            editor: string_of(self.editor),
            history_file: string_of(self.history_file),
        }
    }
}

#[derive(Debug, Clone, Copy, PartialEq, Eq, Structural)]
pub enum OnoConfigError {
    FileMalformed,
}

/// The settings document that stands in where none can be read: the editor
/// and the data directory as texts, and the history file as a text where
/// there is one, as the absent value otherwise.
pub open spec fn default_document(
    editor: Seq<char>,
    data_dir: Seq<char>,
    history_file: Option<Seq<char>>,
) -> Map<Seq<char>, Value> {
    Map::<Seq<char>, Value>::empty().insert(
        "history_file"@,
        match history_file {
            Some(path) => Value::Text(path),
            None => Value::Absent,
        },
    ).insert("editor"@, Value::Text(editor)).insert("data_dir"@, Value::Text(data_dir))
}

/// The settings document in force: that of `content` where there is one and
/// it holds a key, the default one otherwise.
pub open spec fn settings_document(
    content: Option<Seq<char>>,
    editor: Seq<char>,
    data_dir: Seq<char>,
    history_file: Option<Seq<char>>,
) -> Map<Seq<char>, Value> {
    match content {
        Some(text) => if document(text) == Map::<Seq<char>, Value>::empty() {
            default_document(editor, data_dir, history_file)
        } else {
            document(text)
        },
        None => default_document(editor, data_dir, history_file),
    }
}

/// The settings that a settings document gives: under each name the text that
/// stands there, if one does.
pub open spec fn settings_of(document: Map<Seq<char>, Value>) -> OnoConfigView {
    OnoConfigView {
        data_dir: text_under(document, "data_dir"@),
        editor: text_under(document, "editor"@),
        history_file: text_under(document, "history_file"@),
    }
}

/// The settings document made of what the surroundings of the program give.
pub fn get_default_config(editor: String, data_dir: String, history_file: Option<String>) -> (map:
    YamlMap)
    ensures
        map@ == default_document(editor@, data_dir@, string_of(history_file)),
{
    proof {
        reveal_strlit("history_file");
        reveal_strlit("editor");
        reveal_strlit("data_dir");
        assert("history_file"@.len() == 12);
        assert("editor"@.len() == 6);
        assert("data_dir"@.len() == 8);
    }
    let mut result = YamlMap::new();
    result.insert_if_absent(
        "history_file".to_owned(),
        match history_file {
            Some(path) => YamlValue::String(path),
            None => YamlValue::Null,
        },
    );
    result.insert_if_absent("editor".to_owned(), YamlValue::String(editor));
    result.insert_if_absent("data_dir".to_owned(), YamlValue::String(data_dir));
    result
}

/// The text under `key`, as a string of its own.
fn owned_text(map: &YamlMap, key: &str) -> (text: Option<String>)
    ensures
        string_of(text) == text_under(map@, key@),
{
    match map.text(key) {
        Some(text) => Some(text.to_owned()),
        None => None,
    }
}

/// The settings of the program.
///
/// `content` is the text of the settings file, where that file could be read.
/// Where it could not, or holds no key, the settings are those that the
/// surroundings give: `editor`, `data_dir` and, if there is one,
/// `history_file`. A settings file that holds a key decides alone: what it
/// does not name stays unset.
pub fn get_config(
    content: Option<&str>,
    editor: String,
    data_dir: String,
    history_file: Option<String>,
) -> (result: Result<OnoConfig, OnoConfigError>)
    ensures
        result is Ok,
        result->Ok_0@ == settings_of(
            settings_document(
                text_of(content),
                editor@,
                data_dir@,
                string_of(history_file),
            ),
        ),
{
    let ghost expected = settings_document(
        text_of(content),
        editor@,
        data_dir@,
        string_of(history_file),
    );
    let read = match content {
        Some(text) => parse_yaml_from_string(text),
        None => Err(YamlParserError::FileNotFound),
    };
    let config_map = match read {
        Ok(map) => map,
        Err(_) => get_default_config(editor, data_dir, history_file),
    };
    assert(config_map@ == expected);
    Ok(
        OnoConfig {
            data_dir: owned_text(&config_map, "data_dir"),
            history_file: owned_text(&config_map, "history_file"),
            editor: owned_text(&config_map, "editor"),
        },
    )
}

} // verus!
