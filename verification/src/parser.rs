//! Parsers for locale file formats (JSON, YAML, ARB) with source positions.
use vstd::prelude::*;
use vstd::string::*;
use crate::position::Range;
use crate::text::{views, str_eq};
use crate::paths::{extension_of, extension};
use crate::parser::json::{JsonParser, json_parse_result};
use crate::parser::yaml::{YamlParser, yaml_parse_result};

pub mod json;
pub mod yaml;

verus! {

/// Why a locale file could not be parsed.
#[derive(Debug)]
pub enum ParseError {
    /// The text is not valid for its format; `offset` is a byte offset.
    Syntax { offset: usize, message: String },
    /// The file could not be read.
    Io { path: String, message: String },
    /// The file's extension names no supported format.
    Unsupported(String),
}

/// One leaf entry extracted from a locale file.
#[derive(Debug)]
pub struct LocaleEntry {
    pub key_path: Vec<String>,
    pub value: String,
    /// Range of the value literal.
    pub range: Range,
    /// Range of the leaf property name.
    pub key_range: Range,
}

/// The key path of an entry, as character sequences.
pub open spec fn entry_path(e: LocaleEntry) -> Seq<Seq<char>> {
    views(e.key_path@)
}

/// A parser of one locale file format.
pub trait LocaleParser {
    /// The entries of `source`; its columns are counted in `u32`.
    fn parse(&self, source: &str) -> (r: Result<Vec<LocaleEntry>, ParseError>)
        requires
            2 * source.spec_bytes().len() <= u32::MAX;
}

/// Extensions read as JSON: `json`, `jsonc`, `json5`, `arb`.
pub open spec fn is_json_extension(e: Seq<char>) -> bool {
    e == seq!['j', 's', 'o', 'n'] || e == seq!['j', 's', 'o', 'n', 'c'] || e == seq!['j', 's', 'o', 'n', '5']
        || e == seq!['a', 'r', 'b']
}

/// Extensions read as YAML: `yml`, `yaml`.
pub open spec fn is_yaml_extension(e: Seq<char>) -> bool {
    e == seq!['y', 'm', 'l'] || e == seq!['y', 'a', 'm', 'l']
}

/// What parsing `text` (whose UTF-8 bytes are `bytes`) gives for a file at
/// `path`: the format is chosen by the extension; an unknown extension, or
/// none, is an `Unsupported` error naming it (or the path).
pub open spec fn parse_result_for(bytes: Seq<u8>, text: Seq<char>, path: Seq<char>, r: Result<Vec<LocaleEntry>, ParseError>) -> bool {
    match extension_of(path) {
        Some(e) => if is_json_extension(e) {
            json_parse_result(bytes, text, r)
        } else if is_yaml_extension(e) {
            yaml_parse_result(bytes, text, r)
        } else {
            r matches Err(ParseError::Unsupported(m)) && m@ == e
        },
        None => r matches Err(ParseError::Unsupported(m)) && m@ == path,
    }
}

/// The text of a locale file at `path` parses.
pub open spec fn parses_ok(bytes: Seq<u8>, text: Seq<char>, path: Seq<char>) -> bool {
    exists|es: Vec<LocaleEntry>| #[trigger] parse_result_for(bytes, text, path, Ok::<Vec<LocaleEntry>, ParseError>(es))
}

/// A text that parses does not also fail to parse.
pub proof fn lemma_parse_result_exclusive(bytes: Seq<u8>, text: Seq<char>, path: Seq<char>, e: ParseError)
    requires
        parses_ok(bytes, text, path),
    ensures
        !parse_result_for(bytes, text, path, Err::<Vec<LocaleEntry>, ParseError>(e)),
{
    let es = choose|es: Vec<LocaleEntry>| #[trigger] parse_result_for(bytes, text, path, Ok::<Vec<LocaleEntry>, ParseError>(es));
}

pub(crate) fn is_json_ext(e: &str) -> (r: bool)
    ensures
        r == is_json_extension(e@),
{
    proof {
        reveal_strlit("json");
        reveal_strlit("jsonc");
        reveal_strlit("json5");
        reveal_strlit("arb");
        assert("json"@ =~= seq!['j', 's', 'o', 'n']);
        assert("jsonc"@ =~= seq!['j', 's', 'o', 'n', 'c']);
        assert("json5"@ =~= seq!['j', 's', 'o', 'n', '5']);
        assert("arb"@ =~= seq!['a', 'r', 'b']);
    }
    str_eq(e, "json") || str_eq(e, "jsonc") || str_eq(e, "json5") || str_eq(e, "arb")
}

pub(crate) fn is_yaml_ext(e: &str) -> (r: bool)
    ensures
        r == is_yaml_extension(e@),
{
    proof {
        reveal_strlit("yml");
        reveal_strlit("yaml");
        assert("yml"@ =~= seq!['y', 'm', 'l']);
        assert("yaml"@ =~= seq!['y', 'a', 'm', 'l']);
    }
    str_eq(e, "yml") || str_eq(e, "yaml")
}

/// Parses `source`, choosing the format by the extension of `path`.
pub fn parse_with_extension(source: &str, path: &str) -> (r: Result<Vec<LocaleEntry>, ParseError>)
    requires
        2 * source.spec_bytes().len() <= u32::MAX,
    ensures
        parse_result_for(source.spec_bytes(), source@, path@, r),
{
    match extension(path) {
        Some(e) => {
            if is_json_ext(e.as_str()) {
                JsonParser.parse(source)
            } else if is_yaml_ext(e.as_str()) {
                YamlParser.parse(source)
            } else {
                Err(ParseError::Unsupported(e))
            }
        },
        None => Err(ParseError::Unsupported(path.to_string())),
    }
}

} // verus!
