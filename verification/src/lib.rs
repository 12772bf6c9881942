//! Core i18n logic: locale files parsed into per-locale key trees, lookups
//! and checks across locales, key-usage detection in source files, and
//! formatting of translation values.
pub mod binary;
pub mod cli;
pub mod config;
pub mod display;
pub mod editor;
pub mod edits;
pub mod framework;
pub mod index;
pub mod key_browser;
pub mod keytree;
pub mod linked;
pub mod locale;
pub mod mutation;
pub mod parser;
pub mod paths;
pub mod position;
pub mod project;
pub mod scan;
pub mod symbols;
pub mod text;
pub mod tools;

pub use config::{KeyStyle, ProjectConfig};
pub use display::{escape_md, truncate_chars, ParsedValue};
pub use framework::{find_usages, Framework, KeyUsage};
pub use index::{IndexBuilder, IndexError, LocaleIndex, LocaleTrees, Lookup, SourceFile};
pub use keytree::{KeyNode, KeyTree, LocalizedValue};
pub use linked::{apply_modifier, parse_linked_message, resolve_value, LinkedMessage, ResolvedValue};
pub use locale::{Locale, LocaleFile, LocaleLayout};
pub use mutation::detect_indent;
pub use parser::json::JsonParser;
pub use parser::yaml::YamlParser;
pub use parser::{parse_with_extension, LocaleEntry, LocaleParser, ParseError};
pub use position::{LineIndex, Position, Range};
pub use project::{FileRead, ParseIssue, ProjectError, ProjectSnapshot};
pub use scan::UsageIndex;
pub use symbols::{build_document_symbol_tree, DocumentSymbolNode};
