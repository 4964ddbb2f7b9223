//! The formats in which a pipeline's result can be printed.

use crate::text::same_text;
use vstd::prelude::*;

verus! {

/// How results are printed.
#[derive(Debug, Clone, Copy, PartialEq, Eq, Structural)]
pub enum OutputFormat {
    /// Rust's debug format.
    Debug,
    /// One JSON array.
    Json,
    /// One JSON value per line.
    JsonLines,
    /// Comma-separated values.
    Csv,
    /// A table.
    Table,
}

/// The format that a name stands for, if it stands for one.
pub open spec fn format_named(s: Seq<char>) -> Option<OutputFormat> {
    if s == "debug"@ {
        Some(OutputFormat::Debug)
    } else if s == "json"@ {
        Some(OutputFormat::Json)
    } else if s == "jsonl"@ || s == "jsonlines"@ {
        Some(OutputFormat::JsonLines)
    } else if s == "csv"@ {
        Some(OutputFormat::Csv)
    } else if s == "table"@ {
        Some(OutputFormat::Table)
    } else {
        None
    }
}

impl OutputFormat {
    /// The format that `s` names: `debug`, `json`, `jsonl` or `jsonlines`,
    /// `csv`, `table`; nothing for any other string.
    pub fn from_str(s: &str) -> (r: Option<Self>)
        ensures
            r == format_named(s@),
    {
        if same_text(s, "debug") {
            Some(OutputFormat::Debug)
        } else if same_text(s, "json") {
            Some(OutputFormat::Json)
        } else if same_text(s, "jsonl") || same_text(s, "jsonlines") {
            Some(OutputFormat::JsonLines)
        } else if same_text(s, "csv") {
            Some(OutputFormat::Csv)
        } else if same_text(s, "table") {
            Some(OutputFormat::Table)
        } else {
            None
        }
    }

    /// The format to use when none is asked for: debug on a terminal, JSON
    /// lines elsewhere.
    pub fn default(is_terminal: bool) -> (r: Self)
        ensures
            r == if is_terminal {
                OutputFormat::Debug
            } else {
                OutputFormat::JsonLines
            },
    {
        if is_terminal {
            OutputFormat::Debug
        } else {
            OutputFormat::JsonLines
        }
    }
}

} // verus!
