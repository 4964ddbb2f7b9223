//! Generation of the program that runs an expression: imports, the reading
//! of the input, the expression itself, and the printing of its result.

use crate::error::LobError;
use crate::output::OutputFormat;
use crate::text::{
    find, find_in, leading_spaces, position, position_of, slice, to_chars, to_string, trim_start,
};
use vstd::prelude::*;
use vstd::string::StringExecFns;

verus! {

/// What every program imports.
pub const IMPORTS: &'static str =
    "use lob_prelude::*;\nuse std::collections::HashMap;\n";

/// What a program that counts its items imports.
pub const IMPORTS_STATS: &'static str =
    "use std::sync::atomic::{AtomicUsize, Ordering};\nuse std::sync::Arc;\nuse std::time::Instant;\n";

/// What a program that prints JSON imports.
pub const IMPORT_JSON: &'static str =
    "use lob_prelude::serde_json;\n";

/// What a program that prints a table imports.
pub const IMPORTS_TABLE: &'static str =
    "use lob_prelude::tabled::builder::Builder;\nuse lob_prelude::tabled::settings::Style;\n";

/// The opening of `main`.
pub const MAIN_OPEN: &'static str =
    "\nfn main() {\n";

/// The counters of a program that counts its items.
pub const STATS_SETUP: &'static str =
    "    let start_time = Instant::now();\n    let item_count = Arc::new(AtomicUsize::new(0));\n    let last_print = Arc::new(AtomicUsize::new(0));\n    let print_interval = 10000; // Print every 10k items\n\n";

/// The wrapping of the input that counts the items as they pass.
pub const STATS_WRAP: &'static str =
    "    let stdin_data = {\n        let counter = item_count.clone();\n        let last = last_print.clone();\n        let start = start_time;\n        stdin_data.map(move |item| {\n            let count = counter.fetch_add(1, Ordering::Relaxed) + 1;\n            let last_val = last.load(Ordering::Relaxed);\n            if count - last_val >= print_interval {\n                let elapsed = start.elapsed().as_secs_f64();\n                let throughput = count as f64 / elapsed;\n                eprintln!(\"\\r[Stats] Items: {} | Throughput: {:.0} items/s | Elapsed: {:.1}s\", count, throughput, elapsed);\n                last.store(count, Ordering::Relaxed);\n            }\n            item\n        })\n    };\n";

/// What stands before the expression.
pub const RESULT_OPEN: &'static str =
    "    let result = ";

/// What stands after the expression.
pub const RESULT_CLOSE: &'static str =
    ";\n";

/// The closing report of a program that counts its items.
pub const STATS_FINAL: &'static str =
    "\n    let total_items = item_count.load(Ordering::Relaxed);\n    let elapsed = start_time.elapsed().as_secs_f64();\n    let throughput = if elapsed > 0.0 { total_items as f64 / elapsed } else { 0.0 };\n    eprintln!(\"\\n[Final Stats] Total items: {} | Throughput: {:.0} items/s | Total time: {:.3}s\", total_items, throughput, elapsed);\n";

/// The closing of `main`.
pub const MAIN_CLOSE: &'static str =
    "}\n";

/// The name that stands for the input in the program.
pub const INPUT_NAME: &'static str =
    "stdin_data";

/// The reading of the file names from the command line.
pub const FILES_FROM_ARGS: &'static str =
    "    let files: Vec<_> = std::env::args().skip(1).map(|p| std::path::PathBuf::from(p)).collect();\n";

/// Lines from standard input.
pub const LINES_STDIN: &'static str =
    "    let stdin_data = input();\n";

/// Lines from files.
pub const LINES_FILES: &'static str =
    "    let stdin_data = input_from_files(&files);\n";

/// CSV records from standard input.
pub const CSV_STDIN: &'static str =
    "    let stdin_data = input_csv();\n";

/// CSV records from files.
pub const CSV_FILES: &'static str =
    "    let stdin_data = input_csv_from_files(&files);\n";

/// TSV records from standard input.
pub const TSV_STDIN: &'static str =
    "    let stdin_data = input_tsv();\n";

/// TSV records from files.
pub const TSV_FILES: &'static str =
    "    let stdin_data = input_tsv_from_files(&files);\n";

/// JSON values from standard input.
pub const JSON_STDIN: &'static str =
    "    let stdin_data = input_json();\n";

/// JSON values from files.
pub const JSON_FILES: &'static str =
    "    let stdin_data = input_json_from_files(&files);\n";

/// Printing each item in debug format.
pub const DEBUG_EACH: &'static str =
    "    for item in result {\n        println!(\"{:?}\", item);\n    }\n";

/// Printing one value in debug format.
pub const DEBUG_ONE: &'static str =
    "    println!(\"{:?}\", result);\n";

/// Printing the items as one JSON array.
pub const JSON_EACH: &'static str =
    "    let items: Vec<_> = result.collect();\n    println!(\"{}\", serde_json::to_string_pretty(&items).unwrap());\n";

/// Printing one value as JSON.
pub const JSON_ONE: &'static str =
    "    println!(\"{}\", serde_json::to_string(&result).unwrap());\n";

/// Printing each item as a line of JSON.
pub const JSONL_EACH: &'static str =
    "    for item in result {\n        println!(\"{}\", serde_json::to_string(&item).unwrap());\n    }\n";

/// Printing the items as CSV.
pub const CSV_EACH: &'static str =
    "    let items: Vec<_> = result.collect();\n    output_csv(&items);\n";

/// Printing one value as CSV.
pub const CSV_ONE: &'static str =
    "    output_csv(&[result]);\n";

/// Printing the items as a table.
pub const TABLE_EACH: &'static str =
    "    let items: Vec<_> = result.collect();\n    if !items.is_empty() {\n        let mut builder = Builder::default();\n        // Extract headers from first item\n        let mut headers: Vec<_> = items[0].keys().collect();\n        headers.sort();\n        builder.push_record(headers.iter().map(|k| k.as_str()));\n        // Add data rows\n        for item in &items {\n            let row: Vec<_> = headers.iter().map(|k| item.get(*k).map(|v| v.as_str()).unwrap_or(\"\")).collect();\n            builder.push_record(row);\n        }\n        let table = builder.build().with(Style::rounded()).to_string();\n        println!(\"{}\", table);\n    }\n";

/// Printing one value as a table.
pub const TABLE_ONE: &'static str =
    "    let mut builder = Builder::default();\n    let mut headers: Vec<_> = result.keys().collect();\n    headers.sort();\n    builder.push_record(headers.iter().map(|k| k.as_str()));\n    let row: Vec<_> = headers.iter().map(|k| result.get(*k).map(|v| v.as_str()).unwrap_or(\"\")).collect();\n    builder.push_record(row);\n    let table = builder.build().with(Style::rounded()).to_string();\n    println!(\"{}\", table);\n";

/// The shape of the input's records.
#[derive(Debug, Clone, Copy, PartialEq, Eq, Structural)]
pub enum InputFormat {
    /// One record per line of text.
    Lines,
    /// Comma-separated values.
    Csv,
    /// Tab-separated values.
    Tsv,
    /// One JSON value per line.
    JsonLines,
}

/// Where the input comes from, and its shape.
#[derive(Debug, Clone, Copy, PartialEq, Eq, Structural)]
pub struct InputSource {
    pub format: InputFormat,
    /// Whether the input is standard input rather than files.
    pub stdin: bool,
}

impl InputSource {
    /// Whether the input is standard input.
    pub fn is_stdin(&self) -> (b: bool)
        ensures
            b == self.stdin,
    {
        self.stdin
    }
}

/// The calls that end a pipeline in a value.
pub open spec fn terminals() -> Seq<Seq<char>> {
    seq![
        ".collect("@,
        ".count()"@,
        ".sum("@,
        ".sum::"@,
        ".min()"@,
        ".max()"@,
        ".reduce("@,
        ".fold("@,
        ".fold_left("@,
        ".first()"@,
        ".last()"@,
        ".to_list()"@,
        ".any("@,
        ".all("@,
    ]
}

/// The expression ends in a value: it holds one of the terminal calls.
pub open spec fn has_terminal(expression: Seq<char>) -> bool {
    exists|i: int| 0 <= i < terminals().len() && #[trigger] find(expression, terminals()[i]) is Some
}

/// The expression reads the input: after the white space at its front it
/// begins with an underscore.
pub open spec fn uses_stdin(expression: Seq<char>) -> bool {
    let t = trim_start(expression);
    t.len() > 0 && t[0] == '_'
}

/// The expression with its first underscore replaced by the input's name.
pub open spec fn with_input_name(expression: Seq<char>) -> Seq<char> {
    let p = position(expression, '_') as int;
    if p < expression.len() {
        expression.take(p) + INPUT_NAME@ + expression.skip(p + 1)
    } else {
        expression
    }
}

/// The statements that read the input.
pub open spec fn input_code(source: InputSource) -> Seq<char> {
    match source.format {
        InputFormat::Lines => if source.stdin {
            LINES_STDIN@
        } else {
            FILES_FROM_ARGS@ + LINES_FILES@
        },
        InputFormat::Csv => if source.stdin {
            CSV_STDIN@
        } else {
            FILES_FROM_ARGS@ + CSV_FILES@
        },
        InputFormat::Tsv => if source.stdin {
            TSV_STDIN@
        } else {
            FILES_FROM_ARGS@ + TSV_FILES@
        },
        InputFormat::JsonLines => if source.stdin {
            JSON_STDIN@
        } else {
            FILES_FROM_ARGS@ + JSON_FILES@
        },
    }
}

/// The statements that print the result: item by item where the
/// expression is still a pipeline, as one value where it ended in one.
pub open spec fn output_code(format: OutputFormat, is_iter: bool) -> Seq<char> {
    match format {
        OutputFormat::Debug => if is_iter {
            DEBUG_EACH@
        } else {
            DEBUG_ONE@
        },
        OutputFormat::Json => if is_iter {
            JSON_EACH@
        } else {
            JSON_ONE@
        },
        OutputFormat::JsonLines => if is_iter {
            JSONL_EACH@
        } else {
            JSON_ONE@
        },
        OutputFormat::Csv => if is_iter {
            CSV_EACH@
        } else {
            CSV_ONE@
        },
        OutputFormat::Table => if is_iter {
            TABLE_EACH@
        } else {
            TABLE_ONE@
        },
    }
}

/// The imports of a program.
pub open spec fn imports(format: OutputFormat, stats: bool) -> Seq<char> {
    IMPORTS@ + (if stats {
        IMPORTS_STATS@
    } else {
        Seq::empty()
    }) + (if format == OutputFormat::Json || format == OutputFormat::JsonLines {
        IMPORT_JSON@
    } else {
        Seq::empty()
    }) + (if format == OutputFormat::Table {
        IMPORTS_TABLE@
    } else {
        Seq::empty()
    })
}

/// The statement that binds the result, after the statements that read the
/// input where the expression uses it.
pub open spec fn body(expression: Seq<char>, source: InputSource, stats: bool) -> Seq<char> {
    if uses_stdin(expression) {
        input_code(source) + (if stats {
            STATS_WRAP@
        } else {
            Seq::empty()
        }) + RESULT_OPEN@ + with_input_name(expression) + RESULT_CLOSE@
    } else {
        RESULT_OPEN@ + expression + RESULT_CLOSE@
    }
}

/// The whole program for an expression.
pub open spec fn program(
    expression: Seq<char>,
    source: InputSource,
    format: OutputFormat,
    stats: bool,
) -> Seq<char> {
    imports(format, stats) + MAIN_OPEN@ + (if stats {
        STATS_SETUP@
    } else {
        Seq::empty()
    }) + body(expression, source, stats) + output_code(format, !has_terminal(expression)) + (
    if stats {
        STATS_FINAL@
    } else {
        Seq::empty()
    }) + MAIN_CLOSE@
}

/// Writes the program that runs an expression.
pub struct CodeGenerator {
    expression: String,
    input_source: InputSource,
    output_format: OutputFormat,
    enable_stats: bool,
}

impl CodeGenerator {
    /// The expression to run.
    pub closed spec fn expression(&self) -> Seq<char> {
        self.expression@
    }

    /// Where the input comes from.
    pub closed spec fn input_source(&self) -> InputSource {
        self.input_source
    }

    /// How the result is printed.
    pub closed spec fn output_format(&self) -> OutputFormat {
        self.output_format
    }

    /// Whether the program counts its items.
    pub closed spec fn enable_stats(&self) -> bool {
        self.enable_stats
    }

    /// A generator for the given expression.
    pub fn new(
        expression: String,
        input_source: InputSource,
        output_format: OutputFormat,
        enable_stats: bool,
    ) -> (g: Self)
        ensures
            g.expression() == expression@,
            g.input_source() == input_source,
            g.output_format() == output_format,
            g.enable_stats() == enable_stats,
    {
        CodeGenerator { expression, input_source, output_format, enable_stats }
    }

    /// The whole program.
    pub fn generate(&self) -> (r: Result<String, LobError>)
        ensures
            r matches Ok(code) && code@ == program(
                self.expression(),
                self.input_source(),
                self.output_format(),
                self.enable_stats(),
            ),
    {
        let mut code = String::new();
        code.append(IMPORTS);
        if self.enable_stats {
            code.append(IMPORTS_STATS);
        }
        match self.output_format {
            OutputFormat::Json | OutputFormat::JsonLines => {
                code.append(IMPORT_JSON);
            },
            _ => {},
        }
        match self.output_format {
            OutputFormat::Table => {
                code.append(IMPORTS_TABLE);
            },
            _ => {},
        }
        assert(code@ =~= imports(self.output_format, self.enable_stats));
        code.append(MAIN_OPEN);
        if self.enable_stats {
            code.append(STATS_SETUP);
        }
        let ghost upper = code@;
        let chars = to_chars(self.expression.as_str());
        let front = leading_spaces(&chars);
        let uses_input = front < chars.len() && chars[front] == '_';
        assert(uses_input == uses_stdin(self.expression@));
        if uses_input {
            self.generate_input(&mut code);
            if self.enable_stats {
                code.append(STATS_WRAP);
            }
            let p = position_of(&chars, '_');
            assert(p < chars.len()) by {
                lemma_position_found(chars@, '_', front as int);
            }
            code.append(RESULT_OPEN);
            code.append(to_string(&slice(&chars, 0, p)).as_str());
            code.append(INPUT_NAME);
            code.append(to_string(&slice(&chars, p + 1, chars.len())).as_str());
            code.append(RESULT_CLOSE);
        } else {
            code.append(RESULT_OPEN);
            code.append(self.expression.as_str());
            code.append(RESULT_CLOSE);
        }
        assert(code@ =~= upper + body(self.expression@, self.input_source, self.enable_stats));
        self.generate_output(&mut code);
        if self.enable_stats {
            code.append(STATS_FINAL);
        }
        code.append(MAIN_CLOSE);
        assert(code@ =~= program(
            self.expression@,
            self.input_source,
            self.output_format,
            self.enable_stats,
        ));
        Ok(code)
    }

    /// Adds the statements that read the input.
    pub fn generate_input(&self, code: &mut String)
        ensures
            final(code)@ == old(code)@ + input_code(self.input_source()),
    {
        if !self.input_source.is_stdin() {
            code.append(FILES_FROM_ARGS);
        }
        match self.input_source.format {
            InputFormat::Lines => {
                if self.input_source.is_stdin() {
                    code.append(LINES_STDIN);
                } else {
                    code.append(LINES_FILES);
                }
            },
            InputFormat::Csv => {
                if self.input_source.is_stdin() {
                    code.append(CSV_STDIN);
                } else {
                    code.append(CSV_FILES);
                }
            },
            InputFormat::Tsv => {
                if self.input_source.is_stdin() {
                    code.append(TSV_STDIN);
                } else {
                    code.append(TSV_FILES);
                }
            },
            InputFormat::JsonLines => {
                if self.input_source.is_stdin() {
                    code.append(JSON_STDIN);
                } else {
                    code.append(JSON_FILES);
                }
            },
        }
        assert(code@ =~= old(code)@ + input_code(self.input_source));
    }

    /// Adds the statements that print the result.
    pub fn generate_output(&self, code: &mut String)
        ensures
            final(code)@ == old(code)@ + output_code(
                self.output_format(),
                !has_terminal(self.expression()),
            ),
    {
        let is_iter = !self.has_terminal_operation();
        match self.output_format {
            OutputFormat::Debug => {
                if is_iter {
                    code.append(DEBUG_EACH);
                } else {
                    code.append(DEBUG_ONE);
                }
            },
            OutputFormat::Json => {
                if is_iter {
                    code.append(JSON_EACH);
                } else {
                    code.append(JSON_ONE);
                }
            },
            OutputFormat::JsonLines => {
                if is_iter {
                    code.append(JSONL_EACH);
                } else {
                    code.append(JSON_ONE);
                }
            },
            OutputFormat::Csv => {
                if is_iter {
                    code.append(CSV_EACH);
                } else {
                    code.append(CSV_ONE);
                }
            },
            OutputFormat::Table => {
                if is_iter {
                    code.append(TABLE_EACH);
                } else {
                    code.append(TABLE_ONE);
                }
            },
        }
    }

    /// Whether the expression ends in a value.
    pub fn has_terminal_operation(&self) -> (b: bool)
        ensures
            b == has_terminal(self.expression()),
    {
        let patterns: Vec<&str> = vec![
            ".collect(",
            ".count()",
            ".sum(",
            ".sum::",
            ".min()",
            ".max()",
            ".reduce(",
            ".fold(",
            ".fold_left(",
            ".first()",
            ".last()",
            ".to_list()",
            ".any(",
            ".all(",
        ];
        assert(patterns.deep_view() =~= terminals());
        let chars = to_chars(self.expression.as_str());
        let mut i: usize = 0;
        while i < patterns.len()
            invariant
                i <= patterns.len(),
                chars@ == self.expression@,
                patterns.deep_view() == terminals(),
                forall|j: int| 0 <= j < i ==> #[trigger] find(chars@, terminals()[j]) is None,
            decreases patterns.len() - i,
        {
            let pat = to_chars(patterns[i]);
            assert(pat@ == terminals()[i as int]) by {
                assert(patterns.deep_view()[i as int] == patterns[i as int]@);
            }
            if find_in(&chars, &pat).is_some() {
                return true;
            }
            i += 1;
        }
        false
    }
}

/// A character that stands somewhere in `s` has a first position there.
pub proof fn lemma_position_found(s: Seq<char>, c: char, at: int)
    requires
        0 <= at < s.len(),
        s[at] == c,
    ensures
        position(s, c) <= at,
    decreases s.len(),
{
    if at > 0 && s[0] != c {
        lemma_position_found(s.skip(1), c, at - 1);
    }
}

} // verus!
