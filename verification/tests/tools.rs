use flu::{
    BuildEvent, BuildState, BuildStep, CodeGenerator, Compiler, InputFormat, InputSource, LobError,
    OutputFormat, TargetDir, Tool,
};

fn generate(expression: &str, format: InputFormat, stdin: bool, out: OutputFormat, stats: bool) -> String {
    let source = InputSource { format, stdin };
    match CodeGenerator::new(String::from(expression), source, out, stats).generate() {
        Ok(code) => code,
        Err(e) => panic!("{}", e.message()),
    }
}

#[test]
fn output_format_names() {
    assert_eq!(OutputFormat::from_str("debug"), Some(OutputFormat::Debug));
    assert_eq!(OutputFormat::from_str("json"), Some(OutputFormat::Json));
    assert_eq!(OutputFormat::from_str("jsonl"), Some(OutputFormat::JsonLines));
    assert_eq!(OutputFormat::from_str("jsonlines"), Some(OutputFormat::JsonLines));
    assert_eq!(OutputFormat::from_str("csv"), Some(OutputFormat::Csv));
    assert_eq!(OutputFormat::from_str("table"), Some(OutputFormat::Table));
    assert_eq!(OutputFormat::from_str("Debug"), None);
    assert_eq!(OutputFormat::from_str(""), None);
    assert_eq!(OutputFormat::from_str("json "), None);
}

#[test]
fn output_format_default() {
    assert_eq!(OutputFormat::default(true), OutputFormat::Debug);
    assert_eq!(OutputFormat::default(false), OutputFormat::JsonLines);
}

#[test]
fn program_for_a_pipeline_over_standard_input() {
    let code = generate("  _.filter(|x| x.len() > 3)", InputFormat::Lines, true, OutputFormat::Debug, false);
    assert_eq!(
        code,
        "use lob_prelude::*;\nuse std::collections::HashMap;\n\nfn main() {\n    let stdin_data = input();\n    let result =   stdin_data.filter(|x| x.len() > 3);\n    for item in result {\n        println!(\"{:?}\", item);\n    }\n}\n"
    );
}

#[test]
fn program_for_a_value_without_input() {
    let code = generate("range(0, 5).count()", InputFormat::Csv, false, OutputFormat::Json, false);
    assert_eq!(
        code,
        "use lob_prelude::*;\nuse std::collections::HashMap;\nuse lob_prelude::serde_json;\n\nfn main() {\n    let result = range(0, 5).count();\n    println!(\"{}\", serde_json::to_string(&result).unwrap());\n}\n"
    );
}

#[test]
fn program_replaces_only_the_first_underscore() {
    let code = generate("_.map(|_| 1)", InputFormat::Tsv, false, OutputFormat::Csv, false);
    assert!(code.contains("    let files: Vec<_> = std::env::args().skip(1).map(|p| std::path::PathBuf::from(p)).collect();\n    let stdin_data = input_tsv_from_files(&files);\n"));
    assert!(code.contains("    let result = stdin_data.map(|_| 1);\n"));
    assert!(code.ends_with("    let items: Vec<_> = result.collect();\n    output_csv(&items);\n}\n"));
}

#[test]
fn program_with_stats_counts_items() {
    let code = generate("_.take(2)", InputFormat::JsonLines, true, OutputFormat::Table, true);
    assert!(code.starts_with("use lob_prelude::*;\nuse std::collections::HashMap;\nuse std::sync::atomic::{AtomicUsize, Ordering};\nuse std::sync::Arc;\nuse std::time::Instant;\nuse lob_prelude::tabled::builder::Builder;\nuse lob_prelude::tabled::settings::Style;\n\nfn main() {\n    let start_time = Instant::now();\n"));
    assert!(code.contains("    let print_interval = 10000; // Print every 10k items\n\n    let stdin_data = input_json();\n    let stdin_data = {\n"));
    assert!(code.contains("    };\n    let result = stdin_data.take(2);\n    let items: Vec<_> = result.collect();\n    if !items.is_empty() {\n"));
    assert!(code.ends_with("[Final Stats] Total items: {} | Throughput: {:.0} items/s | Total time: {:.3}s\", total_items, throughput, elapsed);\n}\n"));
}

#[test]
fn terminal_operations_are_recognised() {
    let source = InputSource { format: InputFormat::Lines, stdin: true };
    let has = |e: &str| {
        CodeGenerator::new(String::from(e), source, OutputFormat::Debug, false).has_terminal_operation()
    };
    for e in [
        "_.collect()", "_.count()", "_.sum::<i32>()", "_.sum()", "_.min()", "_.max()",
        "_.reduce(f)", "_.fold(0, f)", "_.fold_left(0, f)", "_.first()", "_.last()",
        "_.to_list()", "_.any(f)", "_.all(f)",
    ] {
        assert!(has(e), "{}", e);
    }
    assert!(!has("_.filter(|x| x.count)"));
    assert!(!has("_.min ()"));
    assert!(!has(""));
}

#[test]
fn input_and_output_statements() {
    let source = InputSource { format: InputFormat::Csv, stdin: true };
    let generator = CodeGenerator::new(String::from("_.last()"), source, OutputFormat::JsonLines, false);
    let mut code = String::from("x");
    generator.generate_input(&mut code);
    assert_eq!(code, "x    let stdin_data = input_csv();\n");
    let mut code = String::new();
    generator.generate_output(&mut code);
    assert_eq!(code, "    println!(\"{}\", serde_json::to_string(&result).unwrap());\n");
    assert!(source.is_stdin());
}

#[test]
fn compiler_arguments() {
    let plain = Compiler::custom(String::from("rustc"), None);
    assert_eq!(plain.program(), "rustc");
    assert_eq!(
        plain.arguments("a.rs", "a.out", None),
        vec!["--edition=2021", "-C", "opt-level=3", "--crate-type", "bin", "-o", "a.out", "a.rs"]
    );
    let full = Compiler::custom(String::from("/opt/rustc"), Some(String::from("/sys")));
    let target = TargetDir {
        tool: Tool::Lob,
        dir: String::from("/t/debug"),
        deps: String::from("/t/debug/deps"),
    };
    assert_eq!(
        full.arguments("a.rs", "a.out", Some(&target)),
        vec![
            "--edition=2021", "-C", "opt-level=3", "--crate-type", "bin", "-o", "a.out", "a.rs",
            "--extern", "lob_prelude=/t/debug/liblob_prelude.rlib",
            "--extern", "lob_core=/t/debug/liblob_core.rlib",
            "-L", "dependency=/t/debug/deps",
            "--sysroot", "/sys",
        ]
    );
}

#[test]
fn compiler_arguments_for_the_other_tool() {
    let plain = Compiler::custom(String::from("rustc"), None);
    let target = TargetDir { tool: Tool::Flu, dir: String::from("d"), deps: String::from("d/deps") };
    let args = plain.arguments("a.rs", "a.out", Some(&target));
    assert_eq!(
        args[8..],
        [
            "--extern", "flu_prelude=d/libflu_prelude.rlib",
            "--extern", "flu_core=d/libflu_core.rlib",
            "-L", "dependency=d/deps",
        ]
    );
}

#[test]
fn compiler_outcome_plain() {
    assert!(Compiler::outcome_plain(true, "x").is_ok());
    assert!(matches!(
        Compiler::outcome_plain(false, "error: y"),
        Err(flu::FluError::Compilation(m)) if m == "error: y"
    ));
}

#[test]
fn compiler_outcome() {
    assert!(Compiler::outcome(true, "warning: x", None).is_ok());
    match Compiler::outcome(false, "error: bad", Some("_.x")) {
        Err(LobError::Compilation(text)) => {
            assert!(text.contains("error: bad"));
            assert!(text.contains("_.x"));
        }
        _ => panic!("a failed run is a compilation error"),
    }
}

#[test]
fn build_steps_on_a_cache_hit() {
    let (state, step) =
        Compiler::compile_and_cache(BuildState::Looking, BuildEvent::Found(Some(String::from("/c/bin"))));
    assert!(matches!(state, BuildState::Finished));
    match step {
        BuildStep::Done(r) => {
            assert_eq!(r.binary_path, "/c/bin");
            assert!(r.cache_hit);
        }
        _ => panic!("a hit ends the build"),
    }
}

#[test]
fn build_steps_on_a_cache_miss() {
    let (state, step) = Compiler::compile_and_cache(BuildState::Looking, BuildEvent::Found(None));
    assert!(matches!(step, BuildStep::Store));
    let stored = BuildEvent::Stored(Ok((String::from("/c/src.rs"), String::from("/c/bin"))));
    let (state, step) = Compiler::compile_and_cache(state, stored);
    match step {
        BuildStep::Compile { source_path, binary_path } => {
            assert_eq!(source_path, "/c/src.rs");
            assert_eq!(binary_path, "/c/bin");
        }
        _ => panic!("a stored source is compiled"),
    }
    let (state, step) = Compiler::compile_and_cache(state, BuildEvent::Compiled(Ok(())));
    assert!(matches!(state, BuildState::Finished));
    match step {
        BuildStep::Done(r) => {
            assert_eq!(r.binary_path, "/c/bin");
            assert!(!r.cache_hit);
        }
        _ => panic!("a compiled binary ends the build"),
    }
}

#[test]
fn build_steps_on_failures() {
    let failed = BuildEvent::Stored(Err(LobError::Cache(String::from("full"))));
    let (state, step) = Compiler::compile_and_cache(BuildState::Storing, failed);
    assert!(matches!(state, BuildState::Finished));
    assert!(matches!(step, BuildStep::Failed(LobError::Cache(m)) if m == "full"));
    let compiling = BuildState::Compiling { binary_path: String::from("/c/bin") };
    let failed = BuildEvent::Compiled(Err(LobError::Compilation(String::from("no"))));
    let (state, step) = Compiler::compile_and_cache(compiling, failed);
    assert!(matches!(state, BuildState::Finished));
    assert!(matches!(step, BuildStep::Failed(LobError::Compilation(m)) if m == "no"));
}
