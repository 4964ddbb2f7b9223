use flu::{LobError, Suggestion};

#[test]
fn format_error_with_user_expression() {
    let stderr = "error: expected `;`";
    let formatted = LobError::format_compilation_error(stderr, Some("_.map(|x| x"));
    assert!(formatted.contains("Your expression:"));
    assert!(formatted.contains("error: expected `;`"));
}

#[test]
fn format_error_without_user_expression() {
    let stderr = "error: something went wrong";
    let formatted = LobError::format_compilation_error(stderr, None);
    assert!(!formatted.contains("Your expression:"));
    assert!(formatted.contains("error: something went wrong"));
}

#[test]
fn format_error_warning_header() {
    let stderr = "warning: unused variable";
    let formatted = LobError::format_compilation_error(stderr, None);
    assert!(formatted.contains("warning: unused variable"));
}

#[test]
fn format_error_location_simplified() {
    let stderr = "  --> /path/to/file.rs:10:5";
    let formatted = LobError::format_compilation_error(stderr, None);
    assert!(formatted.contains("file.rs:10:5"));
    assert!(!formatted.contains("/path/to/"));
}

#[test]
fn format_error_location_fallback() {
    let stderr = "  --> invalid-path-format";
    let formatted = LobError::format_compilation_error(stderr, None);
    assert!(formatted.contains("invalid-path-format"));
}

#[test]
fn format_error_code_and_caret_lines() {
    let stderr = "error: test\n 1 | let x = y;\n     ^^^^^^";
    let formatted = LobError::format_compilation_error(stderr, None);
    assert!(formatted.contains("let x = y;"));
    assert!(formatted.contains("^^^^^^"));
}

#[test]
fn format_error_help_and_note() {
    let stderr = "  = help: try this\n  = note: some context";
    let formatted = LobError::format_compilation_error(stderr, None);
    assert!(formatted.contains("= help: try this"));
    assert!(formatted.contains("= note: some context"));
}

#[test]
fn format_error_summary_lines() {
    let stderr = "error: aborting due to 2 previous errors";
    let formatted = LobError::format_compilation_error(stderr, None);
    assert!(formatted.contains("aborting due to"));
}

#[test]
fn report_has_one_line_for_each_line_between_head_and_foot() {
    colored::control::set_override(false);
    let formatted = LobError::format_compilation_error("a\r\nb\n\nc\n", None);
    let lines: Vec<&str> = formatted.split('\n').collect();
    assert_eq!(lines.len(), 2 + 4 + 2);
    assert_eq!(lines[1], "");
    assert_eq!(lines[2], "  a");
    assert_eq!(lines[3], "  b");
    assert_eq!(lines[4], "");
    assert_eq!(lines[5], "  c");
    assert_eq!(lines[6], "");
}

#[test]
fn report_with_advice_lists_the_fixes() {
    let advice = Suggestion {
        problem: String::from("missing bracket"),
        fixes: vec![String::from("add `)`"), String::from("count again")],
    };
    colored::control::set_override(false);
    let formatted = LobError::format_compilation_error_with("", Some("_.x("), &advice);
    assert!(formatted.contains("Problem:"));
    assert!(formatted.contains("\n    missing bracket\n"));
    assert!(formatted.contains("How to fix:"));
    assert!(formatted.contains("\n    • add `)`\n    • count again\n"));
}

#[test]
fn simplify_error_location_cases() {
    assert_eq!(
        LobError::simplify_error_location("  --> /a/b/c.rs:1:2"),
        Some(String::from("--> c.rs:1:2"))
    );
    assert_eq!(
        LobError::simplify_error_location("-->   plain.rs:7  "),
        Some(String::from("--> plain.rs:7"))
    );
    assert_eq!(LobError::simplify_error_location("--> no-colon"), None);
    assert_eq!(LobError::simplify_error_location("no arrow: here"), None);
}

#[test]
fn error_messages() {
    assert_eq!(LobError::Io(String::from("gone")).message(), "IO error: gone");
    assert_eq!(
        LobError::Compilation(String::from("x")).message(),
        "Compilation failed:\nx"
    );
    assert_eq!(LobError::Cache(String::from("x")).message(), "Cache error: x");
    assert_eq!(LobError::Toolchain(String::from("x")).message(), "Toolchain error: x");
    assert_eq!(
        LobError::InvalidExpression(String::from("x")).message(),
        "Invalid expression: x"
    );
    assert_eq!(
        flu::FluError::CodeGen(String::from("x")).message(),
        "Code generation error: x"
    );
}

#[test]
fn flu_error_messages() {
    use_messages();
}

fn use_messages() {
    let x = || String::from("x");
    assert_eq!(flu::FluError::Io(x()).message(), "IO error: x");
    assert_eq!(flu::FluError::Compilation(x()).message(), "Compilation failed:\nx");
    assert_eq!(flu::FluError::Cache(x()).message(), "Cache error: x");
    assert_eq!(flu::FluError::Toolchain(x()).message(), "Toolchain error: x");
    assert_eq!(flu::FluError::InvalidExpression(x()).message(), "Invalid expression: x");
}
