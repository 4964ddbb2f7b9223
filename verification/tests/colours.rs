use flu::LobError;

#[test]
fn report_in_colour() {
    colored::control::set_override(true);
    let formatted = LobError::format_compilation_error("error: x\n  = help: h\nplain", Some("_.y"));
    let lines: Vec<&str> = formatted.split('\n').collect();
    assert_eq!(lines[0], "\u{1b}[1;31m✗ Compilation Error\u{1b}[0m");
    assert_eq!(
        lines[2],
        "  \u{1b}[1;36mYour expression:\u{1b}[0m \u{1b}[33m_.y\u{1b}[0m"
    );
    assert_eq!(lines[4], "  \u{1b}[1;31merror: x\u{1b}[0m");
    assert_eq!(lines[5], "  \u{1b}[34m  = help: h\u{1b}[0m");
    assert_eq!(lines[6], "  plain");
    assert_eq!(
        lines[8],
        "\u{1b}[34mTip: Check your expression syntax and ensure all parentheses match\u{1b}[0m"
    );
}

#[test]
fn report_kinds_of_lines_in_colour() {
    colored::control::set_override(true);
    let stderr = "warning[E1]: w\n --> /a/b.rs:1:2\n  | note\n  ^^ |\n  = note: n\n\n";
    let formatted = LobError::format_compilation_error(stderr, None);
    let lines: Vec<&str> = formatted.split('\n').collect();
    assert_eq!(lines[2], "  \u{1b}[1;33mwarning[E1]: w\u{1b}[0m");
    assert_eq!(lines[3], "  \u{1b}[36m--> b.rs:1:2\u{1b}[0m");
    assert_eq!(lines[4], "  \u{1b}[36m  | note\u{1b}[0m");
    assert_eq!(lines[5], "  \u{1b}[1;31m  ^^ |\u{1b}[0m");
    assert_eq!(lines[6], "  \u{1b}[36m  = note: n\u{1b}[0m");
    assert_eq!(lines[7], "");
    assert_eq!(lines.len(), 10);
}
