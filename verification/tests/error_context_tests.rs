use treeq::error_context::{format_error_context, json_error_context, xml_error_context};

fn parse_json_err(input: &str) -> serde_json::Error {
    serde_json::from_str::<serde_json::Value>(input).unwrap_err()
}

fn parse_xml_err(input: &str) -> roxmltree::Error {
    roxmltree::Document::parse(input).unwrap_err()
}

#[test]
fn reports_line_and_column_header() {
    let input = "{\n  \"a\": 1,\n  \"b\": 2\n  \"c\": 3\n}";
    let err = parse_json_err(input);
    let out = json_error_context(input, &err);
    assert!(out.contains(&format!("line {}", err.line())));
    assert!(out.contains(&format!("column {}", err.column())));
}

#[test]
fn includes_context_lines_and_caret() {
    let input = "{\n  \"a\": 1,\n  \"b\": 2\n  \"c\": 3\n}";
    let err = parse_json_err(input);
    let out = json_error_context(input, &err);
    assert!(out.contains(&format!("{} | ", err.line())));
    assert!(out.contains('^'));
}

#[test]
fn includes_raw_message() {
    let input = "{ \"a\": }";
    let err = parse_json_err(input);
    let out = json_error_context(input, &err);
    assert!(out.contains(&err.to_string()));
}

#[test]
fn handles_error_on_first_line() {
    let input = "{,}";
    let err = parse_json_err(input);
    let out = json_error_context(input, &err);
    assert!(out.contains("line 1"));
    assert!(out.contains('^'));
}

#[test]
fn handles_unclosed_brace_at_eof() {
    let input = "{\n  \"a\": 1\n";
    let err = parse_json_err(input);
    let out = json_error_context(input, &err);
    let lines: Vec<&str> = input.lines().collect();
    let display_line = err.line().min(lines.len().max(1));
    assert!(out.contains(&format!("line {display_line}")));
    assert!(out.contains(&format!("{display_line} | ")));
    assert!(out.contains(&err.to_string()));
}

#[test]
fn sanitizes_raw_control_bytes_in_the_offending_line_instead_of_echoing_them() {
    let input = "{\"a\": \u{1b}]0;PWNED\u{7}bad}";
    let err = parse_json_err(input);
    let out = json_error_context(input, &err);
    assert!(!out.contains('\u{1b}'), "raw ESC byte must not survive the snippet");
    assert!(!out.contains('\u{7}'), "raw BEL byte must not survive the snippet");
}

#[test]
fn sanitizes_raw_control_bytes_that_the_underlying_parser_formats_into_its_own_message() {
    let input = "<root a=\u{1b}\"v\"/>";
    let err = parse_xml_err(input);
    let out = xml_error_context(input, &err);
    assert!(!out.contains('\u{1b}'), "raw ESC byte from the parser's own message must not survive");
}

#[test]
fn does_not_panic_on_empty_input() {
    let input = "";
    let err = parse_json_err(input);
    let out = json_error_context(input, &err);
    assert!(out.contains(&err.to_string()));
}

#[test]
fn caret_accounts_for_multi_byte_utf8_characters_before_the_error() {
    let input = "{\n  \"a\": \"日本語\", x\n}";
    let err = parse_json_err(input);
    let out = json_error_context(input, &err);
    let caret_line = out.lines().find(|l| l.contains('^')).unwrap();
    let error_line = out.lines().find(|l| l.trim_start().starts_with("2 |")).unwrap();
    let caret_col = caret_line.chars().position(|c| c == '^').unwrap();
    let x_col = error_line.chars().position(|c| c == 'x').unwrap();
    assert_eq!(caret_col, x_col, "caret must align under 'x': {out}");
}

#[test]
fn caret_accounts_for_leading_tabs() {
    let input = "{\n\t\"a\": bad\n}";
    let err = parse_json_err(input);
    let out = json_error_context(input, &err);
    let caret_line = out.lines().find(|l| l.contains('^')).unwrap();
    let error_line = out.lines().find(|l| l.trim_start().starts_with("2 |")).unwrap();
    let caret_col = caret_line.chars().position(|c| c == '^').unwrap();
    let b_col = error_line.chars().position(|c| c == 'b').unwrap();
    assert_eq!(caret_col, b_col, "caret must align under 'bad': {out}");
}

#[test]
fn truncates_pathologically_long_lines_around_the_caret() {
    let long_value = "x".repeat(500);
    let input = format!("{{\"a\": \"{long_value}, bad}}");
    let err = parse_json_err(&input);
    let out = json_error_context(&input, &err);
    assert!(out.lines().all(|l| l.chars().count() < 300), "no line should dump the full 500+ char value: {out}");
    assert!(out.contains('…'));
}

#[test]
fn xml_error_context_renders_a_snippet_and_caret() {
    let input = "<root><unclosed></root>";
    let err = parse_xml_err(input);
    let out = xml_error_context(input, &err);
    assert!(out.contains("invalid XML"));
    assert!(out.contains('^'));
    assert!(out.contains("1 | "));
}

#[test]
fn formats_the_whole_report_exactly() {
    let out = format_error_context("JSON", "{\n  \"a\" 1\n}", 2, 7, true, "expected `:`");
    assert_eq!(
        out,
        "error: invalid JSON at line 2, column 7\n\n1 | {\n2 |   \"a\" 1\n          ^\n3 | }\n\nexpected `:`"
    );
}
