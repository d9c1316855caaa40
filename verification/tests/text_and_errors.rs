use rcss::error::{get_error_context, RCSSError};
use rcss::text::{lex_le_exec, percent_rank_exec, replace_token, split_lines_exec, str_eq, trim,
    trim_end, trim_leading_char, trim_trailing_char, usize_to_string};

#[test]
fn trim_removes_surrounding_whitespace_only() {
    assert_eq!(trim("  color: red;  \n"), "color: red;");
    assert_eq!(trim(""), "");
    assert_eq!(trim("   \t\n"), "");
    assert_eq!(trim("a b"), "a b");
}

#[test]
fn trim_end_keeps_leading_whitespace() {
    assert_eq!(trim_end("  x  "), "  x");
    assert_eq!(trim_end("x"), "x");
    assert_eq!(trim_end("  "), "");
}

#[test]
fn leading_and_trailing_char_trims() {
    assert_eq!(trim_leading_char("&&name", '&'), "name");
    assert_eq!(trim_trailing_char("50%%", '%'), "50");
    assert_eq!(trim_leading_char("name", '&'), "name");
}

#[test]
fn replace_token_matches_whole_identifiers() {
    assert_eq!(replace_token("color: &c;", "&c", "red"), "color: red;");
    assert_eq!(replace_token("x: &c &c2;", "&c", "red"), "x: red &c2;");
    assert_eq!(replace_token("x: &c, &c", "&c", "red"), "x: red, red");
    assert_eq!(replace_token("no reference", "&c", "red"), "no reference");
}

#[test]
fn string_equality_is_by_contents() {
    assert!(str_eq("abc", "abc"));
    assert!(!str_eq("abc", "abd"));
    assert!(!str_eq("abc", "ab"));
    assert!(str_eq("", ""));
}

#[test]
fn lexicographic_order_is_by_code_point() {
    assert!(lex_le_exec("a", "b"));
    assert!(lex_le_exec("a", "a"));
    assert!(!lex_le_exec("b", "a"));
    assert!(lex_le_exec("", "a"));
    assert!(lex_le_exec("ab", "b"));
    assert!(lex_le_exec("100%", "50%"));
}

#[test]
fn percent_rank_reads_the_numeric_prefix() {
    assert_eq!(percent_rank_exec("0%"), 0);
    assert_eq!(percent_rank_exec("37%"), 37);
    assert_eq!(percent_rank_exec("100%"), 100);
    assert_eq!(percent_rank_exec("from"), 0);
    assert_eq!(percent_rank_exec("99999999999999999999%"), 0);
}

#[test]
fn split_lines_matches_line_endings() {
    let lines = split_lines_exec("a\nb\r\nc");
    assert_eq!(lines, vec!["a".to_string(), "b".to_string(), "c".to_string()]);
    let lines = split_lines_exec("a\n");
    assert_eq!(lines, vec!["a".to_string()]);
    assert_eq!(split_lines_exec("").len(), 0);
}

#[test]
fn decimal_rendering_is_exact() {
    assert_eq!(usize_to_string(0), "0");
    assert_eq!(usize_to_string(42), "42");
    assert_eq!(usize_to_string(1000), "1000");
}

#[test]
fn error_context_brackets_the_failing_line() {
    let src = "one\ntwo\nthree\nfour\nfive\nsix";
    // line numbers are 1-based; the window spans two lines either side
    assert_eq!(get_error_context(src, 3, 2), "two\nthree\nfour\nfive\n");
    assert_eq!(get_error_context(src, 1, 2), "one\ntwo\nthree\n");
    assert_eq!(get_error_context("", 1, 2), "");
}

#[test]
fn errors_render_their_one_line_form() {
    let e = RCSSError::VariableError {
        file_path: "main.rcss".to_string(),
        variable_name: "primary".to_string(),
        line: 3,
        column: 7,
        message: "Could not find variable: primary".to_string(),
        context: "ctx".to_string(),
    };
    assert_eq!(
        e.to_display_string(),
        "Variable Error in main.rcss for 'primary' - Could not find variable: primary"
    );
    let p = RCSSError::ParseError {
        file_path: "main.rcss".to_string(),
        line: 12,
        column: 4,
        message: "unexpected token".to_string(),
        context: "ctx".to_string(),
    };
    assert_eq!(
        p.to_display_string(),
        "Parse Error at main.rcss:12:4 - unexpected token (Context: ctx)"
    );
}
