use csv_reader::csv_line::{csv_quote_value, detect_delimiter, format_csv_row, parse_csv_line};
use csv_reader::search::{contains_ascii_case_insensitive, contains_text, extract_match_context, find_case_insensitive};
use csv_reader::text::truncate_cell;

#[test]
fn parses_quoted_delimiter_and_escaped_quote() {
    assert_eq!(
        parse_csv_line("alpha,\"bravo,charlie\",\"say \"\"hi\"\"\"\r\n", ','),
        vec!["alpha", "bravo,charlie", "say \"hi\""]
    );
}

#[test]
fn csv_engine_parses_quoted_delimiter_and_escaped_quote() {
    assert_eq!(
        parse_csv_line("alpha,\"bravo,charlie\",\"say \"\"hi\"\"\"\r\n", ','),
        vec!["alpha", "bravo,charlie", "say \"hi\""]
    );
}

#[test]
fn detects_delimiter_outside_quotes() {
    assert_eq!(detect_delimiter("name;\"notes,with,commas\";value"), ';');
    assert_eq!(detect_delimiter("plain text"), ',');
}

#[test]
fn csv_engine_detects_delimiter_outside_quotes() {
    assert_eq!(detect_delimiter("name;\"notes,with,commas\";value"), ';');
    assert_eq!(detect_delimiter("plain text"), ',');
}

#[test]
fn truncates_unicode_at_character_boundary() {
    let text = "a".repeat(499) + "中tail";
    let truncated = truncate_cell(&text, 500);
    assert_eq!(truncated, "a".repeat(499));
}

#[test]
fn csv_engine_truncates_unicode_at_character_boundary() {
    let text = "a".repeat(499) + "中tail";
    let truncated = truncate_cell(&text, 500);
    assert_eq!(truncated, "a".repeat(499));
}

#[test]
fn extracts_case_insensitive_unicode_context_safely() {
    let text = "前".repeat(120) + "TARGET" + &"后".repeat(120);
    let context = extract_match_context(&text, "target", Some("target"));
    assert!(context.contains("TARGET"));
    assert!(context.starts_with("..."));
    assert!(context.ends_with("..."));
}

#[test]
fn csv_engine_extracts_case_insensitive_unicode_context_safely() {
    let text = "前".repeat(120) + "TARGET" + &"后".repeat(120);
    let context = extract_match_context(&text, "target", Some("target"));
    assert!(context.contains("TARGET"));
    assert!(context.starts_with("..."));
    assert!(context.ends_with("..."));
}

#[test]
fn formatted_row_parses_back_to_its_cells() {
    let cells = vec![
        "plain".to_string(),
        "with,comma".to_string(),
        "with \"quote\"".to_string(),
        "line\r\nbreak".to_string(),
        String::new(),
    ];
    for delimiter in [',', ';', '\t', '|'] {
        let line = format_csv_row(&cells, delimiter);
        assert_eq!(parse_csv_line(&line, delimiter), cells);
    }
}

#[test]
fn quotes_only_values_that_need_it() {
    assert_eq!(csv_quote_value("plain", ','), "plain");
    assert_eq!(csv_quote_value("a,b", ','), "\"a,b\"");
    assert_eq!(csv_quote_value("a,b", ';'), "a,b");
    assert_eq!(csv_quote_value("say \"hi\"", ','), "\"say \"\"hi\"\"\"");
    assert_eq!(csv_quote_value("two\nlines", ','), "\"two\nlines\"");
    assert_eq!(format_csv_row(&["x".to_string(), "y,z".to_string()], ','), "x,\"y,z\"");
}

#[test]
fn parsing_drops_line_breaks_outside_quotes_and_keeps_empty_cells() {
    assert_eq!(parse_csv_line("", ','), vec![""]);
    assert_eq!(parse_csv_line("a,,b\n", ','), vec!["a", "", "b"]);
    assert_eq!(parse_csv_line("a\tb", '\t'), vec!["a", "b"]);
}

#[test]
fn delimiter_ties_go_to_the_earlier_candidate() {
    assert_eq!(detect_delimiter("a,b;c"), ',');
    assert_eq!(detect_delimiter("a|b|c;d"), '|');
    assert_eq!(detect_delimiter("a\tb\tc,d"), '\t');
    assert_eq!(detect_delimiter("\"a;b;c\",d"), ',');
}

#[test]
fn ascii_search_ignores_case_only_for_letters() {
    assert!(contains_ascii_case_insensitive(b"Hello World", b"WORLD"));
    assert!(contains_ascii_case_insensitive(b"x-1", b"-1"));
    assert!(!contains_ascii_case_insensitive(b"Hello", b"help"));
    assert!(!contains_ascii_case_insensitive(b"ab", b"abc"));
}

#[test]
fn text_search_uses_the_lower_cased_query_when_given() {
    assert!(contains_text("Straße", "STRASSE", Some("straße")));
    assert!(!contains_text("Straße", "STRASSE", None));
    assert!(contains_text("ÉCOLE", "école", Some("école")));
    assert!(!contains_text("ÉCOLE", "école", None));
}

#[test]
fn case_insensitive_find_reports_byte_offsets() {
    assert_eq!(find_case_insensitive("前TARGET", "target"), Some((3, 9)));
    assert_eq!(find_case_insensitive("abc", "x"), None);
    assert_eq!(find_case_insensitive("xÀy", "à"), Some((1, 3)));
}

#[test]
fn match_context_cuts_long_cells_without_a_match() {
    let text = "é".repeat(150);
    let context = extract_match_context(&text, "zzz", None);
    assert_eq!(context, "é".repeat(100));
    let short = extract_match_context("find me here", "me", None);
    assert_eq!(short, "find me here");
}
