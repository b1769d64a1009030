use lcp_finder::parse::{
    expand_at_index, parse_input, simplify_parsed_input, unravel_shorthand, ParseError,
};

fn rows(data: &[&[&str]]) -> Vec<Vec<String>> {
    data.iter()
        .map(|row| row.iter().map(|s| s.to_string()).collect())
        .collect()
}

fn labels(data: &[&str]) -> Vec<String> {
    data.iter().map(|s| s.to_string()).collect()
}

#[test]
fn unravel_single_characters() {
    assert_eq!(unravel_shorthand("abc"), Ok(labels(&["a", "b", "c"])));
}

#[test]
fn unravel_parenthesized_labels() {
    assert_eq!(
        unravel_shorthand("(alpha)b(cd)"),
        Ok(labels(&["alpha", "b", "cd"]))
    );
}

#[test]
fn unravel_rejects_missing_close_paren() {
    assert_eq!(unravel_shorthand("(ab"), Err(ParseError::MissingCloseParen));
}

#[test]
fn unravel_rejects_stray_close_paren() {
    assert_eq!(unravel_shorthand("a)"), Err(ParseError::UnexpectedCloseParen));
}

#[test]
fn unravel_rejects_nested_open_paren() {
    assert_eq!(unravel_shorthand("((a)"), Err(ParseError::UnexpectedOpenParen));
}

#[test]
fn unravel_rejects_empty_label() {
    assert_eq!(unravel_shorthand("()"), Err(ParseError::EmptyLabel));
}

#[test]
fn unravel_rejects_inner_whitespace() {
    assert_eq!(
        unravel_shorthand("a\tb"),
        Err(ParseError::UnexpectedWhitespace('\t'))
    );
    assert_eq!(
        unravel_shorthand("(a b)"),
        Err(ParseError::UnexpectedWhitespace(' '))
    );
}

#[test]
fn expand_at_index_expands_one_slot() {
    let row = labels(&["ab", "c"]);
    assert_eq!(
        expand_at_index(&row, 0),
        Ok(rows(&[&["a", "c"], &["b", "c"]]))
    );
}

#[test]
fn expand_at_index_rejects_bad_index() {
    let row = labels(&["a"]);
    assert_eq!(expand_at_index(&row, 1), Err(ParseError::IndexOutOfRange));
}

#[test]
fn parse_plain_rows() {
    assert_eq!(
        parse_input("a b\nb c\n"),
        Ok(rows(&[&["a", "b"], &["b", "c"]]))
    );
}

#[test]
fn parse_expands_shorthand() {
    assert_eq!(
        parse_input("ab c"),
        Ok(rows(&[&["a", "c"], &["b", "c"]]))
    );
    assert_eq!(
        parse_input("(x)(y) z"),
        Ok(rows(&[&["x", "z"], &["y", "z"]]))
    );
}

#[test]
fn parse_skips_blank_lines_and_extra_spaces() {
    assert_eq!(
        parse_input("\n  a   b  \n\n\tb c\r\n"),
        Ok(rows(&[&["a", "b"], &["b", "c"]]))
    );
}

#[test]
fn parse_rejects_empty_input() {
    assert_eq!(parse_input(""), Err(ParseError::NoRows));
    assert_eq!(parse_input("  \n \n"), Err(ParseError::NoRows));
}

#[test]
fn parse_rejects_mismatched_row_lengths() {
    assert_eq!(
        parse_input("a\nb c"),
        Err(ParseError::MismatchedRowLengths { expected: 1, found: 2 })
    );
}

#[test]
fn parse_reports_first_shorthand_error() {
    assert_eq!(parse_input("(a\nb"), Err(ParseError::MissingCloseParen));
}

#[test]
fn simplify_sorts_and_deduplicates() {
    let parsed = rows(&[&["b", "a"], &["a", "b"], &["c", "a"]]);
    assert_eq!(
        simplify_parsed_input(parsed),
        rows(&[&["a", "b"], &["a", "c"]])
    );
}

#[test]
fn simplify_sorts_rows_lexicographically() {
    let parsed = rows(&[&["c", "c"], &["a", "b"], &["a", "a"]]);
    assert_eq!(
        simplify_parsed_input(parsed),
        rows(&[&["a", "a"], &["a", "b"], &["c", "c"]])
    );
}

#[test]
fn simplify_orders_multi_character_labels() {
    let parsed = rows(&[&["beta", "alpha"]]);
    assert_eq!(simplify_parsed_input(parsed), rows(&[&["alpha", "beta"]]));
}

#[test]
fn parsed_input_feeds_the_search() {
    let active_source = simplify_parsed_input(parse_input("ab").unwrap());
    // Each shorthand expression expands independently: "aa ab bb" is one row
    // of three two-label slots, expanded into eight rows, which normalization
    // collapses to the two distinct configurations.
    let raw = parse_input("aa ab bb").unwrap();
    assert_eq!(raw.len(), 8);
    let passive_source = simplify_parsed_input(raw);
    assert_eq!(active_source, rows(&[&["a"], &["b"]]));
    assert_eq!(
        passive_source,
        rows(&[&["a", "a", "b"], &["a", "b", "b"]])
    );
}
