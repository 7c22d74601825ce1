use snake::codec::{parse_highscores, render_highscores, u32_to_dec, ParseError};

fn entry(label: &str, score: u32) -> (String, u32) {
    (String::from(label), score)
}

#[test]
fn render_empty_table() {
    let entries: Vec<(String, u32)> = Vec::new();
    assert_eq!(render_highscores(&entries), "{}");
}

#[test]
fn render_one_entry() {
    let entries = vec![entry("a", 5)];
    assert_eq!(render_highscores(&entries), "{\n  \"a\": 5\n}");
}

#[test]
fn render_two_entries() {
    let entries = vec![entry("2024-01-01 00:00:00", 5), entry("b", 0)];
    assert_eq!(
        render_highscores(&entries),
        "{\n  \"2024-01-01 00:00:00\": 5,\n  \"b\": 0\n}"
    );
}

#[test]
fn decimal_rendering() {
    assert_eq!(u32_to_dec(0), "0");
    assert_eq!(u32_to_dec(7), "7");
    assert_eq!(u32_to_dec(1234567890), "1234567890");
    assert_eq!(u32_to_dec(u32::MAX), "4294967295");
}

#[test]
fn parse_empty_table() {
    assert_eq!(parse_highscores("{}"), Ok(Vec::new()));
}

#[test]
fn parse_one_entry() {
    let r = parse_highscores("{\n  \"a\": 5\n}");
    assert_eq!(r, Ok(vec![entry("a", 5)]));
}

#[test]
fn parse_two_entries() {
    let r = parse_highscores("{\n  \"2024-01-01 00:00:00\": 5,\n  \"b\": 0\n}");
    assert_eq!(r, Ok(vec![entry("2024-01-01 00:00:00", 5), entry("b", 0)]));
}

#[test]
fn parse_largest_score() {
    let r = parse_highscores("{\n  \"m\": 4294967295\n}");
    assert_eq!(r, Ok(vec![entry("m", 4294967295)]));
}

#[test]
fn round_trip_many_entries() {
    let entries = vec![
        entry("2024-01-01 00:00:00", 5),
        entry("2024-02-03 10:20:30", 17),
        entry("later on", 0),
        entry("x", u32::MAX),
    ];
    let rendered = render_highscores(&entries);
    assert_eq!(parse_highscores(&rendered), Ok(entries));
}

#[test]
fn parse_rejects_empty_text() {
    assert_eq!(parse_highscores(""), Err(ParseError::Malformed));
}

#[test]
fn parse_rejects_bare_brace() {
    assert_eq!(parse_highscores("{"), Err(ParseError::Malformed));
}

#[test]
fn parse_rejects_array() {
    assert_eq!(parse_highscores("[]"), Err(ParseError::Malformed));
}

#[test]
fn parse_rejects_trailing_text() {
    assert_eq!(parse_highscores("{}x"), Err(ParseError::Malformed));
}

#[test]
fn parse_rejects_leading_zero() {
    assert_eq!(
        parse_highscores("{\n  \"a\": 01\n}"),
        Err(ParseError::Malformed)
    );
}

#[test]
fn parse_rejects_score_above_u32() {
    assert_eq!(
        parse_highscores("{\n  \"a\": 4294967296\n}"),
        Err(ParseError::Malformed)
    );
}

#[test]
fn parse_rejects_repeated_label() {
    assert_eq!(
        parse_highscores("{\n  \"a\": 1,\n  \"a\": 2\n}"),
        Err(ParseError::Malformed)
    );
}

#[test]
fn parse_rejects_backslash_in_label() {
    assert_eq!(
        parse_highscores("{\n  \"a\\b\": 1\n}"),
        Err(ParseError::Malformed)
    );
}

#[test]
fn parse_rejects_unclosed_label() {
    assert_eq!(parse_highscores("{\n  \"a: 1\n}"), Err(ParseError::Malformed));
}

#[test]
fn parse_rejects_missing_score() {
    assert_eq!(parse_highscores("{\n  \"a\": \n}"), Err(ParseError::Malformed));
}
