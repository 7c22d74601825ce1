use snake::codec::parse_highscores;
use snake::score::ScoreBoard;

fn entry(label: &str, score: u32) -> (String, u32) {
    (String::from(label), score)
}

#[test]
fn fresh_board_is_empty() {
    let b = ScoreBoard::new();
    assert_eq!(b.score, 0);
    assert!(b.highscores.is_empty());
}

#[test]
fn increase_and_reset() {
    let mut b = ScoreBoard::new();
    b.increase();
    b.increase();
    b.increase();
    assert_eq!(b.score, 3);
    b.reset_score();
    assert_eq!(b.score, 0);
}

#[test]
fn empty_table_beats_nothing() {
    let b = ScoreBoard::new();
    assert!(b.is_highscore());
}

#[test]
fn strict_inequality_decides_high_scores() {
    let mut b = ScoreBoard::with_table(vec![entry("2024-01-01 00:00:00", 5)]);
    b.score = 6;
    assert!(b.is_highscore());
    b.score = 5;
    assert!(!b.is_highscore());
}

#[test]
fn save_and_reload_one_entry() {
    let b = ScoreBoard::with_table(vec![entry("2024-01-01 00:00:00", 5)]);
    let stored = b.save_json();
    let reloaded = parse_highscores(&stored).unwrap();
    assert_eq!(reloaded, vec![entry("2024-01-01 00:00:00", 5)]);
}

#[test]
fn record_fresh_label_appends() {
    let mut b = ScoreBoard::with_table(vec![entry("first", 2)]);
    b.score = 9;
    b.record_score(String::from("second"));
    assert_eq!(b.highscores, vec![entry("first", 2), entry("second", 9)]);
}

#[test]
fn record_stored_label_overwrites() {
    let mut b = ScoreBoard::with_table(vec![entry("first", 2), entry("second", 3)]);
    b.score = 9;
    b.record_score(String::from("first"));
    assert_eq!(b.highscores, vec![entry("first", 9), entry("second", 3)]);
}

#[test]
fn insert_highscore_records_and_renders() {
    let mut b = ScoreBoard::new();
    b.increase();
    b.increase();
    let stored = b.insert_highscore();
    assert_eq!(b.highscores.len(), 1);
    assert_eq!(b.highscores[0].1, 2);
    let reloaded = parse_highscores(&stored).unwrap();
    assert_eq!(reloaded, b.highscores);
}

#[test]
fn save_and_reload_many_entries() {
    let mut b = ScoreBoard::with_table(vec![entry("2024-01-01 00:00:00", 5)]);
    b.score = 6;
    b.record_score(String::from("2024-01-02 00:00:00"));
    let stored = b.save_json();
    let reloaded = parse_highscores(&stored).unwrap();
    assert_eq!(reloaded, b.highscores);
    assert_eq!(reloaded.len(), 2);
}
