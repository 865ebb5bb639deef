use pass_age::parse::{parse_blame_output, strip_gpg, BlameParseError};

fn parse(text: &str, name: &str, now: i64) -> Result<pass_age::record::AgeRecord, BlameParseError> {
    parse_blame_output(&text.as_bytes().to_vec(), &name.as_bytes().to_vec(), now)
}

#[test]
fn single_author_no_previous() {
    let text = "deadbeef 1 1 1\nauthor Alice\nauthor-time 1000\nfiller line\n";
    let rec = parse(text, "web/a.gpg", 5000).unwrap();
    assert_eq!(rec.path, b"web/a".to_vec());
    assert_eq!(rec.elapsed, 4000);
    assert!(!rec.has_history);
}

#[test]
fn author_with_previous_marker() {
    let text = "author-time 1000\nprevious 0123abcd web/a.gpg\n";
    let rec = parse(text, "web/a.gpg", 5000).unwrap();
    assert!(rec.has_history);
    assert_eq!(rec.elapsed, 4000);
}

#[test]
fn missing_author_time_fails() {
    let text = "author Alice\nsummary something\nprevious 0123abcd f.gpg\n";
    match parse(text, "f.gpg", 100) {
        Err(BlameParseError::AuthorTimeNotFound) => {}
        other => panic!("expected AuthorTimeNotFound, got {:?}", other),
    }
}

#[test]
fn empty_text_fails_with_not_found() {
    match parse("", "f.gpg", 100) {
        Err(BlameParseError::AuthorTimeNotFound) => {}
        other => panic!("expected AuthorTimeNotFound, got {:?}", other),
    }
}

#[test]
fn non_numeric_final_token_is_malformed() {
    let text = "author-time abc\n";
    match parse(text, "f.gpg", 100) {
        Err(BlameParseError::MalformedAuthorTime { line }) => {
            assert_eq!(line, b"author-time abc".to_vec());
        }
        other => panic!("expected MalformedAuthorTime, got {:?}", other),
    }
}

#[test]
fn author_time_without_field_is_malformed() {
    match parse("author-time\n", "f.gpg", 100) {
        Err(BlameParseError::MalformedAuthorTime { line }) => {
            assert_eq!(line, b"author-time".to_vec());
        }
        other => panic!("expected MalformedAuthorTime, got {:?}", other),
    }
}

#[test]
fn last_author_time_wins() {
    let text = "author-time 10\nauthor-time 20\n";
    let rec = parse(text, "f.gpg", 100).unwrap();
    assert_eq!(rec.elapsed, 80);
}

#[test]
fn first_malformed_author_time_wins() {
    let text = "author-time bad\nauthor-time 20\n";
    match parse(text, "f.gpg", 100) {
        Err(BlameParseError::MalformedAuthorTime { line }) => {
            assert_eq!(line, b"author-time bad".to_vec());
        }
        other => panic!("expected MalformedAuthorTime, got {:?}", other),
    }
}

#[test]
fn carriage_returns_are_stripped_at_line_ends() {
    let text = "author-time 10\r\nprevious 0123 f.gpg\r\n";
    let rec = parse(text, "f.gpg", 25).unwrap();
    assert_eq!(rec.elapsed, 15);
    assert!(rec.has_history);
}

#[test]
fn negative_timestamp_gives_larger_elapsed() {
    let rec = parse("author-time -5\n", "f.gpg", 10).unwrap();
    assert_eq!(rec.elapsed, 15);
}

#[test]
fn future_timestamp_gives_negative_elapsed() {
    let rec = parse("author-time 500\n", "f.gpg", 100).unwrap();
    assert_eq!(rec.elapsed, -400);
}

#[test]
fn leading_zeros_parse() {
    let rec = parse("author-time 0010\n", "f.gpg", 100).unwrap();
    assert_eq!(rec.elapsed, 90);
}

#[test]
fn extra_whitespace_before_final_field() {
    let rec = parse("author-time   42  \n", "f.gpg", 100).unwrap();
    assert_eq!(rec.elapsed, 58);
}

#[test]
fn out_of_range_timestamp_is_malformed() {
    let text = "author-time 99999999999999999999999\n";
    match parse(text, "f.gpg", 100) {
        Err(BlameParseError::MalformedAuthorTime { .. }) => {}
        other => panic!("expected MalformedAuthorTime, got {:?}", other),
    }
}

#[test]
fn text_without_trailing_newline_parses() {
    let rec = parse("author-time 7", "f.gpg", 10).unwrap();
    assert_eq!(rec.elapsed, 3);
}

#[test]
fn previous_marker_matches_by_prefix() {
    let rec = parse("author-time 5\npreviously-unrelated words\n", "f.gpg", 10).unwrap();
    assert!(rec.has_history);
}

#[test]
fn strip_gpg_removes_suffix() {
    assert_eq!(strip_gpg(&b"web/a.gpg".to_vec()), b"web/a".to_vec());
}

#[test]
fn strip_gpg_leaves_other_names() {
    assert_eq!(strip_gpg(&b"web/a.txt".to_vec()), b"web/a.txt".to_vec());
    assert_eq!(strip_gpg(&b"abc".to_vec()), b"abc".to_vec());
}
