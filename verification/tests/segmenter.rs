use logview::segment::{find_stamp, find_stamps, segment, segment_lines, split_into_lines, trim_text};

#[test]
fn two_timestamped_lines_segment_in_order() {
    // Two timestamped lines yield two records, in file order.
    let text = "[2024-01-01 00:00:00] hello\n[2024-01-01 00:00:05] world";
    let (logs, content) = segment(text);
    assert_eq!(logs, vec!["[2024-01-01 00:00:00]", "[2024-01-01 00:00:05]"]);
    assert_eq!(content, vec!["hello", "world"]);
}

#[test]
fn no_timestamp_yields_no_records() {
    let (logs, content) = segment("nothing here\njust text\n");
    assert_eq!(logs.len(), 0);
    assert_eq!(content.len(), 0);
}

#[test]
fn text_before_first_timestamp_is_dropped() {
    let text = "header junk\nmore junk\n[2024-01-01 00:00:00] first";
    let (logs, content) = segment(text);
    assert_eq!(logs, vec!["[2024-01-01 00:00:00]"]);
    assert_eq!(content, vec!["first"]);
}

#[test]
fn multi_line_bodies_join_with_newline_and_trim() {
    let text = "[2024-01-01 00:00:00] a\n  middle  \nend\n[2024-01-01 00:00:05]   b  ";
    let (logs, content) = segment(text);
    assert_eq!(logs.len(), 2);
    // Inner whitespace is kept, the body's own ends are trimmed.
    assert_eq!(content[0], "a\n  middle  \nend");
    assert_eq!(content[1], "b");
}

#[test]
fn timestamp_mid_line_starts_record_after_it() {
    // The token need not anchor at the line start; what precedes it on
    // the line belongs to no record.
    let text = "noise [2024-01-01 00:00:00] body";
    let (logs, content) = segment(text);
    assert_eq!(logs, vec!["[2024-01-01 00:00:00]"]);
    assert_eq!(content, vec!["body"]);
}

#[test]
fn empty_body_between_timestamps() {
    let text = "[2024-01-01 00:00:00]\n[2024-01-01 00:00:05] x";
    let (logs, content) = segment(text);
    assert_eq!(logs.len(), 2);
    assert_eq!(content[0], "");
    assert_eq!(content[1], "x");
}

#[test]
fn segment_lines_matches_segment_on_split_text() {
    let lines = vec![
        String::from("[2024-01-01 00:00:00] one"),
        String::from("cont"),
        String::from("[2024-01-01 00:00:05] two"),
    ];
    let (logs, content) = segment_lines(&lines);
    assert_eq!(logs, vec!["[2024-01-01 00:00:00]", "[2024-01-01 00:00:05]"]);
    assert_eq!(content, vec!["one\ncont", "two"]);
}

#[test]
fn find_stamp_accepts_exact_shape() {
    assert_eq!(find_stamp("[2024-01-15 10:30:00]"), Some(0));
    assert_eq!(find_stamp("xx[2024-01-15 10:30:00]yy"), Some(2));
}

#[test]
fn find_stamp_rejects_near_misses() {
    assert_eq!(find_stamp("[2024-1-15 10:30:00]"), None);
    assert_eq!(find_stamp("[2024-01-15T10:30:00]"), None);
    assert_eq!(find_stamp("2024-01-15 10:30:00"), None);
    assert_eq!(find_stamp("[2024-01-15 10:30:0]"), None);
    assert_eq!(find_stamp(""), None);
}

#[test]
fn find_stamp_returns_leftmost() {
    let line = "[2024-01-01 00:00:00] and [2024-01-01 00:00:05]";
    assert_eq!(find_stamp(line), Some(0));
}

#[test]
fn find_stamps_returns_every_occurrence() {
    let line = "[2024-01-01 00:00:00] and [2024-01-01 00:00:05]";
    assert_eq!(find_stamps(line), vec![0, 26]);
    assert_eq!(find_stamps("none here"), Vec::<usize>::new());
}

#[test]
fn two_tokens_on_one_line_yield_two_records() {
    // Every occurrence starts a record, also a second one on the same
    // line; the text between the two tokens is the first record's body.
    let text = "[2024-01-01 00:00:00] a [2024-01-01 00:00:05] b";
    let (logs, content) = segment(text);
    assert_eq!(logs, vec!["[2024-01-01 00:00:00]", "[2024-01-01 00:00:05]"]);
    assert_eq!(content, vec!["a", "b"]);
}

#[test]
fn text_before_a_later_token_joins_the_previous_body() {
    // A mid-file line's text before its token still belongs to the
    // record the previous token started, joined across the line break.
    let text = "[2024-01-01 00:00:00] a\ncont [2024-01-01 00:00:05] b";
    let (logs, content) = segment(text);
    assert_eq!(logs.len(), 2);
    assert_eq!(content[0], "a\ncont");
    assert_eq!(content[1], "b");
}

#[test]
fn three_tokens_on_one_line() {
    let text = "x[2024-01-01 00:00:00]1[2024-01-01 00:00:01]2[2024-01-01 00:00:02]3";
    let (logs, content) = segment(text);
    assert_eq!(logs.len(), 3);
    assert_eq!(content, vec!["1", "2", "3"]);
}

#[test]
fn trim_removes_outer_whitespace_only() {
    assert_eq!(trim_text("  \t a b \n "), "a b");
    assert_eq!(trim_text("   \t\n"), "");
    assert_eq!(trim_text("x"), "x");
}

#[test]
fn trim_matches_unicode_whitespace() {
    // The trimmed set is the Unicode white-space set, as str::trim uses.
    let s = "\u{00A0}\u{2003}x y\u{000C}\u{3000}";
    assert_eq!(trim_text(s), s.trim());
    assert_eq!(trim_text(s), "x y");
}

#[test]
fn split_lines_handles_terminators() {
    assert_eq!(split_into_lines("a\nb\n"), vec!["a", "b"]);
    assert_eq!(split_into_lines("a\r\nb"), vec!["a", "b"]);
    assert_eq!(split_into_lines("a\n\nb"), vec!["a", "", "b"]);
    assert_eq!(split_into_lines(""), Vec::<String>::new());
}
