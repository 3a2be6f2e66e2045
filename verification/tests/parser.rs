use logview::parser::{parse_log_file, resume_position, LogEntry};

#[test]
fn resume_continues_at_stored_offset() {
    // The file grew from 10 to 25 bytes: the next read starts at 10.
    assert_eq!(resume_position(25, 10), 10);
}

#[test]
fn resume_at_end_reads_nothing_more() {
    // Idempotent resume: a parse stores the file length as the offset,
    // so an unchanged file resumes exactly at its end.
    let len: u64 = 42;
    assert_eq!(resume_position(len, len), len);
}

#[test]
fn truncation_resets_to_start() {
    // The file shrank below the stored offset: read from byte 0 again.
    assert_eq!(resume_position(3, 10), 0);
}

#[test]
fn parse_builds_fresh_entry() {
    let entry: LogEntry = parse_log_file(String::from("a.log"), 17, String::from("tail"));
    assert_eq!(entry.name, "a.log");
    assert_eq!(entry.offset, 17);
    assert_eq!(entry.content, "tail");
    assert!(entry.is_fresh);
}

#[test]
fn unreadable_file_yields_empty_entry_at_zero() {
    // The caller passes length 0 and no text when the file cannot be
    // read: the entry degrades gracefully instead of failing.
    let entry = parse_log_file(String::from("gone.log"), 0, String::new());
    assert_eq!(entry.offset, 0);
    assert_eq!(entry.content, "");
    assert!(entry.is_fresh);
}
