use logview::coordinator::AppEvent;
use logview::watcher::FsChangeKind;
use logview::parser::parse_log_file;
use logview::state::{App, SourceFile};
use logview::watcher::{
    has_log_extension, path_has_marker, translate_notification, LogFileWatcher,
};

fn lines(v: &[&str]) -> Vec<String> {
    v.iter().map(|s| String::from(*s)).collect()
}

#[test]
fn bulk_parse_stores_segmented_files() {
    // Directory scenario: `a.log` holds two timestamped lines.
    let mut app = App::new();
    let files = vec![SourceFile {
        name: String::from("a.log"),
        lines: lines(&["[2024-01-01 00:00:00] hello", "[2024-01-01 00:00:05] world"]),
    }];
    app.process_log_files(files);
    assert_eq!(app.log_files.len(), 1);
    assert_eq!(app.log_files[0].name, "a.log");
    assert_eq!(
        app.log_files[0].logs,
        vec!["[2024-01-01 00:00:00]", "[2024-01-01 00:00:05]"]
    );
    assert_eq!(app.log_files[0].content, vec!["hello", "world"]);
}

#[test]
fn bulk_parse_skips_files_without_timestamps() {
    // A created file with no timestamp produces no stored entry in bulk
    // mode.
    let mut app = App::new();
    let files = vec![
        SourceFile { name: String::from("b.log"), lines: lines(&["no stamps", "at all"]) },
        SourceFile {
            name: String::from("c.log"),
            lines: lines(&["[2024-01-01 00:00:00] kept"]),
        },
    ];
    app.process_log_files(files);
    assert_eq!(app.log_files.len(), 1);
    assert_eq!(app.log_files[0].name, "c.log");
}

#[test]
fn bulk_parse_rebuilds_from_scratch() {
    let mut app = App::new();
    let first = vec![SourceFile {
        name: String::from("a.log"),
        lines: lines(&["[2024-01-01 00:00:00] one"]),
    }];
    app.process_log_files(first);
    assert_eq!(app.log_files.len(), 1);
    let second = vec![SourceFile {
        name: String::from("d.log"),
        lines: lines(&["[2024-01-02 00:00:00] two"]),
    }];
    app.process_log_files(second);
    assert_eq!(app.log_files.len(), 1);
    assert_eq!(app.log_files[0].name, "d.log");
}

#[test]
fn two_updates_leave_one_entry() {
    // Replace, not append: two successive updates for one name leave
    // exactly one live entry, with the offset of the second read.
    let mut app = App::new();
    app.make_current_log_entries_old();
    let offset = app.stored_offset(&String::from("a.log"));
    assert_eq!(offset, 0);
    app.apply_log_entry(parse_log_file(String::from("a.log"), 10, String::from("first")));

    app.make_current_log_entries_old();
    let offset = app.stored_offset(&String::from("a.log"));
    assert_eq!(offset, 10);
    app.apply_log_entry(parse_log_file(String::from("a.log"), 25, String::from("second")));

    assert_eq!(app.log_entries.len(), 1);
    assert_eq!(app.log_entries[0].name, "a.log");
    assert_eq!(app.log_entries[0].offset, 25);
    assert_eq!(app.log_entries[0].content, "second");
    assert!(app.log_entries[0].is_fresh);
}

#[test]
fn demotion_clears_content_and_fresh_mark() {
    let mut app = App::new();
    app.apply_log_entry(parse_log_file(String::from("a.log"), 5, String::from("text")));
    app.apply_log_entry(parse_log_file(String::from("b.log"), 7, String::from("more")));
    app.make_current_log_entries_old();
    assert_eq!(app.log_entries.len(), 2);
    for entry in &app.log_entries {
        assert_eq!(entry.content, "");
        assert!(!entry.is_fresh);
    }
    // Names and resume offsets survive demotion.
    assert_eq!(app.log_entries[0].name, "a.log");
    assert_eq!(app.log_entries[0].offset, 5);
    assert_eq!(app.log_entries[1].offset, 7);
}

#[test]
fn entries_for_different_names_coexist() {
    let mut app = App::new();
    app.apply_log_entry(parse_log_file(String::from("a.log"), 5, String::from("a")));
    app.apply_log_entry(parse_log_file(String::from("b.log"), 7, String::from("b")));
    assert_eq!(app.log_entries.len(), 2);
    assert_eq!(app.stored_offset(&String::from("a.log")), 5);
    assert_eq!(app.stored_offset(&String::from("b.log")), 7);
    assert_eq!(app.stored_offset(&String::from("c.log")), 0);
}

#[test]
fn empty_file_event_stores_entry_at_file_length() {
    // Streaming mode: a created file with no timestamp still stores an
    // entry whose content is empty only if the file is, and whose
    // offset is the file length.
    let mut app = App::new();
    app.apply_log_entry(parse_log_file(String::from("b.log"), 0, String::new()));
    assert_eq!(app.log_entries.len(), 1);
    assert_eq!(app.log_entries[0].offset, 0);
    assert_eq!(app.log_entries[0].content, "");
}

#[test]
fn creation_events_pass_for_watched_extension() {
    let names = vec![String::from("b.log"), String::from("notes.txt")];
    let events = translate_notification(FsChangeKind::Create, &names);
    assert_eq!(events.len(), 1);
    assert!(matches!(&events[0], AppEvent::FileCreated(n) if n == "b.log"));
}

#[test]
fn data_modifications_become_updates() {
    let names = vec![String::from("a.log"), String::from("c.log")];
    let events = translate_notification(FsChangeKind::DataModify, &names);
    assert_eq!(events.len(), 2);
    assert!(matches!(&events[0], AppEvent::FileUpdated(n) if n == "a.log"));
    assert!(matches!(&events[1], AppEvent::FileUpdated(n) if n == "c.log"));
}

#[test]
fn other_notification_kinds_are_dropped() {
    let names = vec![String::from("a.log")];
    let events = translate_notification(FsChangeKind::Other, &names);
    assert_eq!(events.len(), 0);
}

#[test]
fn extension_filter_requires_a_stem() {
    assert!(has_log_extension("a.log"));
    assert!(has_log_extension("server.2024.log"));
    assert!(!has_log_extension(".log"));
    assert!(!has_log_extension("alog"));
    assert!(!has_log_extension("a.txt"));
    assert!(!has_log_extension("log"));
}

#[test]
fn marker_filter_finds_the_substring() {
    assert!(path_has_marker("/var/logs/app.txt"));
    assert!(path_has_marker("logs"));
    assert!(!path_has_marker("/var/lib/app.txt"));
    assert!(!path_has_marker("log"));
}

#[test]
fn watcher_keeps_its_directory() {
    let watcher = LogFileWatcher::new(String::from("/var/logs"));
    assert_eq!(watcher.path, "/var/logs");
}
