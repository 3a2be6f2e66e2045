use logview::coordinator::{InputKey, KeyInput};
use logview::state::{App, CurrentScreen, LogFile};

fn three_files() -> Vec<LogFile> {
    let mut files = Vec::new();
    for name in ["a.log", "b.log", "c.log"] {
        files.push(LogFile {
            name: String::from(name),
            logs: vec![String::from("[2024-01-01 00:00:00]")],
            content: vec![String::from("body")],
        });
    }
    files
}

fn app_with_three_files() -> App {
    App {
        log_files: three_files(),
        log_entries: Vec::new(),
        current_screen: CurrentScreen::NavigatingLogFiles,
        log_files_selection: Some(0),
        log_entries_selection: None,
    }
}

#[test]
fn next_wraps_past_last() {
    // On a 3-item list, "next" from index 2 yields 0.
    let mut app = app_with_three_files();
    app.log_files_selection = Some(2);
    app.select_next_log_file();
    assert_eq!(app.log_files_selection, Some(0));
}

#[test]
fn previous_wraps_before_first() {
    // On a 3-item list, "previous" from index 0 yields 2.
    let mut app = app_with_three_files();
    app.log_files_selection = Some(0);
    app.select_previous_log_file();
    assert_eq!(app.log_files_selection, Some(2));
}

#[test]
fn next_and_previous_step_within_bounds() {
    let mut app = app_with_three_files();
    app.select_next_log_file();
    assert_eq!(app.log_files_selection, Some(1));
    app.select_previous_log_file();
    assert_eq!(app.log_files_selection, Some(0));
}

#[test]
fn navigation_on_empty_list_leaves_selection_unset() {
    let mut app = App::new();
    app.select_next_log_file();
    assert_eq!(app.log_files_selection, None);
    app.select_previous_log_file();
    assert_eq!(app.log_files_selection, None);
    app.select_first_log_file();
    assert_eq!(app.log_files_selection, None);
    app.select_last_log_file();
    assert_eq!(app.log_files_selection, None);
    app.select_next_log_entry();
    assert_eq!(app.log_entries_selection, None);
    app.select_previous_log_entry();
    assert_eq!(app.log_entries_selection, None);
}

#[test]
fn first_and_last_select_the_ends() {
    let mut app = app_with_three_files();
    app.select_last_log_file();
    assert_eq!(app.log_files_selection, Some(2));
    app.select_first_log_file();
    assert_eq!(app.log_files_selection, Some(0));
}

#[test]
fn entry_navigation_follows_selected_file() {
    let mut app = app_with_three_files();
    app.log_files[0].logs = vec![
        String::from("[2024-01-01 00:00:00]"),
        String::from("[2024-01-01 00:00:01]"),
    ];
    app.log_files[0].content = vec![String::from("x"), String::from("y")];
    app.select_next_log_entry();
    assert_eq!(app.log_entries_selection, Some(0));
    app.select_next_log_entry();
    assert_eq!(app.log_entries_selection, Some(1));
    app.select_next_log_entry();
    assert_eq!(app.log_entries_selection, Some(0));
    app.select_last_log_entry();
    assert_eq!(app.log_entries_selection, Some(1));
    app.select_previous_log_entry();
    assert_eq!(app.log_entries_selection, Some(0));
    app.select_previous_log_entry();
    assert_eq!(app.log_entries_selection, Some(1));
}

#[test]
fn changing_file_clamps_entry_selection() {
    let mut app = app_with_three_files();
    app.log_files[0].logs = vec![
        String::from("[2024-01-01 00:00:00]"),
        String::from("[2024-01-01 00:00:01]"),
    ];
    app.log_files[0].content = vec![String::from("x"), String::from("y")];
    app.select_last_log_entry();
    assert_eq!(app.log_entries_selection, Some(1));
    // The next file has a single entry: index 1 is no longer valid.
    app.select_next_log_file();
    assert_eq!(app.log_files_selection, Some(1));
    assert_eq!(app.log_entries_selection, None);
}

#[test]
fn screens_descend_and_ascend_linearly() {
    let mut app = App::new();
    assert!(matches!(app.current_screen, CurrentScreen::NavigatingLogFiles));
    app.descend_screen();
    assert!(matches!(app.current_screen, CurrentScreen::NavigatingLogEntries));
    app.descend_screen();
    assert!(matches!(app.current_screen, CurrentScreen::NavigatingLogContent));
    app.descend_screen();
    assert!(matches!(app.current_screen, CurrentScreen::NavigatingLogContent));
    app.ascend_screen();
    assert!(matches!(app.current_screen, CurrentScreen::NavigatingLogEntries));
    app.ascend_screen();
    assert!(matches!(app.current_screen, CurrentScreen::NavigatingLogFiles));
    app.ascend_screen();
    assert!(matches!(app.current_screen, CurrentScreen::NavigatingLogFiles));
}

#[test]
fn quit_keys_quit_and_touch_nothing() {
    let mut app = app_with_three_files();
    let quit = app.handle_key(KeyInput { key: InputKey::Char('q'), is_press: true });
    assert!(quit);
    let quit = app.handle_key(KeyInput { key: InputKey::Esc, is_press: true });
    assert!(quit);
    assert_eq!(app.log_files_selection, Some(0));
}

#[test]
fn releases_are_ignored() {
    let mut app = app_with_three_files();
    let quit = app.handle_key(KeyInput { key: InputKey::Char('q'), is_press: false });
    assert!(!quit);
    let quit = app.handle_key(KeyInput { key: InputKey::Down, is_press: false });
    assert!(!quit);
    assert_eq!(app.log_files_selection, Some(0));
}

#[test]
fn down_key_navigates_active_screen() {
    let mut app = app_with_three_files();
    // On the files screen the vertical keys move the files cursor.
    let quit = app.handle_key(KeyInput { key: InputKey::Down, is_press: true });
    assert!(!quit);
    assert_eq!(app.log_files_selection, Some(1));
    // One screen down, the same key moves the entries cursor.
    app.handle_key(KeyInput { key: InputKey::Right, is_press: true });
    app.handle_key(KeyInput { key: InputKey::Down, is_press: true });
    assert_eq!(app.log_files_selection, Some(1));
    assert_eq!(app.log_entries_selection, Some(0));
    app.handle_key(KeyInput { key: InputKey::Left, is_press: true });
    assert!(matches!(app.current_screen, CurrentScreen::NavigatingLogFiles));
}
