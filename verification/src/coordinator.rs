//! Event coordination: the single control loop's decisions.
//!
//! A merged queue carries three event shapes: a file was created, a file
//! was updated, a key arrived from the terminal. The loop around the
//! queue lives outside the library; the decisions it takes on each event
//! are the verified methods here. On a file event the coordinator first
//! demotes every held entry, looks up the resume offset stored for the
//! file's name, and, once the file has been read, stores the resulting
//! entry keyed by that name — replacing any entry the name already had,
//! never appending a second one. On a key event it navigates, and never
//! touches a file.

use vstd::prelude::*;

use crate::parser::LogEntry;
use crate::parser::LogEntryView;
use crate::state::App;
use crate::state::CurrentScreen;
use crate::state::nav_first;
use crate::state::nav_last;
use crate::state::nav_next;
use crate::state::nav_previous;
use crate::state::reselect;
use crate::state::screen_above;
use crate::state::screen_below;

verus! {

/// One event on the coordinator's merged queue.
pub enum AppEvent {
    FileCreated(String),
    FileUpdated(String),
    TerminalEvent(KeyInput),
}

/// Mathematical model of an `AppEvent`.
pub enum AppEventView {
    FileCreated(Seq<char>),
    FileUpdated(Seq<char>),
    TerminalEvent(KeyInput),
}

impl View for AppEvent {
    type V = AppEventView;

    open spec fn view(&self) -> AppEventView {
        match self {
            AppEvent::FileCreated(name) => AppEventView::FileCreated(name@),
            AppEvent::FileUpdated(name) => AppEventView::FileUpdated(name@),
            AppEvent::TerminalEvent(key) => AppEventView::TerminalEvent(*key),
        }
    }
}

impl DeepView for AppEvent {
    type V = AppEventView;

    open spec fn deep_view(&self) -> AppEventView {
        self.view()
    }
}

/// A key the terminal can hand the coordinator, reduced to the surface
/// the viewer reacts to.
#[derive(Clone, Copy, PartialEq, Eq, Structural, Debug)]
pub enum InputKey {
    Char(char),
    Esc,
    Up,
    Down,
    Left,
    Right,
    Home,
    End,
    Other,
}

/// One keyboard event: the key and whether this is a press (only
/// presses are actionable; releases and repeats are ignored).
#[derive(Clone, Copy, PartialEq, Eq, Structural, Debug)]
pub struct KeyInput {
    pub key: InputKey,
    pub is_press: bool,
}

/// What one keyboard event asks of the coordinator.
#[derive(Clone, Copy, PartialEq, Eq, Structural, Debug)]
pub enum InputCommand {
    Quit,
    NextItem,
    PreviousItem,
    FirstItem,
    LastItem,
    Descend,
    Ascend,
    Nothing,
}

/// The command a key event carries: only presses are actionable; `q`
/// and escape quit, the vertical keys and home/end move the cursor of
/// the active screen's list, the horizontal keys move between screens.
pub open spec fn command_of(k: KeyInput) -> InputCommand {
    if !k.is_press {
        InputCommand::Nothing
    } else {
        match k.key {
            InputKey::Char(c) => if c == 'q' {
                InputCommand::Quit
            } else {
                InputCommand::Nothing
            },
            InputKey::Esc => InputCommand::Quit,
            InputKey::Down => InputCommand::NextItem,
            InputKey::Up => InputCommand::PreviousItem,
            InputKey::Home => InputCommand::FirstItem,
            InputKey::End => InputCommand::LastItem,
            InputKey::Right => InputCommand::Descend,
            InputKey::Left => InputCommand::Ascend,
            InputKey::Other => InputCommand::Nothing,
        }
    }
}

/// Reads the command a key event carries.
pub fn interpret_key(k: KeyInput) -> (c: InputCommand)
    ensures
        c == command_of(k),
{
    if !k.is_press {
        InputCommand::Nothing
    } else {
        match k.key {
            InputKey::Char(c) => if c == 'q' {
                InputCommand::Quit
            } else {
                InputCommand::Nothing
            },
            InputKey::Esc => InputCommand::Quit,
            InputKey::Down => InputCommand::NextItem,
            InputKey::Up => InputCommand::PreviousItem,
            InputKey::Home => InputCommand::FirstItem,
            InputKey::End => InputCommand::LastItem,
            InputKey::Right => InputCommand::Descend,
            InputKey::Left => InputCommand::Ascend,
            InputKey::Other => InputCommand::Nothing,
        }
    }
}

/// `e` demoted: carried over from an earlier cycle, content cleared to
/// bound memory, name and resume offset kept.
pub open spec fn demoted(e: LogEntryView) -> LogEntryView {
    LogEntryView { name: e.name, offset: e.offset, content: Seq::empty(), is_fresh: false }
}

/// A whole entry list demoted.
pub open spec fn demote_all(s: Seq<LogEntryView>) -> Seq<LogEntryView> {
    Seq::new(s.len(), |i: int| demoted(s[i]))
}

/// The position of the entry stored for `name`, if any.
pub open spec fn first_named(s: Seq<LogEntryView>, name: Seq<char>) -> Option<int>
    decreases s.len(),
{
    if s.len() == 0 {
        None
    } else if s[0].name == name {
        Some(0)
    } else {
        match first_named(s.drop_first(), name) {
            Some(i) => Some(i + 1),
            None => None,
        }
    }
}

/// The resume offset stored for `name`: the offset of its entry, or 0
/// for a name never seen.
pub open spec fn stored_offset_of(s: Seq<LogEntryView>, name: Seq<char>) -> u64 {
    match first_named(s, name) {
        Some(i) => s[i].offset,
        None => 0,
    }
}

/// The entry list after an ingested entry is stored: it replaces the
/// entry its name already had, or is appended for a new name.
pub open spec fn upsert(s: Seq<LogEntryView>, e: LogEntryView) -> Seq<LogEntryView> {
    match first_named(s, e.name) {
        Some(i) => s.update(i, e),
        None => s.push(e),
    }
}

/// No name owns two entries.
pub open spec fn unique_names(s: Seq<LogEntryView>) -> bool {
    forall|i: int, j: int| 0 <= i < j < s.len() ==> s[i].name != s[j].name
}

/// How many entries carry `name`.
pub open spec fn count_named(s: Seq<LogEntryView>, name: Seq<char>) -> nat
    decreases s.len(),
{
    if s.len() == 0 {
        0
    } else {
        (if s[0].name == name {
            1nat
        } else {
            0nat
        }) + count_named(s.drop_first(), name)
    }
}

/// What a found (or absent) position means.
pub proof fn lemma_first_named_props(s: Seq<LogEntryView>, name: Seq<char>)
    ensures
        match first_named(s, name) {
            Some(i) => 0 <= i < s.len() && s[i].name == name && forall|k: int|
                0 <= k < i ==> s[k].name != name,
            None => forall|k: int| 0 <= k < s.len() ==> s[k].name != name,
        },
    decreases s.len(),
{
    if s.len() > 0 && s[0].name != name {
        let rest = s.drop_first();
        lemma_first_named_props(rest, name);
        assert(forall|k: int| 0 <= k < rest.len() ==> rest[k] == s[k + 1]);
        match first_named(rest, name) {
            Some(i) => {
                assert(first_named(s, name) == Some(i + 1));
                assert forall|k: int| 0 <= k < i + 1 implies s[k].name != name by {
                    if k > 0 {
                        assert(rest[k - 1].name != name);
                    }
                }
            },
            None => {
                assert forall|k: int| 0 <= k < s.len() implies s[k].name != name by {
                    if k > 0 {
                        assert(rest[k - 1].name != name);
                    }
                }
            },
        }
    }
}

/// Element for element, the deep view of an entry list is the view of
/// each entry.
pub proof fn lemma_entries_index(v: Vec<LogEntry>)
    ensures
        v.deep_view().len() == v@.len(),
        forall|i: int| 0 <= i < v@.len() ==> v.deep_view()[i] == v@[i]@,
{
}

/// Unique names on the deep view are unique names entry for entry.
proof fn lemma_unique_names_entries(v: Vec<LogEntry>)
    requires
        unique_names(v.deep_view()),
    ensures
        forall|i: int, j: int| 0 <= i < j < v@.len() ==> v@[i]@.name != v@[j]@.name,
{
    assert forall|i: int, j: int| 0 <= i < j < v@.len() implies v@[i]@.name != v@[j]@.name by {
        assert(v.deep_view()[i] == v@[i]@);
        assert(v.deep_view()[j] == v@[j]@);
        assert(v.deep_view()[i].name != v.deep_view()[j].name);
    }
}

/// Unique names entry for entry are unique names on the deep view.
proof fn lemma_entries_unique_names(v: Vec<LogEntry>)
    requires
        forall|i: int, j: int| 0 <= i < j < v@.len() ==> v@[i]@.name != v@[j]@.name,
    ensures
        unique_names(v.deep_view()),
{
    assert forall|i: int, j: int|
        0 <= i < j < v.deep_view().len() implies v.deep_view()[i].name
        != v.deep_view()[j].name by {
        assert(v.deep_view()[i] == v@[i]@);
        assert(v.deep_view()[j] == v@[j]@);
        assert(v@[i]@.name != v@[j]@.name);
    }
}

/// The first position whose prefix is free of `name` is what
/// `first_named` finds.
pub proof fn lemma_first_named_at(s: Seq<LogEntryView>, name: Seq<char>, i: int)
    requires
        0 <= i < s.len(),
        s[i].name == name,
        forall|k: int| 0 <= k < i ==> s[k].name != name,
    ensures
        first_named(s, name) == Some(i),
    decreases s.len(),
{
    if i > 0 {
        let rest = s.drop_first();
        assert(forall|k: int| 0 <= k < rest.len() ==> rest[k] == s[k + 1]);
        lemma_first_named_at(rest, name, i - 1);
    }
}

proof fn lemma_count_named_zero(s: Seq<LogEntryView>, name: Seq<char>)
    requires
        forall|k: int| 0 <= k < s.len() ==> s[k].name != name,
    ensures
        count_named(s, name) == 0,
    decreases s.len(),
{
    if s.len() > 0 {
        assert(forall|k: int| 0 <= k < s.drop_first().len() ==> s.drop_first()[k] == s[k + 1]);
        lemma_count_named_zero(s.drop_first(), name);
    }
}

proof fn lemma_count_named_one(s: Seq<LogEntryView>, name: Seq<char>, i: int)
    requires
        0 <= i < s.len(),
        s[i].name == name,
        forall|k: int| 0 <= k < s.len() && k != i ==> s[k].name != name,
    ensures
        count_named(s, name) == 1,
    decreases s.len(),
{
    assert(forall|k: int| 0 <= k < s.drop_first().len() ==> s.drop_first()[k] == s[k + 1]);
    if i == 0 {
        lemma_count_named_zero(s.drop_first(), name);
    } else {
        lemma_count_named_one(s.drop_first(), name, i - 1);
    }
}

/// Storing an entry keeps names unique, stores its offset for its name,
/// and leaves every other name's entry where it was.
pub proof fn lemma_upsert_props(s: Seq<LogEntryView>, e: LogEntryView)
    requires
        unique_names(s),
    ensures
        unique_names(upsert(s, e)),
        count_named(upsert(s, e), e.name) == 1,
        stored_offset_of(upsert(s, e), e.name) == e.offset,
        first_named(upsert(s, e), e.name) is Some,
{
    lemma_first_named_props(s, e.name);
    let s2 = upsert(s, e);
    match first_named(s, e.name) {
        Some(i) => {
            assert(forall|k: int| 0 <= k < i ==> s2[k].name != e.name);
            lemma_first_named_at(s2, e.name, i);
            assert(forall|k: int| 0 <= k < s2.len() && k != i ==> s2[k].name != e.name);
            lemma_count_named_one(s2, e.name, i);
        },
        None => {
            assert(s2[s.len() as int].name == e.name);
            assert(forall|k: int| 0 <= k < s.len() ==> s2[k].name != e.name);
            lemma_first_named_at(s2, e.name, s.len() as int);
            lemma_count_named_one(s2, e.name, s.len() as int);
        },
    }
}

proof fn lemma_first_named_demote(s: Seq<LogEntryView>, name: Seq<char>)
    ensures
        first_named(demote_all(s), name) == first_named(s, name),
    decreases s.len(),
{
    if s.len() > 0 {
        assert(demote_all(s)[0].name == s[0].name);
        assert(demote_all(s).drop_first() =~= demote_all(s.drop_first()));
        lemma_first_named_demote(s.drop_first(), name);
    }
}

/// Demoting every entry moves no entry and changes no name and no
/// offset: lookups and resume offsets are untouched by a cycle start.
pub proof fn lemma_demote_preserves(s: Seq<LogEntryView>, name: Seq<char>)
    ensures
        unique_names(s) ==> unique_names(demote_all(s)),
        stored_offset_of(demote_all(s), name) == stored_offset_of(s, name),
{
    lemma_first_named_demote(s, name);
    lemma_first_named_props(s, name);
    match first_named(s, name) {
        Some(i) => {
            assert(demote_all(s)[i].offset == s[i].offset);
        },
        None => {},
    }
}

/// Replace, not append: two successive update cycles for the same name
/// — each demoting all entries and then storing the new read — leave
/// exactly one entry for that name, carrying the offset of the second
/// read; as long as the file did not shrink between the reads (offsets
/// are observed file lengths, so a shrink is a detected truncation),
/// the stored offset never decreases.
pub proof fn lemma_replace_not_append(s0: Seq<LogEntryView>, e1: LogEntryView, e2: LogEntryView)
    requires
        unique_names(s0),
        e1.name == e2.name,
    ensures
        ({
            let s1 = upsert(demote_all(s0), e1);
            let s2 = upsert(demote_all(s1), e2);
            &&& unique_names(s2)
            &&& count_named(s2, e2.name) == 1
            &&& stored_offset_of(s1, e1.name) == e1.offset
            &&& stored_offset_of(s2, e2.name) == e2.offset
            &&& (e2.offset >= e1.offset ==> stored_offset_of(s2, e2.name) >= stored_offset_of(
                s1,
                e1.name,
            ))
        }),
{
    let s1 = upsert(demote_all(s0), e1);
    lemma_demote_preserves(s0, e1.name);
    lemma_upsert_props(demote_all(s0), e1);
    lemma_demote_preserves(s1, e2.name);
    lemma_upsert_props(demote_all(s1), e2);
}

impl App {
    /// Demotes every held entry at the start of an ingestion cycle:
    /// entries carried over from earlier cycles lose their fresh mark
    /// and their content, keeping only name and resume offset.
    pub fn make_current_log_entries_old(&mut self)
        requires
            old(self).wf(),
        ensures
            final(self).wf(),
            final(self).log_entries.deep_view() == demote_all(old(self).log_entries.deep_view()),
            final(self).log_files == old(self).log_files,
            final(self).current_screen == old(self).current_screen,
            final(self).log_files_selection == old(self).log_files_selection,
            final(self).log_entries_selection == old(self).log_entries_selection,
    {
        let n = self.log_entries.len();
        let ghost orig = self.log_entries.deep_view();
        proof {
            lemma_entries_index(self.log_entries);
        }
        let mut k: usize = 0;
        while k < n
            invariant
                n == self.log_entries.len(),
                k <= n,
                orig == old(self).log_entries.deep_view(),
                orig.len() == n,
                forall|i: int| 0 <= i < k ==> self.log_entries.deep_view()[i] == demoted(orig[i]),
                forall|i: int| k <= i < n ==> self.log_entries.deep_view()[i] == orig[i],
                self.log_files == old(self).log_files,
                self.current_screen == old(self).current_screen,
                self.log_files_selection == old(self).log_files_selection,
                self.log_entries_selection == old(self).log_entries_selection,
            decreases n - k,
        {
            let ghost prev = self.log_entries.deep_view();
            let e = self.log_entries.remove(k);
            let demoted_entry = LogEntry {
                name: e.name,
                offset: e.offset,
                content: String::new(),
                is_fresh: false,
            };
            self.log_entries.insert(k, demoted_entry);
            proof {
                lemma_entries_index(self.log_entries);
                assert(self.log_entries.deep_view() =~= prev.update(
                    k as int,
                    demoted(orig[k as int]),
                ));
            }
            k = k + 1;
        }
        assert(self.log_entries.deep_view() =~= demote_all(orig));
        proof {
            lemma_entries_unique_names(old(self).log_entries);
            assert forall|i: int, j: int|
                0 <= i < j < self.log_entries.deep_view().len() implies self.log_entries.deep_view()[i].name
                != self.log_entries.deep_view()[j].name by {
                assert(self.log_entries.deep_view()[i].name == orig[i].name);
                assert(self.log_entries.deep_view()[j].name == orig[j].name);
                assert(orig[i].name != orig[j].name);
            }
            lemma_unique_names_entries(self.log_entries);
        }
    }

    /// The resume offset stored for `name`: where the next incremental
    /// read of that source continues, 0 for a name never ingested.
    pub fn stored_offset(&self, name: &String) -> (off: u64)
        ensures
            off == stored_offset_of(self.log_entries.deep_view(), name@),
    {
        let n = self.log_entries.len();
        let mut k: usize = 0;
        while k < n
            invariant
                n == self.log_entries.len(),
                k <= n,
                forall|i: int| 0 <= i < k ==> self.log_entries.deep_view()[i].name != name@,
            decreases n - k,
        {
            if self.log_entries[k].name == *name {
                proof {
                    lemma_first_named_at(self.log_entries.deep_view(), name@, k as int);
                }
                return self.log_entries[k].offset;
            }
            k = k + 1;
        }
        proof {
            lemma_first_named_props(self.log_entries.deep_view(), name@);
        }
        0
    }

    /// Stores an ingested entry keyed by its name: it replaces the entry
    /// the name already had, or is appended for a new name — the list
    /// never holds two entries for one name.
    pub fn apply_log_entry(&mut self, entry: LogEntry)
        requires
            old(self).wf(),
        ensures
            final(self).wf(),
            final(self).log_entries.deep_view() == upsert(
                old(self).log_entries.deep_view(),
                entry@,
            ),
            final(self).log_files == old(self).log_files,
            final(self).current_screen == old(self).current_screen,
            final(self).log_files_selection == old(self).log_files_selection,
            final(self).log_entries_selection == old(self).log_entries_selection,
    {
        let ghost orig = self.log_entries.deep_view();
        proof {
            lemma_entries_index(self.log_entries);
            lemma_entries_unique_names(old(self).log_entries);
            lemma_upsert_props(orig, entry@);
        }
        let n = self.log_entries.len();
        let mut k: usize = 0;
        while k < n
            invariant
                n == self.log_entries.len(),
                orig == self.log_entries.deep_view(),
                orig == old(self).log_entries.deep_view(),
                k <= n,
                self == old(self),
                old(self).wf(),
                unique_names(orig),
                forall|i: int| 0 <= i < k ==> self.log_entries.deep_view()[i].name != entry@.name,
            decreases n - k,
        {
            proof {
                lemma_entries_index(self.log_entries);
            }
            if self.log_entries[k].name == entry.name {
                proof {
                    lemma_first_named_at(orig, entry@.name, k as int);
                    lemma_upsert_props(orig, entry@);
                }
                self.log_entries.remove(k);
                self.log_entries.insert(k, entry);
                proof {
                    lemma_entries_index(self.log_entries);
                    assert(self.log_entries.deep_view() =~= orig.update(k as int, entry@));
                    assert(self.log_entries.deep_view() == upsert(orig, entry@));
                    lemma_unique_names_entries(self.log_entries);
                }
                return ;
            }
            k = k + 1;
        }
        proof {
            lemma_first_named_props(orig, entry@.name);
        }
        self.log_entries.push(entry);
        proof {
            lemma_entries_index(self.log_entries);
            assert(self.log_entries.deep_view() =~= orig.push(entry@));
            assert(self.log_entries.deep_view() == upsert(orig, entry@));
            lemma_unique_names_entries(self.log_entries);
        }
    }

    /// Applies one keyboard event and says whether the viewer should
    /// quit: a cursor key navigates the active screen's list, a
    /// horizontal key moves between screens, and nothing here ever
    /// touches a file.
    pub fn handle_key(&mut self, key: KeyInput) -> (quit: bool)
        requires
            old(self).wf(),
        ensures
            final(self).wf(),
            quit == (command_of(key) == InputCommand::Quit),
            final(self).log_files == old(self).log_files,
            final(self).log_entries == old(self).log_entries,
            (command_of(key) == InputCommand::Quit || command_of(key) == InputCommand::Nothing)
                ==> *final(self) == *old(self),
            command_of(key) == InputCommand::Descend ==> final(self).current_screen
                == screen_below(old(self).current_screen) && final(self).log_files_selection == old(self).log_files_selection && final(self).log_entries_selection == old(self).log_entries_selection,
            command_of(key) == InputCommand::Ascend ==> final(self).current_screen == screen_above(
                old(self).current_screen,
            ) && final(self).log_files_selection == old(self).log_files_selection && final(self).log_entries_selection == old(self).log_entries_selection,
            (command_of(key) == InputCommand::NextItem || command_of(key)
                == InputCommand::PreviousItem || command_of(key) == InputCommand::FirstItem
                || command_of(key) == InputCommand::LastItem) ==> final(self).current_screen == old(self).current_screen,
            command_of(key) == InputCommand::NextItem ==> (if old(self).current_screen
                == CurrentScreen::NavigatingLogFiles {
                final(self).log_files_selection == nav_next(
                    old(self).log_files_selection,
                    old(self).log_files@.len(),
                ) && final(self).log_entries_selection == reselect(
                    old(self).log_entries_selection,
                    final(self).entry_list_len(),
                )
            } else {
                final(self).log_files_selection == old(self).log_files_selection && final(self).log_entries_selection == nav_next(
                    old(self).log_entries_selection,
                    old(self).entry_list_len(),
                )
            }),
            command_of(key) == InputCommand::PreviousItem ==> (if old(self).current_screen
                == CurrentScreen::NavigatingLogFiles {
                final(self).log_files_selection == nav_previous(
                    old(self).log_files_selection,
                    old(self).log_files@.len(),
                ) && final(self).log_entries_selection == reselect(
                    old(self).log_entries_selection,
                    final(self).entry_list_len(),
                )
            } else {
                final(self).log_files_selection == old(self).log_files_selection && final(self).log_entries_selection == nav_previous(
                    old(self).log_entries_selection,
                    old(self).entry_list_len(),
                )
            }),
            command_of(key) == InputCommand::FirstItem ==> (if old(self).current_screen
                == CurrentScreen::NavigatingLogFiles {
                final(self).log_files_selection == nav_first(old(self).log_files@.len()) && final(self).log_entries_selection == reselect(
                    old(self).log_entries_selection,
                    final(self).entry_list_len(),
                )
            } else {
                final(self).log_files_selection == old(self).log_files_selection && final(self).log_entries_selection == nav_first(old(self).entry_list_len())
            }),
            command_of(key) == InputCommand::LastItem ==> (if old(self).current_screen
                == CurrentScreen::NavigatingLogFiles {
                final(self).log_files_selection == nav_last(old(self).log_files@.len()) && final(self).log_entries_selection == reselect(
                    old(self).log_entries_selection,
                    final(self).entry_list_len(),
                )
            } else {
                final(self).log_files_selection == old(self).log_files_selection && final(self).log_entries_selection == nav_last(old(self).entry_list_len())
            }),
    {
        let on_files = match self.current_screen {
            CurrentScreen::NavigatingLogFiles => true,
            _ => false,
        };
        match interpret_key(key) {
            InputCommand::Quit => true,
            InputCommand::NextItem => {
                if on_files {
                    self.select_next_log_file();
                } else {
                    self.select_next_log_entry();
                }
                false
            },
            InputCommand::PreviousItem => {
                if on_files {
                    self.select_previous_log_file();
                } else {
                    self.select_previous_log_entry();
                }
                false
            },
            InputCommand::FirstItem => {
                if on_files {
                    self.select_first_log_file();
                } else {
                    self.select_first_log_entry();
                }
                false
            },
            InputCommand::LastItem => {
                if on_files {
                    self.select_last_log_file();
                } else {
                    self.select_last_log_entry();
                }
                false
            },
            InputCommand::Descend => {
                self.descend_screen();
                false
            },
            InputCommand::Ascend => {
                self.ascend_screen();
                false
            },
            InputCommand::Nothing => false,
        }
    }
}

} // verus!
