//! The navigable application state.
//!
//! The state owns the ingested records, the cursor into the files list
//! and the cursor into the entries list of the currently selected file,
//! and the active screen of the strictly linear hierarchy
//! files -> entries -> content. A cursor is `None` exactly while it has
//! nothing valid to point at: a selected index is always in bounds of
//! the list it indexes, and a selection on an empty list is unset.

use vstd::prelude::*;

use crate::parser::LogEntry;
use crate::segment::segment_lines;
use crate::segment::segment_spec;

verus! {

/// The active screen: which list the navigation keys act on, in the
/// strict hierarchy files -> entries -> content.
#[derive(Clone, Copy, PartialEq, Eq, Structural, Debug)]
pub enum CurrentScreen {
    NavigatingLogFiles,
    NavigatingLogEntries,
    NavigatingLogContent,
}

/// A fully parsed file: its timestamp tokens and, index-aligned, the
/// body that followed each token.
pub struct LogFile {
    pub name: String,
    pub logs: Vec<String>,
    pub content: Vec<String>,
}

/// Mathematical model of a `LogFile`.
pub struct LogFileView {
    pub name: Seq<char>,
    pub logs: Seq<Seq<char>>,
    pub content: Seq<Seq<char>>,
}

impl LogFileView {
    /// `logs` and `content` are index-aligned: index `i` in both refers
    /// to the same record.
    pub open spec fn wf(self) -> bool {
        self.logs.len() == self.content.len()
    }
}

impl View for LogFile {
    type V = LogFileView;

    open spec fn view(&self) -> LogFileView {
        LogFileView { name: self.name@, logs: self.logs.deep_view(), content: self.content.deep_view() }
    }
}

impl DeepView for LogFile {
    type V = LogFileView;

    open spec fn deep_view(&self) -> LogFileView {
        self.view()
    }
}

/// A file handed to bulk ingestion: its name and its decoded lines.
pub struct SourceFile {
    pub name: String,
    pub lines: Vec<String>,
}

/// Mathematical model of a `SourceFile`.
pub struct SourceFileView {
    pub name: Seq<char>,
    pub lines: Seq<Seq<char>>,
}

impl View for SourceFile {
    type V = SourceFileView;

    open spec fn view(&self) -> SourceFileView {
        SourceFileView { name: self.name@, lines: self.lines.deep_view() }
    }
}

impl DeepView for SourceFile {
    type V = SourceFileView;

    open spec fn deep_view(&self) -> SourceFileView {
        self.view()
    }
}

/// A cursor is valid when it is unset or in bounds; on an empty list it
/// can only be unset.
pub open spec fn selection_wf(sel: Option<usize>, len: nat) -> bool {
    match sel {
        Some(i) => (i as nat) < len,
        None => true,
    }
}

/// Where "next" moves a cursor: one step down, wrapping to the first
/// item past the last; onto the first item when nothing is selected; and
/// nowhere on an empty list.
pub open spec fn nav_next(sel: Option<usize>, len: nat) -> Option<usize> {
    if len == 0 {
        None
    } else {
        match sel {
            Some(i) => if i + 1 >= len {
                Some(0usize)
            } else {
                Some((i + 1) as usize)
            },
            None => Some(0usize),
        }
    }
}

/// Where "previous" moves a cursor: one step up, wrapping to the last
/// item before the first; onto the first item when nothing is selected;
/// and nowhere on an empty list.
pub open spec fn nav_previous(sel: Option<usize>, len: nat) -> Option<usize> {
    if len == 0 {
        None
    } else {
        match sel {
            Some(i) => if i == 0 {
                Some((len - 1) as usize)
            } else {
                Some((i - 1) as usize)
            },
            None => Some(0usize),
        }
    }
}

/// Where "first" moves a cursor: onto index 0, or nowhere on an empty
/// list.
pub open spec fn nav_first(len: nat) -> Option<usize> {
    if len == 0 {
        None
    } else {
        Some(0usize)
    }
}

/// Where "last" moves a cursor: onto the final index, or nowhere on an
/// empty list.
pub open spec fn nav_last(len: nat) -> Option<usize> {
    if len == 0 {
        None
    } else {
        Some((len - 1) as usize)
    }
}

/// A cursor after the list under it changed: kept while still in
/// bounds, unset otherwise.
pub open spec fn reselect(sel: Option<usize>, len: nat) -> Option<usize> {
    match sel {
        Some(i) => if (i as nat) < len {
            Some(i)
        } else {
            None
        },
        None => None,
    }
}

/// Navigation wrap: "next" on the last item returns to the first,
/// "previous" on the first returns to the last, and on an empty list
/// every move leaves the cursor unset.
pub proof fn lemma_navigation_wrap(sel: Option<usize>, len: nat)
    requires
        len <= usize::MAX,
    ensures
        len > 0 ==> nav_next(Some((len - 1) as usize), len) == Some(0usize),
        len > 0 ==> nav_previous(Some(0usize), len) == Some((len - 1) as usize),
        nav_next(sel, 0) is None,
        nav_previous(sel, 0) is None,
        nav_first(0) is None,
        nav_last(0) is None,
{
}

/// What bulk ingestion stores for one input file: its segmentation, or
/// nothing when no timestamp token was found in it.
pub open spec fn bulk_one(f: SourceFileView) -> Seq<LogFileView> {
    let segs = segment_spec(f.lines);
    if segs.0.len() > 0 {
        seq![LogFileView { name: f.name, logs: segs.0, content: segs.1 }]
    } else {
        Seq::empty()
    }
}

/// The files bulk ingestion stores: each input file segmented, in input
/// order, skipping files in which no timestamp token was found.
pub open spec fn bulk_log_files(files: Seq<SourceFileView>) -> Seq<LogFileView>
    decreases files.len(),
{
    if files.len() == 0 {
        Seq::empty()
    } else {
        bulk_one(files[0]) + bulk_log_files(files.drop_first())
    }
}

proof fn lemma_bulk_app(l1: Seq<SourceFileView>, l2: Seq<SourceFileView>)
    ensures
        bulk_log_files(l1 + l2) == bulk_log_files(l1) + bulk_log_files(l2),
    decreases l1.len(),
{
    if l1.len() == 0 {
        assert(l1 + l2 =~= l2);
        assert(bulk_log_files(l1) + bulk_log_files(l2) =~= bulk_log_files(l2));
    } else {
        assert((l1 + l2)[0] == l1[0]);
        assert((l1 + l2).drop_first() =~= l1.drop_first() + l2);
        lemma_bulk_app(l1.drop_first(), l2);
        assert(bulk_one(l1[0]) + (bulk_log_files(l1.drop_first()) + bulk_log_files(l2)) =~= (
        bulk_one(l1[0]) + bulk_log_files(l1.drop_first())) + bulk_log_files(l2));
    }
}

proof fn lemma_bulk_snoc(files: Seq<SourceFileView>, k: int)
    requires
        0 <= k < files.len(),
    ensures
        bulk_log_files(files.take(k + 1)) == bulk_log_files(files.take(k)) + bulk_one(files[k]),
{
    assert(files.take(k + 1) =~= files.take(k) + seq![files[k]]);
    lemma_bulk_app(files.take(k), seq![files[k]]);
    let one = seq![files[k]];
    assert(one[0] == files[k]);
    assert(one.drop_first() =~= Seq::<SourceFileView>::empty());
    assert(bulk_log_files(one.drop_first()) =~= Seq::<LogFileView>::empty());
    assert(bulk_log_files(one) =~= bulk_one(files[k]));
}

/// The mutable model of the running viewer, mutated only by the event
/// coordinator: the bulk-parsed files, the incrementally ingested
/// entries, the active screen and the two cursors.
pub struct App {
    pub log_files: Vec<LogFile>,
    pub log_entries: Vec<LogEntry>,
    pub current_screen: CurrentScreen,
    pub log_files_selection: Option<usize>,
    pub log_entries_selection: Option<usize>,
}

impl App {
    /// Every parsed file keeps its records index-aligned.
    pub open spec fn files_wf(&self) -> bool {
        forall|i: int| 0 <= i < self.log_files@.len() ==> (#[trigger] self.log_files@[i])@.wf()
    }

    /// At most one live entry per source name.
    pub open spec fn entries_unique(&self) -> bool {
        forall|i: int, j: int|
            0 <= i < j < self.log_entries@.len() ==> self.log_entries@[i]@.name
                != self.log_entries@[j]@.name
    }

    /// How many entries the entries list of the currently selected file
    /// has: the cursor into that list is bounded by this.
    pub open spec fn entry_list_len(&self) -> nat {
        match self.log_files_selection {
            Some(i) => if (i as int) < self.log_files@.len() {
                self.log_files@[i as int]@.content.len()
            } else {
                0
            },
            None => 0,
        }
    }

    /// The state invariant: aligned records, unique entry names, and
    /// both cursors valid for the lists they index.
    pub open spec fn wf(&self) -> bool {
        &&& self.files_wf()
        &&& self.entries_unique()
        &&& selection_wf(self.log_files_selection, self.log_files@.len())
        &&& selection_wf(self.log_entries_selection, self.entry_list_len())
    }

    /// A fresh viewer: nothing ingested, the files screen active, both
    /// cursors unset.
    pub fn new() -> (app: App)
        ensures
            app.wf(),
            app.log_files@.len() == 0,
            app.log_entries@.len() == 0,
            app.current_screen == CurrentScreen::NavigatingLogFiles,
            app.log_files_selection is None,
            app.log_entries_selection is None,
    {
        App {
            log_files: Vec::new(),
            log_entries: Vec::new(),
            current_screen: CurrentScreen::NavigatingLogFiles,
            log_files_selection: None,
            log_entries_selection: None,
        }
    }

    /// The length the entries cursor is bounded by.
    pub fn current_entry_count(&self) -> (r: usize)
        ensures
            r as nat == self.entry_list_len(),
    {
        match self.log_files_selection {
            Some(i) => {
                if i < self.log_files.len() {
                    self.log_files[i].content.len()
                } else {
                    0
                }
            },
            None => 0,
        }
    }

    fn clamp_entry_selection(&mut self)
        ensures
            final(self).log_files == old(self).log_files,
            final(self).log_entries == old(self).log_entries,
            final(self).current_screen == old(self).current_screen,
            final(self).log_files_selection == old(self).log_files_selection,
            final(self).log_entries_selection == reselect(
                old(self).log_entries_selection,
                old(self).entry_list_len(),
            ),
    {
        let count = self.current_entry_count();
        match self.log_entries_selection {
            Some(j) => {
                if j >= count {
                    self.log_entries_selection = None;
                }
            },
            None => {},
        }
    }

    fn select_file_index(&mut self, sel: Option<usize>)
        requires
            selection_wf(sel, old(self).log_files@.len()),
        ensures
            final(self).log_files == old(self).log_files,
            final(self).log_entries == old(self).log_entries,
            final(self).current_screen == old(self).current_screen,
            final(self).log_files_selection == sel,
            final(self).log_entries_selection == reselect(
                old(self).log_entries_selection,
                final(self).entry_list_len(),
            ),
    {
        self.log_files_selection = sel;
        self.clamp_entry_selection();
    }

    /// Moves the files cursor one file down, wrapping to the first; the
    /// entries cursor is kept only while still valid for the newly
    /// selected file.
    pub fn select_next_log_file(&mut self)
        requires
            old(self).wf(),
        ensures
            final(self).wf(),
            final(self).log_files == old(self).log_files,
            final(self).log_entries == old(self).log_entries,
            final(self).current_screen == old(self).current_screen,
            final(self).log_files_selection == nav_next(
                old(self).log_files_selection,
                old(self).log_files@.len(),
            ),
            final(self).log_entries_selection == reselect(
                old(self).log_entries_selection,
                final(self).entry_list_len(),
            ),
    {
        let len = self.log_files.len();
        if len == 0 {
            self.select_file_index(None);
        } else {
            let i: usize = match self.log_files_selection {
                Some(i) => if i >= len - 1 {
                    0
                } else {
                    i + 1
                },
                None => 0,
            };
            self.select_file_index(Some(i));
        }
    }

    /// Moves the files cursor one file up, wrapping to the last; the
    /// entries cursor is kept only while still valid for the newly
    /// selected file.
    pub fn select_previous_log_file(&mut self)
        requires
            old(self).wf(),
        ensures
            final(self).wf(),
            final(self).log_files == old(self).log_files,
            final(self).log_entries == old(self).log_entries,
            final(self).current_screen == old(self).current_screen,
            final(self).log_files_selection == nav_previous(
                old(self).log_files_selection,
                old(self).log_files@.len(),
            ),
            final(self).log_entries_selection == reselect(
                old(self).log_entries_selection,
                final(self).entry_list_len(),
            ),
    {
        let len = self.log_files.len();
        if len == 0 {
            self.select_file_index(None);
        } else {
            let i: usize = match self.log_files_selection {
                Some(i) => if i == 0 {
                    len - 1
                } else {
                    i - 1
                },
                None => 0,
            };
            self.select_file_index(Some(i));
        }
    }

    /// Moves the files cursor onto the first file, if any.
    pub fn select_first_log_file(&mut self)
        requires
            old(self).wf(),
        ensures
            final(self).wf(),
            final(self).log_files == old(self).log_files,
            final(self).log_entries == old(self).log_entries,
            final(self).current_screen == old(self).current_screen,
            final(self).log_files_selection == nav_first(old(self).log_files@.len()),
            final(self).log_entries_selection == reselect(
                old(self).log_entries_selection,
                final(self).entry_list_len(),
            ),
    {
        let len = self.log_files.len();
        if len == 0 {
            self.select_file_index(None);
        } else {
            self.select_file_index(Some(0));
        }
    }

    /// Moves the files cursor onto the last file, if any.
    pub fn select_last_log_file(&mut self)
        requires
            old(self).wf(),
        ensures
            final(self).wf(),
            final(self).log_files == old(self).log_files,
            final(self).log_entries == old(self).log_entries,
            final(self).current_screen == old(self).current_screen,
            final(self).log_files_selection == nav_last(old(self).log_files@.len()),
            final(self).log_entries_selection == reselect(
                old(self).log_entries_selection,
                final(self).entry_list_len(),
            ),
    {
        let len = self.log_files.len();
        if len == 0 {
            self.select_file_index(None);
        } else {
            self.select_file_index(Some(len - 1));
        }
    }

    /// Moves the entries cursor one entry down, wrapping to the first
    /// entry of the currently selected file.
    pub fn select_next_log_entry(&mut self)
        requires
            old(self).wf(),
        ensures
            final(self).wf(),
            final(self).log_files == old(self).log_files,
            final(self).log_entries == old(self).log_entries,
            final(self).current_screen == old(self).current_screen,
            final(self).log_files_selection == old(self).log_files_selection,
            final(self).log_entries_selection == nav_next(
                old(self).log_entries_selection,
                old(self).entry_list_len(),
            ),
    {
        let len = self.current_entry_count();
        if len == 0 {
            self.log_entries_selection = None;
        } else {
            let i: usize = match self.log_entries_selection {
                Some(i) => if i >= len - 1 {
                    0
                } else {
                    i + 1
                },
                None => 0,
            };
            self.log_entries_selection = Some(i);
        }
    }

    /// Moves the entries cursor one entry up, wrapping to the last entry
    /// of the currently selected file.
    pub fn select_previous_log_entry(&mut self)
        requires
            old(self).wf(),
        ensures
            final(self).wf(),
            final(self).log_files == old(self).log_files,
            final(self).log_entries == old(self).log_entries,
            final(self).current_screen == old(self).current_screen,
            final(self).log_files_selection == old(self).log_files_selection,
            final(self).log_entries_selection == nav_previous(
                old(self).log_entries_selection,
                old(self).entry_list_len(),
            ),
    {
        let len = self.current_entry_count();
        if len == 0 {
            self.log_entries_selection = None;
        } else {
            let i: usize = match self.log_entries_selection {
                Some(i) => if i == 0 {
                    len - 1
                } else {
                    i - 1
                },
                None => 0,
            };
            self.log_entries_selection = Some(i);
        }
    }

    /// Moves the entries cursor onto the first entry, if any.
    pub fn select_first_log_entry(&mut self)
        requires
            old(self).wf(),
        ensures
            final(self).wf(),
            final(self).log_files == old(self).log_files,
            final(self).log_entries == old(self).log_entries,
            final(self).current_screen == old(self).current_screen,
            final(self).log_files_selection == old(self).log_files_selection,
            final(self).log_entries_selection == nav_first(old(self).entry_list_len()),
    {
        let len = self.current_entry_count();
        if len == 0 {
            self.log_entries_selection = None;
        } else {
            self.log_entries_selection = Some(0);
        }
    }

    /// Moves the entries cursor onto the last entry, if any.
    pub fn select_last_log_entry(&mut self)
        requires
            old(self).wf(),
        ensures
            final(self).wf(),
            final(self).log_files == old(self).log_files,
            final(self).log_entries == old(self).log_entries,
            final(self).current_screen == old(self).current_screen,
            final(self).log_files_selection == old(self).log_files_selection,
            final(self).log_entries_selection == nav_last(old(self).entry_list_len()),
    {
        let len = self.current_entry_count();
        if len == 0 {
            self.log_entries_selection = None;
        } else {
            self.log_entries_selection = Some(len - 1);
        }
    }

    /// Steps one screen down the hierarchy
    /// files -> entries -> content; content is a leaf.
    pub fn descend_screen(&mut self)
        requires
            old(self).wf(),
        ensures
            final(self).wf(),
            final(self).log_files == old(self).log_files,
            final(self).log_entries == old(self).log_entries,
            final(self).log_files_selection == old(self).log_files_selection,
            final(self).log_entries_selection == old(self).log_entries_selection,
            final(self).current_screen == screen_below(old(self).current_screen),
    {
        self.current_screen = match self.current_screen {
            CurrentScreen::NavigatingLogFiles => CurrentScreen::NavigatingLogEntries,
            CurrentScreen::NavigatingLogEntries => CurrentScreen::NavigatingLogContent,
            CurrentScreen::NavigatingLogContent => CurrentScreen::NavigatingLogContent,
        };
    }

    /// Steps one screen up the hierarchy; the files screen is the root.
    pub fn ascend_screen(&mut self)
        requires
            old(self).wf(),
        ensures
            final(self).wf(),
            final(self).log_files == old(self).log_files,
            final(self).log_entries == old(self).log_entries,
            final(self).log_files_selection == old(self).log_files_selection,
            final(self).log_entries_selection == old(self).log_entries_selection,
            final(self).current_screen == screen_above(old(self).current_screen),
    {
        self.current_screen = match self.current_screen {
            CurrentScreen::NavigatingLogFiles => CurrentScreen::NavigatingLogFiles,
            CurrentScreen::NavigatingLogEntries => CurrentScreen::NavigatingLogFiles,
            CurrentScreen::NavigatingLogContent => CurrentScreen::NavigatingLogEntries,
        };
    }

    /// Replaces the stored files with the bulk segmentation of `files`,
    /// rebuilt from scratch; a cursor survives only while still in
    /// bounds of what it now points at.
    pub fn process_log_files(&mut self, files: Vec<SourceFile>)
        requires
            old(self).wf(),
        ensures
            final(self).wf(),
            final(self).log_files.deep_view() == bulk_log_files(files.deep_view()),
            final(self).log_entries == old(self).log_entries,
            final(self).current_screen == old(self).current_screen,
            final(self).log_files_selection == reselect(
                old(self).log_files_selection,
                final(self).log_files@.len(),
            ),
            final(self).log_entries_selection == reselect(
                old(self).log_entries_selection,
                final(self).entry_list_len(),
            ),
    {
        self.log_files.clear();
        let n = files.len();
        let mut k: usize = 0;
        proof {
            assert(files.deep_view().take(0) =~= Seq::<SourceFileView>::empty());
            assert(self.log_files.deep_view() =~= Seq::<LogFileView>::empty());
        }
        while k < n
            invariant
                n == files.len(),
                k <= n,
                self.log_files.deep_view() == bulk_log_files(files.deep_view().take(k as int)),
                self.files_wf(),
                self.log_entries == old(self).log_entries,
                self.current_screen == old(self).current_screen,
                self.log_files_selection == old(self).log_files_selection,
                self.log_entries_selection == old(self).log_entries_selection,
                old(self).entries_unique(),
            decreases n - k,
        {
            proof {
                lemma_bulk_snoc(files.deep_view(), k as int);
                assert(files.deep_view()[k as int] == files[k as int]@);
            }
            let f = &files[k];
            let (stamps, bodies) = segment_lines(&f.lines);
            proof {
                crate::segment::lemma_segmentation_count(f.lines.deep_view());
            }
            if stamps.len() > 0 {
                let lf = LogFile { name: f.name.clone(), logs: stamps, content: bodies };
                let ghost prev = self.log_files.deep_view();
                self.log_files.push(lf);
                assert(self.log_files.deep_view() =~= prev.push(lf@));
                assert(prev.push(lf@) =~= prev + bulk_one(files.deep_view()[k as int]));
            } else {
                assert(self.log_files.deep_view() + Seq::<LogFileView>::empty()
                    =~= self.log_files.deep_view());
            }
            k = k + 1;
        }
        proof {
            assert(files.deep_view().take(n as int) =~= files.deep_view());
        }
        match self.log_files_selection {
            Some(i) => {
                if i >= self.log_files.len() {
                    self.log_files_selection = None;
                }
            },
            None => {},
        }
        self.clamp_entry_selection();
    }
}

/// The screen one "descend" input reaches from `s`; content is a leaf.
pub open spec fn screen_below(s: CurrentScreen) -> CurrentScreen {
    match s {
        CurrentScreen::NavigatingLogFiles => CurrentScreen::NavigatingLogEntries,
        CurrentScreen::NavigatingLogEntries => CurrentScreen::NavigatingLogContent,
        CurrentScreen::NavigatingLogContent => CurrentScreen::NavigatingLogContent,
    }
}

/// The screen one "ascend" input reaches from `s`; files is the root.
pub open spec fn screen_above(s: CurrentScreen) -> CurrentScreen {
    match s {
        CurrentScreen::NavigatingLogFiles => CurrentScreen::NavigatingLogFiles,
        CurrentScreen::NavigatingLogEntries => CurrentScreen::NavigatingLogFiles,
        CurrentScreen::NavigatingLogContent => CurrentScreen::NavigatingLogEntries,
    }
}

} // verus!
