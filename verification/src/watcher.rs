//! Filesystem watching: the typed event vocabulary.
//!
//! A background worker observes one directory, non-recursively, for the
//! lifetime of the process and translates OS notifications into the
//! coordinator's small event vocabulary: a creation of a watched file
//! becomes `FileCreated`, a data modification becomes `FileUpdated`,
//! every other notification kind is silently dropped. The OS receive
//! loop runs outside the library and hands each notification's kind and
//! file names to the translation verified here.

use vstd::prelude::*;

use crate::coordinator::AppEvent;
use crate::coordinator::AppEventView;

verus! {

/// What a filesystem notification reported, reduced to the kinds the
/// watcher distinguishes: a file was created, a file's data changed, or
/// anything else (renames, metadata-only touches, directory changes).
#[derive(Clone, Copy, PartialEq, Eq, Structural, Debug)]
pub enum FsChangeKind {
    Create,
    DataModify,
    Other,
}

/// A file name with the watched extension: it ends in `.log` and has a
/// nonempty stem before the dot.
pub open spec fn is_log_file_name(name: Seq<char>) -> bool {
    &&& name.len() >= 5
    &&& name[name.len() - 4] == '.'
    &&& name[name.len() - 3] == 'l'
    &&& name[name.len() - 2] == 'o'
    &&& name[name.len() - 1] == 'g'
}

/// Decides whether a file name carries the watched `.log` extension.
pub fn has_log_extension(name: &str) -> (r: bool)
    ensures
        r == is_log_file_name(name@),
{
    let n = name.unicode_len();
    if n < 5 {
        return false;
    }
    name.get_char(n - 4) == '.' && name.get_char(n - 3) == 'l' && name.get_char(n - 2) == 'o'
        && name.get_char(n - 1) == 'g'
}

/// The marker `logs` occurs in `path` at position `i`.
pub open spec fn marker_at(path: Seq<char>, i: int) -> bool {
    &&& 0 <= i
    &&& i + 4 <= path.len()
    &&& path[i] == 'l'
    &&& path[i + 1] == 'o'
    &&& path[i + 2] == 'g'
    &&& path[i + 3] == 's'
}

/// The fixed substring marker `logs` occurs somewhere in `path`: the
/// selection rule of the bulk directory scan.
pub open spec fn has_marker(path: Seq<char>) -> bool {
    exists|i: int| marker_at(path, i)
}

/// Decides whether a path contains the fixed substring marker `logs`.
pub fn path_has_marker(path: &str) -> (r: bool)
    ensures
        r == has_marker(path@),
{
    let n = path.unicode_len();
    if n < 4 {
        assert(forall|i: int| !marker_at(path@, i));
        return false;
    }
    let mut i: usize = 0;
    while i <= n - 4
        invariant
            n == path@.len(),
            n >= 4,
            i <= n - 4 + 1,
            forall|k: int| 0 <= k < i ==> !marker_at(path@, k),
        decreases n - i,
    {
        if path.get_char(i) == 'l' && path.get_char(i + 1) == 'o' && path.get_char(i + 2) == 'g'
            && path.get_char(i + 3) == 's' {
            assert(marker_at(path@, i as int));
            return true;
        }
        assert(!marker_at(path@, i as int));
        i = i + 1;
    }
    assert(forall|k: int| !marker_at(path@, k));
    false
}

/// The event one watched notification yields for one file name.
pub open spec fn event_for(kind: FsChangeKind, name: Seq<char>) -> AppEventView
    recommends
        kind != FsChangeKind::Other,
{
    match kind {
        FsChangeKind::Create => AppEventView::FileCreated(name),
        _ => AppEventView::FileUpdated(name),
    }
}

/// The events one filesystem notification yields: nothing for an
/// unwatched kind; otherwise one event per reported name that carries
/// the watched extension, in reported order.
pub open spec fn watch_events(kind: FsChangeKind, names: Seq<Seq<char>>) -> Seq<AppEventView>
    decreases names.len(),
{
    if kind == FsChangeKind::Other || names.len() == 0 {
        Seq::empty()
    } else {
        let rest = watch_events(kind, names.drop_first());
        if is_log_file_name(names[0]) {
            seq![event_for(kind, names[0])] + rest
        } else {
            rest
        }
    }
}

proof fn lemma_watch_events_app(kind: FsChangeKind, l1: Seq<Seq<char>>, l2: Seq<Seq<char>>)
    ensures
        watch_events(kind, l1 + l2) == watch_events(kind, l1) + watch_events(kind, l2),
    decreases l1.len(),
{
    if kind == FsChangeKind::Other {
        assert(watch_events(kind, l1 + l2) =~= watch_events(kind, l1) + watch_events(kind, l2));
    } else if l1.len() == 0 {
        assert(l1 + l2 =~= l2);
        assert(watch_events(kind, l1) + watch_events(kind, l2) =~= watch_events(kind, l2));
    } else {
        assert((l1 + l2)[0] == l1[0]);
        assert((l1 + l2).drop_first() =~= l1.drop_first() + l2);
        lemma_watch_events_app(kind, l1.drop_first(), l2);
        if is_log_file_name(l1[0]) {
            assert(seq![event_for(kind, l1[0])] + (watch_events(kind, l1.drop_first())
                + watch_events(kind, l2)) =~= (seq![event_for(kind, l1[0])] + watch_events(
                kind,
                l1.drop_first(),
            )) + watch_events(kind, l2));
        }
    }
}

proof fn lemma_watch_events_snoc(kind: FsChangeKind, names: Seq<Seq<char>>, k: int)
    requires
        0 <= k < names.len(),
        kind != FsChangeKind::Other,
    ensures
        watch_events(kind, names.take(k + 1)) == watch_events(kind, names.take(k)) + (if
        is_log_file_name(names[k]) {
            seq![event_for(kind, names[k])]
        } else {
            Seq::empty()
        }),
{
    assert(names.take(k + 1) =~= names.take(k) + seq![names[k]]);
    lemma_watch_events_app(kind, names.take(k), seq![names[k]]);
    let one = seq![names[k]];
    assert(one[0] == names[k]);
    assert(one.drop_first() =~= Seq::<Seq<char>>::empty());
    assert(watch_events(kind, one.drop_first()) =~= Seq::<AppEventView>::empty());
    if is_log_file_name(names[k]) {
        assert(seq![event_for(kind, names[k])] + Seq::<AppEventView>::empty()
            =~= seq![event_for(kind, names[k])]);
    }
}

/// Translates one filesystem notification — its kind and the file names
/// it reported — into the coordinator's events: creations and data
/// modifications of `.log` files pass, everything else is dropped.
pub fn translate_notification(kind: FsChangeKind, names: &Vec<String>) -> (events: Vec<AppEvent>)
    ensures
        events.deep_view() == watch_events(kind, names.deep_view()),
{
    let mut events: Vec<AppEvent> = Vec::new();
    proof {
        assert(events.deep_view() =~= Seq::<AppEventView>::empty());
    }
    match kind {
        FsChangeKind::Other => events,
        _ => {
            let n = names.len();
            let mut k: usize = 0;
            proof {
                assert(names.deep_view().take(0) =~= Seq::<Seq<char>>::empty());
            }
            while k < n
                invariant
                    n == names.len(),
                    k <= n,
                    kind != FsChangeKind::Other,
                    events.deep_view() == watch_events(kind, names.deep_view().take(k as int)),
                decreases n - k,
            {
                proof {
                    lemma_watch_events_snoc(kind, names.deep_view(), k as int);
                    assert(names.deep_view()[k as int] == names[k as int]@);
                }
                let name: &String = &names[k];
                if has_log_extension(name.as_str()) {
                    let event = match kind {
                        FsChangeKind::Create => AppEvent::FileCreated(name.clone()),
                        _ => AppEvent::FileUpdated(name.clone()),
                    };
                    let ghost prev = events.deep_view();
                    events.push(event);
                    assert(events.deep_view() =~= prev.push(event_for(kind, name@)));
                    assert(prev.push(event_for(kind, name@)) =~= prev + seq![event_for(
                        kind,
                        name@,
                    )]);
                } else {
                    assert(events.deep_view() + Seq::<AppEventView>::empty()
                        =~= events.deep_view());
                }
                k = k + 1;
            }
            proof {
                assert(names.deep_view().take(n as int) =~= names.deep_view());
            }
            events
        },
    }
}

/// The watcher worker's configuration: the directory it observes for
/// the lifetime of the process. The OS receive loop that feeds
/// `translate_notification` runs outside the library.
pub struct LogFileWatcher {
    pub path: String,
}

impl LogFileWatcher {
    /// A watcher for one directory.
    pub fn new(path: String) -> (w: LogFileWatcher)
        ensures
            w.path@ == path@,
    {
        LogFileWatcher { path }
    }
}

} // verus!
