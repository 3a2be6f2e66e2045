//! Offset-tracked incremental reading of a log file.
//!
//! A source file is read incrementally: each read resumes at the byte
//! offset stored by the previous read, or at the beginning again when the
//! file shrank below that offset (truncation or rotation). The I/O itself
//! happens outside the library; this module holds the resume decision,
//! the record constructor, and the mathematical model of a read, together
//! with the laws the model obeys.

use vstd::prelude::*;

verus! {

/// One ingested record: the text captured since the previous read of a
/// source file, keyed by that file's name. `offset` is the file length
/// observed by the read, so the next read resumes exactly where this one
/// stopped. `is_fresh` marks a record produced by the most recent
/// ingestion cycle; the coordinator demotes it on the next cycle.
pub struct LogEntry {
    pub name: String,
    pub offset: u64,
    pub content: String,
    pub is_fresh: bool,
}

/// Mathematical model of a `LogEntry`.
pub struct LogEntryView {
    pub name: Seq<char>,
    pub offset: u64,
    pub content: Seq<char>,
    pub is_fresh: bool,
}

impl View for LogEntry {
    type V = LogEntryView;

    open spec fn view(&self) -> LogEntryView {
        LogEntryView {
            name: self.name@,
            offset: self.offset,
            content: self.content@,
            is_fresh: self.is_fresh,
        }
    }
}

impl DeepView for LogEntry {
    type V = LogEntryView;

    open spec fn deep_view(&self) -> LogEntryView {
        self.view()
    }
}

/// Where the next incremental read of a file of length `current_len`
/// starts, given the offset stored by the previous read: at that offset,
/// or at byte 0 again if the file shrank below it.
pub open spec fn resume_start(current_len: u64, last_offset: u64) -> u64 {
    if current_len < last_offset {
        0
    } else {
        last_offset
    }
}

/// The offset a read of a file with content `file` stores: the file's
/// length, the point at which the next read resumes.
pub open spec fn parsed_offset(file: Seq<u8>) -> u64
    recommends
        file.len() <= u64::MAX,
{
    file.len() as u64
}

/// The bytes a read returns when it resumes at `start` in a file with
/// content `file`.
pub open spec fn read_tail(file: Seq<u8>, start: u64) -> Seq<u8> {
    if start <= file.len() {
        file.subrange(start as int, file.len() as int)
    } else {
        Seq::empty()
    }
}

/// The bytes one incremental read returns from a file with content
/// `file`, given the offset stored by the previous read.
pub open spec fn parse_content(file: Seq<u8>, last_offset: u64) -> Seq<u8>
    recommends
        file.len() <= u64::MAX,
{
    read_tail(file, resume_start(parsed_offset(file), last_offset))
}

/// Chooses the position at which the next incremental read of a source
/// file starts, resetting to the beginning when the file shrank below
/// the stored offset.
pub fn resume_position(current_len: u64, last_offset: u64) -> (start: u64)
    ensures
        start == resume_start(current_len, last_offset),
        start <= current_len,
{
    if current_len < last_offset {
        0
    } else {
        last_offset
    }
}

/// Builds the record of one incremental read: `current_len` is the file
/// length observed by the read and `new_text` the decoded text read from
/// the resume position to the end of the file (empty when nothing new
/// was read, or when the caller could not read the file at all, in which
/// case it passes length 0 as well).
pub fn parse_log_file(name: String, current_len: u64, new_text: String) -> (entry: LogEntry)
    ensures
        entry@.name == name@,
        entry@.offset == current_len,
        entry@.content == new_text@,
        entry@.is_fresh,
{
    LogEntry { name, offset: current_len, content: new_text, is_fresh: true }
}

/// Idempotent resume: a read stores the file's length as the new offset,
/// so a second read of the unchanged file, resuming at the offset the
/// first one returned, reads nothing.
pub proof fn lemma_idempotent_resume(file: Seq<u8>)
    requires
        file.len() <= u64::MAX,
    ensures
        parse_content(file, parsed_offset(file)) =~= Seq::<u8>::empty(),
{
    assert(resume_start(parsed_offset(file), parsed_offset(file)) == parsed_offset(file));
}

/// Truncation reset: when a file's length dropped below the stored
/// offset, the next read starts at byte 0 and returns the file's whole
/// current content.
pub proof fn lemma_truncation_reset(file: Seq<u8>, last_offset: u64)
    requires
        file.len() <= u64::MAX,
        file.len() < last_offset,
    ensures
        resume_start(parsed_offset(file), last_offset) == 0,
        parse_content(file, last_offset) =~= file,
{
}

} // verus!
