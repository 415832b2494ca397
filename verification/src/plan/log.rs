//! The operation journal: what was done, and how to undo it.

use super::types;
use super::types::{clone_entries, RebuildEntry, RebuildEntryView};
use crate::clock;
use crate::seqs;
use crate::text;
use vstd::prelude::*;
use vstd::string::StringExecFns;

verus! {

/// A journal entry with forward and reverse operations.
#[derive(Debug)]
pub struct LogEntry {
    /// Unique operation ID (from plan)
    pub operation_id: u64,
    /// Timestamp when the operation was executed
    pub executed_at: String,
    /// Forward operation that was executed
    pub forward: LoggedOperation,
    /// Reverse operation for rollback
    pub reverse: Option<LoggedOperation>,
    /// Current status
    pub status: LogStatus,
}

/// Status of a logged operation.
#[derive(Clone, Copy, Debug, PartialEq, Eq, Structural)]
pub enum LogStatus {
    /// Operation completed successfully
    Completed,
    /// Operation failed
    Failed,
    /// Operation was rolled back
    RolledBack,
}

/// A logged operation (forward or reverse).
#[derive(Debug)]
pub enum LoggedOperation {
    Copy { source: String, dest: String, sha1: String },
    Move { source: String, dest: String, sha1: String },
    /// A whole file moved unchanged, with no ROM hash to verify
    Relocate { source: String, dest: String },
    Delete { path: String },
    Repack { sources: Vec<String>, dest: String },
    /// Restores the loose sources that a repack consumed, each archive entry
    /// paired with the path to write it back to, then deletes the archive
    UnpackRepack { dest: String, restore: Vec<(String, String)> },
    /// Rebuilds a drained container out of the archives that now hold its
    /// entries
    RebuildContainer { container: String, format: String, entries: Vec<RebuildEntry> },
    /// A file moved into the quarantine store
    Quarantine { original_path: String, quarantine_path: String, sha1: String },
}

#[verifier::ext_equal]
pub enum LoggedView {
    Copy { source: Seq<char>, dest: Seq<char>, sha1: Seq<char> },
    Move { source: Seq<char>, dest: Seq<char>, sha1: Seq<char> },
    Relocate { source: Seq<char>, dest: Seq<char> },
    Delete { path: Seq<char> },
    Repack { sources: Seq<Seq<char>>, dest: Seq<char> },
    UnpackRepack { dest: Seq<char>, restore: Seq<(Seq<char>, Seq<char>)> },
    RebuildContainer {
        container: Seq<char>,
        format: Seq<char>,
        entries: Seq<RebuildEntryView>,
    },
    Quarantine { original_path: Seq<char>, quarantine_path: Seq<char>, sha1: Seq<char> },
}

impl DeepView for LoggedOperation {
    type V = LoggedView;

    open spec fn deep_view(&self) -> LoggedView {
        match self {
            LoggedOperation::Copy { source, dest, sha1 } => LoggedView::Copy {
                source: source@,
                dest: dest@,
                sha1: sha1@,
            },
            LoggedOperation::Move { source, dest, sha1 } => LoggedView::Move {
                source: source@,
                dest: dest@,
                sha1: sha1@,
            },
            LoggedOperation::Relocate { source, dest } => LoggedView::Relocate {
                source: source@,
                dest: dest@,
            },
            LoggedOperation::Delete { path } => LoggedView::Delete { path: path@ },
            LoggedOperation::Repack { sources, dest } => LoggedView::Repack {
                sources: sources.deep_view(),
                dest: dest@,
            },
            LoggedOperation::UnpackRepack { dest, restore } => LoggedView::UnpackRepack {
                dest: dest@,
                restore: restore.deep_view(),
            },
            LoggedOperation::RebuildContainer { container, format, entries } =>
                LoggedView::RebuildContainer {
                container: container@,
                format: format@,
                entries: entries.deep_view(),
            },
            LoggedOperation::Quarantine { original_path, quarantine_path, sha1 } =>
                LoggedView::Quarantine {
                original_path: original_path@,
                quarantine_path: quarantine_path@,
                sha1: sha1@,
            },
        }
    }
}

#[verifier::ext_equal]
pub struct LogEntryView {
    pub operation_id: u64,
    pub executed_at: Seq<char>,
    pub forward: LoggedView,
    pub reverse: Option<LoggedView>,
    pub status: LogStatus,
}

impl DeepView for LogEntry {
    type V = LogEntryView;

    open spec fn deep_view(&self) -> LogEntryView {
        LogEntryView {
            operation_id: self.operation_id,
            executed_at: self.executed_at@,
            forward: self.forward.deep_view(),
            reverse: self.reverse.deep_view(),
            status: self.status,
        }
    }
}

/// The journal of one apply session.
#[derive(Debug)]
pub struct OperationLog {
    /// State hash of the plan this journal is for
    pub plan_hash: String,
    /// When the apply session started
    pub started_at: String,
    /// When the apply session completed (if finished)
    pub completed_at: Option<String>,
    /// All operation entries
    pub entries: Vec<LogEntry>,
}

#[verifier::ext_equal]
pub struct LogView {
    pub plan_hash: Seq<char>,
    pub started_at: Seq<char>,
    pub completed_at: Option<Seq<char>>,
    pub entries: Seq<LogEntryView>,
}

impl DeepView for OperationLog {
    type V = LogView;

    open spec fn deep_view(&self) -> LogView {
        LogView {
            plan_hash: self.plan_hash@,
            started_at: self.started_at@,
            completed_at: self.completed_at.deep_view(),
            entries: self.entries.deep_view(),
        }
    }
}

// ---------------------------------------------------------------------------
// What is journalled
// ---------------------------------------------------------------------------

/// The texts of pairs.
pub open spec fn pair_views(pairs: Seq<(String, String)>) -> Seq<(Seq<char>, Seq<char>)> {
    Seq::new(pairs.len(), |i: int| (pairs[i].0@, pairs[i].1@))
}

/// The texts of a list.
pub open spec fn list_views(list: Seq<String>) -> Seq<Seq<char>> {
    Seq::new(list.len(), |i: int| list[i]@)
}

/// What undoes an operation that left its sources as they were: a copy or an
/// archive is deleted, a moved file is moved back.
pub open spec fn undo(forward: LoggedView) -> Option<LoggedView> {
    match forward {
        LoggedView::Copy { dest, .. } => Some(LoggedView::Delete { path: dest }),
        LoggedView::Move { source, dest, sha1 } => Some(
            LoggedView::Move { source: dest, dest: source, sha1 },
        ),
        LoggedView::Relocate { source, dest } => Some(
            LoggedView::Relocate { source: dest, dest: source },
        ),
        LoggedView::Repack { dest, .. } => Some(LoggedView::Delete { path: dest }),
        LoggedView::Quarantine { original_path, quarantine_path, sha1 } => Some(
            LoggedView::Move { source: quarantine_path, dest: original_path, sha1 },
        ),
        _ => None,
    }
}

/// What undoes a repack: where it consumed sources, they are restored out of
/// the archive first.
pub open spec fn undo_repack(dest: Seq<char>, consumed: Seq<(Seq<char>, Seq<char>)>) -> LoggedView {
    if consumed.len() == 0 {
        LoggedView::Delete { path: dest }
    } else {
        LoggedView::UnpackRepack { dest, restore: consumed }
    }
}

/// Whether a journal is another one with one entry appended, stamped with the
/// time of writing. A failed operation has nothing to undo.
pub open spec fn journalled(
    before: LogView,
    after: LogView,
    operation_id: u64,
    forward: LoggedView,
    reverse: Option<LoggedView>,
    success: bool,
) -> bool {
    &&& after.entries.len() == before.entries.len() + 1
    &&& after.entries.drop_last() == before.entries
    &&& after.entries.last() == (LogEntryView {
        operation_id,
        executed_at: after.entries.last().executed_at,
        forward,
        reverse: if success {
            reverse
        } else {
            None
        },
        status: if success {
            LogStatus::Completed
        } else {
            LogStatus::Failed
        },
    })
    &&& clock::is_stamp(after.entries.last().executed_at)
    &&& after.plan_hash == before.plan_hash
    &&& after.started_at == before.started_at
    &&& after.completed_at == before.completed_at
}

/// How many entries have a status.
pub open spec fn with_status(entries: Seq<LogEntryView>, status: LogStatus) -> nat
    decreases entries.len(),
{
    if entries.len() == 0 {
        0
    } else {
        with_status(entries.drop_last(), status) + (if entries.last().status == status {
            1nat
        } else {
            0nat
        })
    }
}

/// Every entry is completed, failed or rolled back.
pub proof fn law_statuses_add_up(entries: Seq<LogEntryView>)
    ensures
        with_status(entries, LogStatus::Completed) + with_status(entries, LogStatus::Failed)
            + with_status(entries, LogStatus::RolledBack) == entries.len(),
    decreases entries.len(),
{
    if entries.len() > 0 {
        law_statuses_add_up(entries.drop_last());
    }
}

/// What an operation on whole files makes of the files on disk.
pub open spec fn performed(files: Map<Seq<char>, Seq<u8>>, op: LoggedView) -> Map<
    Seq<char>,
    Seq<u8>,
> {
    match op {
        LoggedView::Copy { source, dest, .. } => files.insert(dest, files[source]),
        LoggedView::Move { source, dest, .. } => files.insert(dest, files[source]).remove(source),
        LoggedView::Relocate { source, dest } => files.insert(dest, files[source]).remove(source),
        LoggedView::Quarantine { original_path, quarantine_path, .. } => files.insert(
            quarantine_path,
            files[original_path],
        ).remove(original_path),
        LoggedView::Delete { path } => files.remove(path),
        _ => files,
    }
}

/// The file an operation on whole files reads, and the one it creates.
pub open spec fn ends(op: LoggedView) -> Option<(Seq<char>, Seq<char>)> {
    match op {
        LoggedView::Copy { source, dest, .. } => Some((source, dest)),
        LoggedView::Move { source, dest, .. } => Some((source, dest)),
        LoggedView::Relocate { source, dest } => Some((source, dest)),
        LoggedView::Quarantine { original_path, quarantine_path, .. } => Some(
            (original_path, quarantine_path),
        ),
        _ => None,
    }
}

/// Undoing a copy, move, relocation or quarantine restores every file, given
/// that the operation found its source and did not overwrite anything.
pub proof fn law_undo_restores_files(files: Map<Seq<char>, Seq<u8>>, op: LoggedView)
    requires
        ends(op) is Some,
        files.contains_key((ends(op)->0).0),
        !files.contains_key((ends(op)->0).1),
    ensures
        undo(op) is Some,
        performed(performed(files, op), undo(op)->0) == files,
{
    let back = performed(performed(files, op), undo(op)->0);
    assert(back =~= files);
}

/// What undoes a move checks for the same content that was moved; an archive that
/// consumed nothing is deleted, one that consumed files gives each of them back, by
/// its entry and its path; and what was failed or rolled back is told from what
/// completed.
pub proof fn law_undo_gives_back_what_was_taken(
    op: LoggedView,
    dest: Seq<char>,
    consumed: Seq<(Seq<char>, Seq<char>)>,
)
    ensures
        op matches LoggedView::Move { sha1, .. } ==> (undo(op) matches Some(LoggedView::Move {
            sha1: checked,
            ..
        }) && checked == sha1),
        op matches LoggedView::Quarantine { sha1, .. } ==> (undo(op) matches Some(LoggedView::Move {
            sha1: checked,
            ..
        }) && checked == sha1),
        op matches LoggedView::Repack { dest: made, .. } ==> undo(op) == Some(
            LoggedView::Delete { path: made },
        ),
        op is Delete ==> undo(op) is None,
        consumed.len() == 0 ==> undo_repack(dest, consumed) == (LoggedView::Delete { path: dest }),
        consumed.len() > 0 ==> (undo_repack(dest, consumed) matches LoggedView::UnpackRepack {
            dest: from,
            restore,
        } && from == dest && restore == consumed),
{
}

/// A journal grows by one entry at its end and keeps all that it held. The entry can
/// be undone exactly where the operation succeeded and has something to undo it.
pub proof fn law_journal_only_grows(
    before: LogView,
    after: LogView,
    operation_id: u64,
    forward: LoggedView,
    reverse: Option<LoggedView>,
    success: bool,
)
    requires
        journalled(before, after, operation_id, forward, reverse, success),
    ensures
        after.entries.len() == before.entries.len() + 1,
        forall|i: int|
            0 <= i < before.entries.len() ==> #[trigger] after.entries[i] == before.entries[i],
        ({
            let e = after.entries[before.entries.len() as int];
            &&& e.operation_id == operation_id
            &&& e.forward == forward
            &&& e.status == LogStatus::Completed <==> success
            &&& e.status == LogStatus::Failed <==> !success
            &&& e.reverse is Some <==> success && reverse is Some
            &&& success ==> e.reverse == reverse
        }),
        after.plan_hash == before.plan_hash && after.started_at == before.started_at,
{
    assert forall|i: int| 0 <= i < before.entries.len() implies #[trigger] after.entries[i]
        == before.entries[i] by {
        assert(after.entries.drop_last()[i] == after.entries[i]);
    }
}

/// Entries are counted by their status.
pub proof fn law_entries_count_by_status(entries: Seq<LogEntryView>, status: LogStatus)
    ensures
        with_status(entries, status) == entries.filter(
            |e: LogEntryView| e.status == status,
        ).len(),
    decreases entries.len(),
{
    reveal(Seq::filter);
    if entries.len() > 0 {
        law_entries_count_by_status(entries.drop_last(), status);
    }
}

/// The prefix of a text that takes exactly `n` bytes, where there is one.
pub open spec fn byte_prefix(s: Seq<char>, n: nat) -> Option<Seq<char>> {
    if exists|k: int| 0 <= k <= s.len() && text::utf8_len(#[trigger] s.take(k)) == n {
        let k = choose|k: int| 0 <= k <= s.len() && text::utf8_len(#[trigger] s.take(k)) == n;
        Some(s.take(k))
    } else {
        None
    }
}

/// A stamp without its separators.
pub open spec fn compact(s: Seq<char>) -> Seq<char> {
    s.filter(|c: char| c != ':' && c != '-' && c != 'T' && c != 'Z')
}

/// The prefix of a text that takes some number of bytes is the one: it begins the text
/// and takes that many; there is one for every ASCII text that is long enough.
pub proof fn law_byte_prefix_takes_its_bytes(s: Seq<char>, n: nat)
    ensures
        byte_prefix(s, n) matches Some(p) ==> text::begins(s, p) && text::utf8_len(p) == n,
        byte_prefix(s, n) is None ==> forall|k: int|
            0 <= k <= s.len() ==> text::utf8_len(#[trigger] s.take(k)) != n,
        n <= s.len() && (forall|i: int| 0 <= i < s.len() ==> (#[trigger] s[i]) as u32 <= 127)
            ==> byte_prefix(s, n) == Some(s.take(n as int)),
{
    if n <= s.len() && (forall|i: int| 0 <= i < s.len() ==> (#[trigger] s[i]) as u32 <= 127) {
        lemma_ascii_bytes(s, n as int);
        let k = choose|k: int| 0 <= k <= s.len() && text::utf8_len(#[trigger] s.take(k)) == n;
        lemma_ascii_bytes(s, k);
    }
}

proof fn lemma_ascii_bytes(s: Seq<char>, n: int)
    requires
        0 <= n <= s.len(),
        forall|i: int| 0 <= i < s.len() ==> (#[trigger] s[i]) as u32 <= 127,
    ensures
        text::utf8_len(s.take(n)) == n,
    decreases n,
{
    if n > 0 {
        lemma_ascii_bytes(s, n - 1);
        assert(s.take(n).drop_last() =~= s.take(n - 1));
        assert(s.take(n).last() == s[n - 1]);
        assert(s[n - 1] as u32 <= 127);
        assert(text::utf8_width(s[n - 1]) == 1);
    } else {
        assert(s.take(n).len() == 0);
    }
}

/// A compact stamp holds the characters of the stamp but its separators, in order.
pub proof fn law_compact_stamp_drops_separators(s: Seq<char>, c: char)
    ensures
        compact(s).contains(c) <==> s.contains(c) && c != ':' && c != '-' && c != 'T' && c != 'Z',
        compact(s).len() <= s.len(),
        compact(s.push(c)) == (if c == ':' || c == '-' || c == 'T' || c == 'Z' {
            compact(s)
        } else {
            compact(s).push(c)
        }),
{
    let p = |c: char| c != ':' && c != '-' && c != 'T' && c != 'Z';
    seqs::lemma_filter_members(s, p);
    reveal(Seq::filter);
    assert(s.push(c).drop_last() =~= s);
}

/// Longer prefixes take more bytes.
proof fn lemma_prefix_grows(s: Seq<char>, i: int, j: int)
    requires
        0 <= i < j <= s.len(),
    ensures
        text::utf8_len(s.take(i)) < text::utf8_len(s.take(j)),
    decreases j,
{
    assert(s.take(j).drop_last() =~= s.take(j - 1));
    if i < j - 1 {
        lemma_prefix_grows(s, i, j - 1);
    }
}

impl OperationLog {
    /// A new journal for a plan.
    pub fn new(plan_hash: String) -> (log: Self)
        ensures
            log.deep_view() == (LogView {
                plan_hash: plan_hash@,
                started_at: log.started_at@,
                completed_at: None,
                entries: Seq::empty(),
            }),
            clock::is_stamp(log.started_at@),
    {
        let log = OperationLog {
            plan_hash,
            started_at: clock::chrono_now(),
            completed_at: None,
            entries: Vec::new(),
        };
        proof {
            assert(log.entries.deep_view() =~= Seq::empty());
        }
        log
    }

    fn push_entry(
        &mut self,
        operation_id: u64,
        forward: LoggedOperation,
        reverse: Option<LoggedOperation>,
        success: bool,
    )
        requires
            !success ==> reverse is None,
        ensures
            journalled(
                old(self).deep_view(),
                final(self).deep_view(),
                operation_id,
                forward.deep_view(),
                reverse.deep_view(),
                success,
            ),
    {
        let ghost before = self.deep_view();
        let executed_at = clock::chrono_now();
        let status = if success {
            LogStatus::Completed
        } else {
            LogStatus::Failed
        };
        self.entries.push(LogEntry { operation_id, executed_at, forward, reverse, status });
        proof {
            assert(self.deep_view().entries.drop_last() =~= before.entries);
        }
    }

    /// Journals a copy. Its reverse deletes the copy.
    pub fn log_copy(
        &mut self,
        operation_id: u64,
        source: &str,
        dest: &str,
        sha1: &str,
        success: bool,
    )
        ensures
            ({
                let forward = LoggedView::Copy { source: source@, dest: dest@, sha1: sha1@ };
                journalled(
                    old(self).deep_view(),
                    final(self).deep_view(),
                    operation_id,
                    forward,
                    undo(forward),
                    success,
                )
            }),
    {
        let forward = LoggedOperation::Copy {
            source: source.to_owned(),
            dest: dest.to_owned(),
            sha1: sha1.to_owned(),
        };
        let reverse = if success {
            Some(LoggedOperation::Delete { path: dest.to_owned() })
        } else {
            None
        };
        self.push_entry(operation_id, forward, reverse, success);
    }

    /// Journals a move. Its reverse moves back.
    pub fn log_move(
        &mut self,
        operation_id: u64,
        source: &str,
        dest: &str,
        sha1: &str,
        success: bool,
    )
        ensures
            ({
                let forward = LoggedView::Move { source: source@, dest: dest@, sha1: sha1@ };
                journalled(
                    old(self).deep_view(),
                    final(self).deep_view(),
                    operation_id,
                    forward,
                    undo(forward),
                    success,
                )
            }),
    {
        let forward = LoggedOperation::Move {
            source: source.to_owned(),
            dest: dest.to_owned(),
            sha1: sha1.to_owned(),
        };
        let reverse = if success {
            Some(
                LoggedOperation::Move {
                    source: dest.to_owned(),
                    dest: source.to_owned(),
                    sha1: sha1.to_owned(),
                },
            )
        } else {
            None
        };
        self.push_entry(operation_id, forward, reverse, success);
    }

    /// Journals a relocation. Its reverse relocates back.
    pub fn log_relocate(&mut self, operation_id: u64, source: &str, dest: &str, success: bool)
        ensures
            ({
                let forward = LoggedView::Relocate { source: source@, dest: dest@ };
                journalled(
                    old(self).deep_view(),
                    final(self).deep_view(),
                    operation_id,
                    forward,
                    undo(forward),
                    success,
                )
            }),
    {
        let forward = LoggedOperation::Relocate {
            source: source.to_owned(),
            dest: dest.to_owned(),
        };
        let reverse = if success {
            Some(LoggedOperation::Relocate { source: dest.to_owned(), dest: source.to_owned() })
        } else {
            None
        };
        self.push_entry(operation_id, forward, reverse, success);
    }

    /// Journals a repack. `consumed` lists the loose sources that a move-mode
    /// repack deleted, as (archive entry name, original path) pairs; it is empty
    /// for a copy-mode repack.
    pub fn log_repack(
        &mut self,
        operation_id: u64,
        sources: &[String],
        dest: &str,
        consumed: &[(String, String)],
        success: bool,
    )
        ensures
            journalled(
                old(self).deep_view(),
                final(self).deep_view(),
                operation_id,
                LoggedView::Repack { sources: list_views(sources@), dest: dest@ },
                Some(undo_repack(dest@, pair_views(consumed@))),
                success,
            ),
    {
        let copied = text::clone_list(sources);
        proof {
            assert(copied.deep_view() =~= list_views(sources@));
        }
        let forward = LoggedOperation::Repack { sources: copied, dest: dest.to_owned() };
        let reverse = if !success {
            None
        } else if consumed.len() == 0 {
            Some(LoggedOperation::Delete { path: dest.to_owned() })
        } else {
            Some(
                LoggedOperation::UnpackRepack {
                    dest: dest.to_owned(),
                    restore: clone_pairs(consumed),
                },
            )
        };
        self.push_entry(operation_id, forward, reverse, success);
    }

    /// Journals the delete of a drained container. Its reverse rebuilds the
    /// container out of the archives that hold its entries.
    pub fn log_container_drain(
        &mut self,
        operation_id: u64,
        container: &str,
        format: &str,
        entries: &[RebuildEntry],
        success: bool,
    )
        ensures
            journalled(
                old(self).deep_view(),
                final(self).deep_view(),
                operation_id,
                LoggedView::Delete { path: container@ },
                Some(
                    LoggedView::RebuildContainer {
                        container: container@,
                        format: format@,
                        entries: types::entry_views(entries@),
                    },
                ),
                success,
            ),
    {
        let forward = LoggedOperation::Delete { path: container.to_owned() };
        let reverse = if success {
            Some(
                LoggedOperation::RebuildContainer {
                    container: container.to_owned(),
                    format: format.to_owned(),
                    entries: clone_entries(entries),
                },
            )
        } else {
            None
        };
        self.push_entry(operation_id, forward, reverse, success);
    }

    /// Journals a quarantine. Its reverse moves the file back.
    pub fn log_quarantine(
        &mut self,
        operation_id: u64,
        original_path: &str,
        quarantine_path: &str,
        sha1: &str,
        success: bool,
    )
        ensures
            ({
                let forward = LoggedView::Quarantine {
                    original_path: original_path@,
                    quarantine_path: quarantine_path@,
                    sha1: sha1@,
                };
                journalled(
                    old(self).deep_view(),
                    final(self).deep_view(),
                    operation_id,
                    forward,
                    undo(forward),
                    success,
                )
            }),
    {
        let forward = LoggedOperation::Quarantine {
            original_path: original_path.to_owned(),
            quarantine_path: quarantine_path.to_owned(),
            sha1: sha1.to_owned(),
        };
        let reverse = if success {
            Some(
                LoggedOperation::Move {
                    source: quarantine_path.to_owned(),
                    dest: original_path.to_owned(),
                    sha1: sha1.to_owned(),
                },
            )
        } else {
            None
        };
        self.push_entry(operation_id, forward, reverse, success);
    }

    /// Marks the journal as complete.
    pub fn complete(&mut self)
        ensures
            final(self).deep_view() == (LogView {
                completed_at: final(self).deep_view().completed_at,
                ..old(self).deep_view()
            }),
            final(self).completed_at matches Some(at) && clock::is_stamp(at@),
    {
        self.completed_at = Some(clock::chrono_now());
    }

    /// How many operations succeeded.
    pub fn success_count(&self) -> (n: usize)
        ensures
            n == with_status(self.deep_view().entries, LogStatus::Completed),
    {
        self.count(LogStatus::Completed)
    }

    /// How many operations failed.
    pub fn failed_count(&self) -> (n: usize)
        ensures
            n == with_status(self.deep_view().entries, LogStatus::Failed),
    {
        self.count(LogStatus::Failed)
    }

    fn count(&self, status: LogStatus) -> (n: usize)
        ensures
            n == with_status(self.deep_view().entries, status),
    {
        let ghost all = self.entries.deep_view();
        let mut n: usize = 0;
        let mut i: usize = 0;
        while i < self.entries.len()
            invariant
                n <= i <= self.entries@.len(),
                all == self.entries.deep_view(),
                n == with_status(all.take(i as int), status),
            decreases self.entries@.len() - i,
        {
            proof {
                assert(all.take(i + 1).drop_last() =~= all.take(i as int));
            }
            if self.entries[i].status == status {
                n = n + 1;
            }
            i = i + 1;
        }
        proof {
            assert(all.take(i as int) =~= all);
        }
        n
    }

    /// The name of the file that the journal is kept in: the compact start time
    /// and the first eight bytes of the plan hash; none where the hash has no
    /// such prefix.
    pub fn file_name(&self) -> (r: Option<String>)
        ensures
            match r {
                Some(name) => byte_prefix(self.plan_hash@, 8) is Some && name@ == compact(
                    self.started_at@,
                ) + "_"@ + byte_prefix(self.plan_hash@, 8)->0 + ".json"@,
                None => byte_prefix(self.plan_hash@, 8) is None,
            },
    {
        let hash = text::chars_of(self.plan_hash.as_str());
        let prefix = match prefix_of_bytes(hash.as_slice(), 8) {
            Some(prefix) => prefix,
            None => {
                return None;
            },
        };
        let stamp = text::chars_of(self.started_at.as_str());
        let mut name = String::new();
        let mut i: usize = 0;
        while i < stamp.len()
            invariant
                i <= stamp@.len(),
                name@ == compact(stamp@.take(i as int)),
            decreases stamp@.len() - i,
        {
            proof {
                assert(stamp@.take(i + 1).drop_last() =~= stamp@.take(i as int));
                reveal_with_fuel(Seq::filter, 2);
            }
            let c: char = stamp[i];
            if c != ':' && c != '-' && c != 'T' && c != 'Z' {
                name.push(c);
            }
            i = i + 1;
        }
        proof {
            assert(stamp@.take(i as int) =~= stamp@);
        }
        name.append("_");
        name.append(prefix.as_str());
        name.append(".json");
        Some(name)
    }
}

/// The prefix that takes exactly `limit` bytes, where there is one.
fn prefix_of_bytes(chars: &[char], limit: usize) -> (r: Option<String>)
    ensures
        r.deep_view() == byte_prefix(chars@, limit as nat),
{
    let mut k: usize = 0;
    loop
        invariant
            k <= chars@.len(),
            forall|j: int|
                0 <= j < k ==> text::utf8_len(#[trigger] chars@.take(j)) != limit,
        decreases chars@.len() - k,
    {
        let prefix = text::string_of(chars, 0, k);
        proof {
            assert(prefix@ =~= chars@.take(k as int));
        }
        let here = text::chars_of(prefix.as_str());
        if text::utf8_at_most(here.as_slice(), limit) && (limit == 0 || !text::utf8_at_most(
            here.as_slice(),
            limit - 1,
        )) {
            proof {
                assert(text::utf8_len(chars@.take(k as int)) == limit);
                let c = choose|c: int|
                    0 <= c <= chars@.len() && text::utf8_len(#[trigger] chars@.take(c)) == limit;
                if c < k {
                    lemma_prefix_grows(chars@, c, k as int);
                }
                if k < c {
                    lemma_prefix_grows(chars@, k as int, c);
                }
            }
            return Some(prefix);
        }
        if k == chars.len() {
            return None;
        }
        k = k + 1;
    }
}

fn clone_pairs(pairs: &[(String, String)]) -> (r: Vec<(String, String)>)
    ensures
        r.deep_view() == pair_views(pairs@),
{
    let mut r: Vec<(String, String)> = Vec::new();
    let mut i: usize = 0;
    while i < pairs.len()
        invariant
            i <= pairs@.len(),
            r.deep_view() == pair_views(pairs@).take(i as int),
        decreases pairs@.len() - i,
    {
        let ghost before = r.deep_view();
        r.push((pairs[i].0.clone(), pairs[i].1.clone()));
        i = i + 1;
        proof {
            assert(r.deep_view() =~= before.push(pair_views(pairs@)[i - 1]));
            assert(r.deep_view() =~= pair_views(pairs@).take(i as int));
        }
    }
    proof {
        assert(pair_views(pairs@).take(i as int) =~= pair_views(pairs@));
    }
    r
}

} // verus!
