//! Placements: copies, moves, relocations and restores of single files, as a
//! sequence of file-system steps. A file is only ever removed once what replaces
//! it has been verified and flushed.

use super::archive_ops;
use super::fs_ops;
use super::fs_ops::{validate_output_path, ChdFault};
use crate::archive;
use crate::archive::{write_zip, EntryView, NewEntry, ReadFault, WriteFault, ZipStyle};
use crate::digest;
use crate::plan::types::{CopyPlacement, PlacementView, SourceRef, SourceRefView};
use crate::text;
use vstd::prelude::*;

verus! {

/// A placement that a worker carries out.
#[derive(Debug)]
pub enum PlacementKind {
    Copy { source: SourceRef, dest: String, placement: CopyPlacement },
    Move { source: SourceRef, dest: String, placement: CopyPlacement },
    Relocate { source: String, dest: String },
}

#[verifier::ext_equal]
pub enum PlacementKindView {
    Copy { source: SourceRefView, dest: Seq<char>, placement: PlacementView },
    Move { source: SourceRefView, dest: Seq<char>, placement: PlacementView },
    Relocate { source: Seq<char>, dest: Seq<char> },
}

impl DeepView for PlacementKind {
    type V = PlacementKindView;

    open spec fn deep_view(&self) -> PlacementKindView {
        match self {
            PlacementKind::Copy { source, dest, placement } => PlacementKindView::Copy {
                source: source.deep_view(),
                dest: dest@,
                placement: placement.deep_view(),
            },
            PlacementKind::Move { source, dest, placement } => PlacementKindView::Move {
                source: source.deep_view(),
                dest: dest@,
                placement: placement.deep_view(),
            },
            PlacementKind::Relocate { source, dest } => PlacementKindView::Relocate {
                source: source@,
                dest: dest@,
            },
        }
    }
}

/// A placement on its way to a worker.
pub struct PlacementJob {
    /// The position of the operation in the plan
    pub plan_index: usize,
    /// The operation's id, for the rollback journal
    pub operation_id: u64,
    pub kind: PlacementKind,
}

#[verifier::ext_equal]
pub struct PlacementJobView {
    pub plan_index: usize,
    pub operation_id: u64,
    pub kind: PlacementKindView,
}

impl DeepView for PlacementJob {
    type V = PlacementJobView;

    open spec fn deep_view(&self) -> PlacementJobView {
        PlacementJobView {
            plan_index: self.plan_index,
            operation_id: self.operation_id,
            kind: self.kind.deep_view(),
        }
    }
}

/// What came of a placement; where it failed, why.
pub struct PlacementOutcome {
    pub job: PlacementJob,
    pub result: Result<(), String>,
}

/// What a worker reports: that it picked a job, and that the job is done. Both
/// name the worker's slot.
pub enum PlacementEvent {
    Started { slot: usize, plan_index: usize },
    Finished { slot: usize, outcome: PlacementOutcome },
}

/// How many workers a batch gets: as many as were asked for, but at least one and
/// at most one for each job.
pub fn worker_count(requested: usize, jobs: usize) -> (r: usize)
    ensures
        jobs == 0 ==> r == 0,
        jobs > 0 ==> r == (if requested < 1 {
            1
        } else if requested > jobs {
            jobs
        } else {
            requested
        }),
{
    if jobs == 0 {
        0
    } else if requested < 1 {
        1
    } else if requested > jobs {
        jobs
    } else {
        requested
    }
}

/// What is done with a file.
#[derive(Clone, Copy, Debug, PartialEq, Eq, Structural)]
pub enum Transfer {
    /// Written to its destination; the source stays
    Copy { into_archive: bool },
    /// Written to its destination; a loose source goes
    Move { from_archive: bool, into_archive: bool },
    /// Moved whole and unchanged
    Relocate,
    /// Moved back to where it was
    Restore,
    /// Moved into the quarantine store
    Quarantine,
}

/// Why a transfer failed.
#[derive(Clone, Copy, Debug, PartialEq, Eq, Structural)]
pub enum TransferFault {
    /// The destination is not one that output may go to
    UnsafeDest,
    /// There is a file at the quarantine target already
    TargetExists,
    SourceMissing,
    /// The source is not what it should be
    SourceMismatch,
    /// What was written is not what it should be
    DestMismatch,
    /// A file-system operation failed
    Io,
}

/// The step that a transfer is at, that is, what is to be done next.
#[derive(Clone, Copy, Debug, PartialEq, Eq, Structural)]
pub enum Stage {
    /// Is there a file at the destination?
    CheckTarget,
    /// Is there a file at the source?
    CheckSource,
    /// Has the source the expected digest?
    VerifySource,
    /// Create the directory of the destination
    PrepareDest,
    /// Rename the source to the destination
    Rename,
    /// Write the content to the destination
    Write,
    /// Has what was written the expected digest?
    VerifyDest,
    /// Remove what was written
    DropDest,
    /// Flush the destination to disk
    FlushDest,
    /// Is the source still there?
    CheckLeftover,
    /// Remove the source
    RemoveSource,
    Done,
    Failed(TransferFault),
}

/// What came of a step: done, or the answer yes; the answer no; or an error.
#[derive(Clone, Copy, Debug, PartialEq, Eq, Structural)]
pub enum StepResult {
    Yes,
    No,
    Error,
}

/// The first step of a transfer.
pub open spec fn first_stage(t: Transfer, dest: Seq<char>) -> Stage {
    if !(t is Quarantine) && fs_ops::unsafe_output(dest) {
        Stage::Failed(TransferFault::UnsafeDest)
    } else {
        match t {
            Transfer::Relocate => Stage::CheckSource,
            Transfer::Restore => Stage::CheckSource,
            _ => Stage::PrepareDest,
        }
    }
}

/// The step that follows.
pub open spec fn next_stage(t: Transfer, s: Stage, r: StepResult) -> Stage {
    let io = Stage::Failed(TransferFault::Io);
    match s {
        Stage::PrepareDest => if r is Yes {
            match t {
                Transfer::Copy { .. } => Stage::Write,
                Transfer::Move { from_archive, into_archive } => if from_archive || into_archive {
                    Stage::Write
                } else {
                    Stage::Rename
                },
                Transfer::Relocate => Stage::Rename,
                Transfer::Restore => Stage::Rename,
                Transfer::Quarantine => Stage::CheckTarget,
            }
        } else {
            io
        },
        Stage::CheckTarget => match r {
            StepResult::Yes => Stage::Failed(TransferFault::TargetExists),
            StepResult::No => Stage::CheckSource,
            StepResult::Error => io,
        },
        Stage::CheckSource => match r {
            StepResult::Yes => match t {
                Transfer::Quarantine => Stage::Rename,
                Transfer::Restore => Stage::VerifySource,
                _ => Stage::PrepareDest,
            },
            StepResult::No => Stage::Failed(TransferFault::SourceMissing),
            StepResult::Error => io,
        },
        Stage::VerifySource => match r {
            StepResult::Yes => Stage::PrepareDest,
            StepResult::No => Stage::Failed(TransferFault::SourceMismatch),
            StepResult::Error => io,
        },
        Stage::Rename => if r is Yes {
            Stage::Done
        } else {
            Stage::Write
        },
        Stage::Write => if r is Yes {
            if t is Quarantine {
                Stage::RemoveSource
            } else {
                Stage::VerifyDest
            }
        } else {
            io
        },
        Stage::VerifyDest => match r {
            StepResult::Yes => match t {
                Transfer::Copy { .. } => Stage::Done,
                Transfer::Move { from_archive, into_archive: _ } => if from_archive {
                    Stage::Done
                } else {
                    Stage::FlushDest
                },
                _ => Stage::FlushDest,
            },
            StepResult::No => Stage::DropDest,
            StepResult::Error => io,
        },
        Stage::DropDest => Stage::Failed(TransferFault::DestMismatch),
        Stage::FlushDest => if r is Yes {
            if t is Move {
                Stage::CheckLeftover
            } else {
                Stage::RemoveSource
            }
        } else {
            io
        },
        Stage::CheckLeftover => match r {
            StepResult::Yes => Stage::RemoveSource,
            StepResult::No => Stage::Done,
            StepResult::Error => io,
        },
        Stage::RemoveSource => if r is Yes {
            Stage::Done
        } else {
            io
        },
        Stage::Done => Stage::Done,
        Stage::Failed(fault) => Stage::Failed(fault),
    }
}

/// The step that a transfer is at after some results.
pub open spec fn stage_after(t: Transfer, dest: Seq<char>, results: Seq<StepResult>) -> Stage
    decreases results.len(),
{
    if results.len() == 0 {
        first_stage(t, dest)
    } else {
        next_stage(t, stage_after(t, dest, results.drop_last()), results.last())
    }
}

/// Whether a step was taken with a certain result along the way.
pub open spec fn went_through(
    t: Transfer,
    dest: Seq<char>,
    results: Seq<StepResult>,
    s: Stage,
    r: StepResult,
) -> bool {
    exists|i: int|
        0 <= i < results.len() && #[trigger] stage_after(t, dest, results.take(i)) == s
            && results[i] == r
}

proof fn lemma_went_through_stays(
    t: Transfer,
    dest: Seq<char>,
    results: Seq<StepResult>,
    s: Stage,
    r: StepResult,
)
    requires
        results.len() > 0,
    ensures
        went_through(t, dest, results.drop_last(), s, r) ==> went_through(t, dest, results, s, r),
        stage_after(t, dest, results.drop_last()) == s && results.last() == r ==> went_through(
            t,
            dest,
            results,
            s,
            r,
        ),
{
    let before = results.drop_last();
    if went_through(t, dest, before, s, r) {
        let i = choose|i: int|
            0 <= i < before.len() && #[trigger] stage_after(t, dest, before.take(i)) == s
                && before[i] == r;
        assert(results.take(i) =~= before.take(i));
        assert(stage_after(t, dest, results.take(i)) == s);
    }
    if stage_after(t, dest, before) == s && results.last() == r {
        assert(results.take(results.len() - 1) =~= before);
        assert(stage_after(t, dest, results.take(results.len() - 1)) == s);
    }
}

/// No source is lost: but for a quarantine, a source is removed only after the
/// copy that replaces it was verified and then flushed to disk.
pub proof fn law_source_is_removed_last(t: Transfer, dest: Seq<char>, results: Seq<StepResult>)
    requires
        !(t is Quarantine),
    ensures
        stage_after(t, dest, results) is RemoveSource ==> went_through(
            t,
            dest,
            results,
            Stage::VerifyDest,
            StepResult::Yes,
        ) && went_through(t, dest, results, Stage::FlushDest, StepResult::Yes),
{
    lemma_removal_is_earned(t, dest, results);
}

proof fn lemma_removal_is_earned(t: Transfer, dest: Seq<char>, results: Seq<StepResult>)
    requires
        !(t is Quarantine),
    ensures
        ({
            let s = stage_after(t, dest, results);
            &&& (s is FlushDest || s is CheckLeftover || s is RemoveSource) ==> went_through(
                t,
                dest,
                results,
                Stage::VerifyDest,
                StepResult::Yes,
            )
            &&& (s is CheckLeftover || s is RemoveSource) ==> went_through(
                t,
                dest,
                results,
                Stage::FlushDest,
                StepResult::Yes,
            )
        }),
    decreases results.len(),
{
    if results.len() > 0 {
        lemma_removal_is_earned(t, dest, results.drop_last());
        lemma_went_through_stays(t, dest, results, Stage::VerifyDest, StepResult::Yes);
        lemma_went_through_stays(t, dest, results, Stage::FlushDest, StepResult::Yes);
    }
}

/// Whether a transfer leaves its source in place.
pub open spec fn keeps_source(t: Transfer) -> bool {
    t is Copy || (t matches Transfer::Move { from_archive, .. } && from_archive)
}

/// A copy, and a move out of an archive, never touch their source: they neither
/// rename nor remove it.
pub proof fn law_kept_sources_are_not_touched(
    t: Transfer,
    dest: Seq<char>,
    results: Seq<StepResult>,
)
    requires
        keeps_source(t),
    ensures
        !(stage_after(t, dest, results) is Rename),
        !(stage_after(t, dest, results) is RemoveSource),
        !(stage_after(t, dest, results) is FlushDest),
        !(stage_after(t, dest, results) is CheckLeftover),
    decreases results.len(),
{
    if results.len() > 0 {
        law_kept_sources_are_not_touched(t, dest, results.drop_last());
    }
}

/// A transfer succeeds only with its content in place: renamed whole, or written
/// and verified.
pub proof fn law_success_means_content_in_place(
    t: Transfer,
    dest: Seq<char>,
    results: Seq<StepResult>,
)
    requires
        !(t is Quarantine),
    ensures
        stage_after(t, dest, results) is Done ==> went_through(
            t,
            dest,
            results,
            Stage::Rename,
            StepResult::Yes,
        ) || went_through(t, dest, results, Stage::VerifyDest, StepResult::Yes),
    decreases results.len(),
{
    if results.len() > 0 {
        law_success_means_content_in_place(t, dest, results.drop_last());
        lemma_removal_is_earned(t, dest, results.drop_last());
        lemma_went_through_stays(t, dest, results, Stage::VerifyDest, StepResult::Yes);
        lemma_went_through_stays(t, dest, results, Stage::Rename, StepResult::Yes);
    }
}

/// Where what was written is not what it should be, it is removed before the
/// transfer fails.
pub proof fn law_bad_output_is_dropped(t: Transfer, dest: Seq<char>, results: Seq<StepResult>)
    ensures
        stage_after(t, dest, results) == Stage::Failed(TransferFault::DestMismatch) ==> exists|
            i: int,
        |
            0 <= i < results.len() && #[trigger] stage_after(t, dest, results.take(i)) is DropDest,
    decreases results.len(),
{
    if results.len() > 0 {
        let before = results.drop_last();
        law_bad_output_is_dropped(t, dest, before);
        if stage_after(t, dest, results) == Stage::Failed(TransferFault::DestMismatch) {
            if stage_after(t, dest, before) is DropDest {
                assert(results.take(results.len() - 1) =~= before);
                assert(stage_after(t, dest, results.take(results.len() - 1)) is DropDest);
            } else {
                let i = choose|i: int|
                    0 <= i < before.len() && #[trigger] stage_after(
                        t,
                        dest,
                        before.take(i),
                    ) is DropDest;
                assert(results.take(i) =~= before.take(i));
                assert(stage_after(t, dest, results.take(i)) is DropDest);
            }
        }
    }
}

/// Whether a transfer writes a new archive.
pub open spec fn into_archive(t: Transfer) -> bool {
    match t {
        Transfer::Copy { into_archive } => into_archive,
        Transfer::Move { from_archive: _, into_archive } => into_archive,
        _ => false,
    }
}

/// Whether bytes are what a placement makes of some content: the content itself, or
/// a ZIP archive that holds nothing else.
pub open spec fn lands_as(bytes: Seq<u8>, content: Seq<u8>, placement: PlacementView) -> bool {
    match placement {
        PlacementView::LooseFile => bytes == content,
        PlacementView::ZipEntry { entry_name } => archive_ops::zipped(
            bytes,
            sole_entry(content, entry_name),
            ZipStyle::Plain,
        ),
    }
}

/// The entries of the archive that a placement makes of some content.
pub open spec fn sole_entry(content: Seq<u8>, entry_name: Seq<char>) -> Seq<EntryView> {
    seq![EntryView { name: entry_name, data: content }]
}

/// What a placement puts at its destination for some content. A loose file always
/// succeeds, an archive where its one entry can be added and it can be finished.
pub fn placed_bytes(content: Vec<u8>, placement: &CopyPlacement) -> (r: Result<
    Vec<u8>,
    WriteFault,
>)
    ensures
        match placement.deep_view() {
            PlacementView::LooseFile => r is Ok,
            PlacementView::ZipEntry { entry_name } => r is Ok <==> archive::writable(
                sole_entry(content@, entry_name),
                ZipStyle::Plain,
            ),
        },
        match r {
            Ok(bytes) => lands_as(bytes@, content@, placement.deep_view()),
            Err(fault) => placement.deep_view() matches PlacementView::ZipEntry { entry_name }
                && archive::refuses(sole_entry(content@, entry_name), ZipStyle::Plain, fault),
        },
{
    match placement {
        CopyPlacement::LooseFile => Ok(content),
        CopyPlacement::ZipEntry { entry_name } => {
            let ghost data = content@;
            let entries = vec![NewEntry { name: entry_name.clone(), data: content }];
            proof {
                assert(entries.deep_view() =~= sole_entry(data, entry_name@));
            }
            write_zip(&entries, ZipStyle::Plain)
        },
    }
}

/// Content that is placed into an archive of its own, of up to 4 GiB, can be had
/// back: extracting the entry gives the content.
pub proof fn law_packed_content_is_extractable(
    bytes: Seq<u8>,
    content: Seq<u8>,
    entry_name: Seq<char>,
)
    requires
        lands_as(bytes, content, PlacementView::ZipEntry { entry_name }),
        bytes.len() <= u32::MAX,
    ensures
        archive::zip_entry(bytes, entry_name) == Ok::<Seq<u8>, ReadFault>(content),
{
    let entries = sole_entry(content, entry_name);
    archive::law_zip_gives_back_what_it_holds(
        bytes,
        entries,
        archive::stamp_for(ZipStyle::Plain),
        0,
    );
}

/// What is at the two ends of a transfer.
pub struct Ends {
    pub source: Option<Seq<u8>>,
    pub dest: Option<Seq<u8>>,
}

/// What a transfer is about.
pub struct Errand {
    pub transfer: Transfer,
    pub placement: PlacementView,
    pub source: Seq<char>,
    pub dest: Seq<char>,
    /// The expected SHA-1
    pub sha1: Seq<char>,
}

/// Whether what was written is right. A relocated file has the digest of its
/// source; what an archive was made of has the expected digest, and so has any
/// other file. Nothing is asked of a quarantined copy.
pub open spec fn right(e: Errand, content: Seq<u8>, written: Seq<u8>) -> bool {
    if e.transfer is Relocate {
        digest::sha1_of(written) == digest::sha1_of(content)
    } else if into_archive(e.transfer) {
        exists|packed: Seq<u8>|
            lands_as(written, packed, e.placement) && text::same_ignoring_case(
                #[trigger] digest::hex(digest::sha1_of(packed)),
                e.sha1,
            )
    } else {
        !(e.transfer is Quarantine) && fs_ops::written_ok(e.dest, written, e.sha1) == Ok::<
            bool,
            ChdFault,
        >(true)
    }
}

/// Whether the result of a step is true of what was and then is at the two ends.
/// A write may leave anything at the destination, but for a quarantine, whose copy
/// is taken on trust.
pub open spec fn truthful(e: Errand, s: Stage, r: StepResult, was: Ends, now: Ends) -> bool {
    match s {
        Stage::CheckTarget => now == was && (r is Yes ==> was.dest is Some) && (r is No
            ==> was.dest is None),
        Stage::CheckSource | Stage::CheckLeftover => now == was && (r is Yes ==> was.source is Some)
            && (r is No ==> was.source is None),
        Stage::VerifySource => now == was && (r is Yes ==> was.source is Some
            && fs_ops::written_ok(e.source, was.source->0, e.sha1) == Ok::<bool, ChdFault>(true)),
        Stage::Rename => if r is Yes {
            was.source is Some && now == (Ends { source: None, dest: was.source })
        } else {
            now == was
        },
        Stage::Write => now.source == was.source && (r is Yes ==> now.dest is Some && (
        e.transfer is Quarantine ==> now.dest == was.source)),
        Stage::VerifyDest => now == was && (r is Yes ==> was.source is Some && was.dest is Some
            && right(e, was.source->0, was.dest->0)),
        Stage::DropDest => now.source == was.source && (r is Yes ==> now.dest is None),
        Stage::RemoveSource => if r is Yes {
            now == (Ends { source: None, dest: was.dest })
        } else {
            now == was
        },
        _ => now == was,
    }
}

/// Whether every result of a transfer so far is true of what was at its ends before
/// and after the step.
pub open spec fn truthful_run(e: Errand, results: Seq<StepResult>, ends: Seq<Ends>) -> bool {
    ends.len() == results.len() + 1 && forall|i: int|
        0 <= i < results.len() ==> truthful(
            e,
            stage_after(e.transfer, e.dest, results.take(i)),
            results[i],
            #[trigger] ends[i],
            ends[i + 1],
        )
}

/// Whether content is at the destination, as it was or verified.
pub open spec fn arrived(e: Errand, content: Seq<u8>, ends: Ends) -> bool {
    ends.dest is Some && (ends.dest->0 == content || right(e, content, ends.dest->0))
}

/// Nothing is lost. Until a transfer is done, and where it fails, its source is
/// there as it was. Once it is done, the content is at the destination, as it was
/// or verified, and the source is gone where it was to be moved.
pub proof fn law_content_is_never_lost(
    e: Errand,
    content: Seq<u8>,
    results: Seq<StepResult>,
    ends: Seq<Ends>,
)
    requires
        truthful_run(e, results, ends),
        ends[0].source == Some(content),
    ensures
        stage_after(e.transfer, e.dest, results) is Done ==> arrived(e, content, ends.last()),
        ends.last().source == (if stage_after(e.transfer, e.dest, results) is Done && !keeps_source(
            e.transfer,
        ) {
            None
        } else {
            Some(content)
        }),
{
    lemma_content_is_kept(e, content, results, ends);
}

proof fn lemma_content_is_kept(
    e: Errand,
    content: Seq<u8>,
    results: Seq<StepResult>,
    ends: Seq<Ends>,
)
    requires
        truthful_run(e, results, ends),
        ends[0].source == Some(content),
    ensures
        ({
            let s = stage_after(e.transfer, e.dest, results);
            &&& ends.last().source == (if s is Done && !keeps_source(e.transfer) {
                None
            } else {
                Some(content)
            })
            &&& (s is Done || s is FlushDest || s is CheckLeftover || s is RemoveSource)
                ==> arrived(e, content, ends.last())
        }),
    decreases results.len(),
{
    if results.len() > 0 {
        let n = results.len() - 1;
        let before = results.drop_last();
        let so_far = ends.drop_last();
        assert forall|i: int| 0 <= i < before.len() implies truthful(
            e,
            stage_after(e.transfer, e.dest, before.take(i)),
            before[i],
            #[trigger] so_far[i],
            so_far[i + 1],
        ) by {
            assert(before.take(i) =~= results.take(i));
            assert(ends[i] == so_far[i]);
        }
        lemma_content_is_kept(e, content, before, so_far);
        assert(results.take(n) =~= before);
        assert(truthful(
            e,
            stage_after(e.transfer, e.dest, before),
            results[n],
            ends[n],
            ends[n + 1],
        ));
        if keeps_source(e.transfer) {
            law_kept_sources_are_not_touched(e.transfer, e.dest, before);
        }
    }
}

/// Whether a transfer is over.
pub open spec fn over(s: Stage) -> bool {
    s is Done || s is Failed
}

/// How many steps a transfer can still take.
pub open spec fn steps_left(t: Transfer, s: Stage) -> nat {
    match s {
        Stage::CheckTarget => 8,
        Stage::CheckSource => if t is Quarantine {
            7
        } else {
            9
        },
        Stage::VerifySource => 8,
        Stage::PrepareDest => if t is Quarantine {
            9
        } else {
            7
        },
        Stage::Rename => 6,
        Stage::Write => 5,
        Stage::VerifyDest => 4,
        Stage::FlushDest => 3,
        Stage::CheckLeftover => 2,
        Stage::DropDest => 1,
        Stage::RemoveSource => 1,
        _ => 0,
    }
}

/// Every transfer ends, after nine steps at most.
pub proof fn law_transfers_end(t: Transfer, dest: Seq<char>, results: Seq<StepResult>)
    ensures
        steps_left(t, stage_after(t, dest, results)) + results.len() <= 9 || over(
            stage_after(t, dest, results),
        ),
        results.len() >= 9 ==> over(stage_after(t, dest, results)),
    decreases results.len(),
{
    if results.len() > 0 {
        law_transfers_end(t, dest, results.drop_last());
    }
}

/// The transfer of a placement.
pub open spec fn transfer_for(k: PlacementKindView) -> Transfer {
    match k {
        PlacementKindView::Copy { source: _, dest: _, placement } => Transfer::Copy {
            into_archive: placement is ZipEntry,
        },
        PlacementKindView::Move { source, dest: _, placement } => Transfer::Move {
            from_archive: source.archive_path is Some,
            into_archive: placement is ZipEntry,
        },
        PlacementKindView::Relocate { .. } => Transfer::Relocate,
    }
}

fn fills_archive(placement: &CopyPlacement) -> (r: bool)
    ensures
        r == placement.deep_view() is ZipEntry,
{
    match placement {
        CopyPlacement::LooseFile => false,
        CopyPlacement::ZipEntry { .. } => true,
    }
}

/// A copy is carried out as a copy, a move as a move and a relocation as a
/// relocation; a move is out of an archive exactly where its source is an entry of
/// one, and content is packed exactly where the placement says so.
pub proof fn law_placements_are_carried_out_as_planned(k: PlacementKindView)
    ensures
        k is Copy <==> transfer_for(k) is Copy,
        k is Move <==> transfer_for(k) is Move,
        k is Relocate <==> transfer_for(k) is Relocate,
        k matches PlacementKindView::Copy { placement, .. } ==> (into_archive(transfer_for(k))
            <==> placement is ZipEntry) && keeps_source(transfer_for(k)),
        k matches PlacementKindView::Move { source, placement, .. } ==> (into_archive(
            transfer_for(k),
        ) <==> placement is ZipEntry) && (keeps_source(transfer_for(k))
            <==> source.archive_path is Some),
        k is Relocate ==> !keeps_source(transfer_for(k)),
{
}

/// Nothing is written to a destination that output may not go to: but for a
/// quarantine, such a transfer fails before its first step, and for that reason.
pub proof fn law_unsafe_destinations_are_never_written(
    t: Transfer,
    dest: Seq<char>,
    results: Seq<StepResult>,
)
    requires
        !(t is Quarantine),
        crate::paths::has_dotdot(dest) || (dest.len() > 1 && dest[0] == '.' && dest[1] == '/'),
    ensures
        stage_after(t, dest, results) == Stage::Failed(TransferFault::UnsafeDest),
    decreases results.len(),
{
    crate::paths::law_climbing_is_by_components(dest);
    if results.len() > 0 {
        law_unsafe_destinations_are_never_written(t, dest, results.drop_last());
    }
}

/// A transfer fails for a cause only: where each question gets the answer that it
/// hopes for (no file at a quarantine target, yes to all else), no step leads to a
/// failure, and none to dropping what was written.
pub proof fn law_transfer_goes_well_where_all_goes_well(t: Transfer, dest: Seq<char>, s: Stage)
    requires
        !(s is Failed),
        !(s is DropDest),
    ensures
        ({
            let next = next_stage(
                t,
                s,
                if s is CheckTarget {
                    StepResult::No
                } else {
                    StepResult::Yes
                },
            );
            !(next is Failed) && !(next is DropDest)
        }),
        first_stage(t, dest) is Failed ==> !(t is Quarantine) && fs_ops::unsafe_output(dest),
{
}

/// A file that is to be moved is not left behind: a move of a file, a relocation, a
/// restore or a quarantine is done only once the source was renamed, removed, or found
/// to be gone after it was copied.
pub proof fn law_moved_files_do_not_stay(t: Transfer, dest: Seq<char>, results: Seq<StepResult>)
    requires
        !keeps_source(t),
    ensures
        stage_after(t, dest, results) is Done ==> went_through(
            t,
            dest,
            results,
            Stage::Rename,
            StepResult::Yes,
        ) || went_through(t, dest, results, Stage::RemoveSource, StepResult::Yes) || went_through(
            t,
            dest,
            results,
            Stage::CheckLeftover,
            StepResult::No,
        ),
    decreases results.len(),
{
    if results.len() > 0 {
        law_moved_files_do_not_stay(t, dest, results.drop_last());
        lemma_went_through_stays(t, dest, results, Stage::Rename, StepResult::Yes);
        lemma_went_through_stays(t, dest, results, Stage::RemoveSource, StepResult::Yes);
        lemma_went_through_stays(t, dest, results, Stage::CheckLeftover, StepResult::No);
    }
}

/// A quarantined file overwrites none: it is renamed or written only after the target
/// was found to be free. A restored file was found to be the right one first.
pub proof fn law_quarantine_and_restore_look_first(
    t: Transfer,
    dest: Seq<char>,
    results: Seq<StepResult>,
)
    ensures
        ({
            let s = stage_after(t, dest, results);
            let acts = s is Rename || s is Write || s is VerifyDest || s is FlushDest
                || s is RemoveSource || s is CheckLeftover || s is DropDest || s is Done;
            &&& t is Quarantine && acts ==> went_through(
                t,
                dest,
                results,
                Stage::CheckTarget,
                StepResult::No,
            )
            &&& t is Restore && acts ==> went_through(
                t,
                dest,
                results,
                Stage::VerifySource,
                StepResult::Yes,
            )
            &&& (t is Quarantine || t is Restore || t is Relocate) && acts ==> went_through(
                t,
                dest,
                results,
                Stage::CheckSource,
                StepResult::Yes,
            )
        }),
    decreases results.len(),
{
    lemma_looked(t, dest, results);
}

proof fn lemma_looked(t: Transfer, dest: Seq<char>, results: Seq<StepResult>)
    ensures
        ({
            let s = stage_after(t, dest, results);
            let acts = s is Rename || s is Write || s is VerifyDest || s is FlushDest
                || s is RemoveSource || s is CheckLeftover || s is DropDest || s is Done;
            &&& t is Quarantine && (acts || s is CheckSource) ==> went_through(
                t,
                dest,
                results,
                Stage::CheckTarget,
                StepResult::No,
            )
            &&& t is Restore && (acts || s is PrepareDest) ==> went_through(
                t,
                dest,
                results,
                Stage::VerifySource,
                StepResult::Yes,
            )
            &&& (t is Quarantine || t is Restore || t is Relocate) && (acts || s is VerifySource || (
            s is PrepareDest && !(t is Quarantine))) ==> went_through(
                t,
                dest,
                results,
                Stage::CheckSource,
                StepResult::Yes,
            )
            &&& t is Quarantine ==> !(s is VerifySource)
            &&& (t is Restore || t is Relocate) ==> !(s is CheckTarget)
            &&& t is Relocate ==> !(s is VerifySource)
        }),
    decreases results.len(),
{
    if results.len() > 0 {
        lemma_looked(t, dest, results.drop_last());
        lemma_went_through_stays(t, dest, results, Stage::CheckTarget, StepResult::No);
        lemma_went_through_stays(t, dest, results, Stage::VerifySource, StepResult::Yes);
        lemma_went_through_stays(t, dest, results, Stage::CheckSource, StepResult::Yes);
    }
}

/// The transfer of a placement.
pub fn transfer_of(kind: &PlacementKind) -> (r: Transfer)
    ensures
        r == transfer_for(kind.deep_view()),
{
    match kind {
        PlacementKind::Copy { source: _, dest: _, placement } => Transfer::Copy {
            into_archive: fills_archive(placement),
        },
        PlacementKind::Move { source, dest: _, placement } => Transfer::Move {
            from_archive: source.archive_path.is_some(),
            into_archive: fills_archive(placement),
        },
        PlacementKind::Relocate { .. } => Transfer::Relocate,
    }
}

/// Starts a transfer.
pub fn start(t: Transfer, dest: &str) -> (r: Stage)
    ensures
        r == first_stage(t, dest@),
{
    match t {
        Transfer::Quarantine => Stage::PrepareDest,
        _ => match validate_output_path(dest) {
            Err(_) => Stage::Failed(TransferFault::UnsafeDest),
            Ok(_) => match t {
                Transfer::Relocate => Stage::CheckSource,
                Transfer::Restore => Stage::CheckSource,
                _ => Stage::PrepareDest,
            },
        },
    }
}

/// Goes on with a transfer after a step.
pub fn advance(t: Transfer, stage: Stage, result: StepResult) -> (r: Stage)
    ensures
        r == next_stage(t, stage, result),
{
    let yes = result == StepResult::Yes;
    let no = result == StepResult::No;
    let io = Stage::Failed(TransferFault::Io);
    match stage {
        Stage::PrepareDest => if !yes {
            io
        } else {
            match t {
                Transfer::Copy { .. } => Stage::Write,
                Transfer::Move { from_archive, into_archive } => if from_archive || into_archive {
                    Stage::Write
                } else {
                    Stage::Rename
                },
                Transfer::Relocate => Stage::Rename,
                Transfer::Restore => Stage::Rename,
                Transfer::Quarantine => Stage::CheckTarget,
            }
        },
        Stage::CheckTarget => if yes {
            Stage::Failed(TransferFault::TargetExists)
        } else if no {
            Stage::CheckSource
        } else {
            io
        },
        Stage::CheckSource => if yes {
            match t {
                Transfer::Quarantine => Stage::Rename,
                Transfer::Restore => Stage::VerifySource,
                _ => Stage::PrepareDest,
            }
        } else if no {
            Stage::Failed(TransferFault::SourceMissing)
        } else {
            io
        },
        Stage::VerifySource => if yes {
            Stage::PrepareDest
        } else if no {
            Stage::Failed(TransferFault::SourceMismatch)
        } else {
            io
        },
        Stage::Rename => if yes {
            Stage::Done
        } else {
            Stage::Write
        },
        Stage::Write => if !yes {
            io
        } else {
            match t {
                Transfer::Quarantine => Stage::RemoveSource,
                _ => Stage::VerifyDest,
            }
        },
        Stage::VerifyDest => if yes {
            match t {
                Transfer::Copy { .. } => Stage::Done,
                Transfer::Move { from_archive, into_archive: _ } => if from_archive {
                    Stage::Done
                } else {
                    Stage::FlushDest
                },
                _ => Stage::FlushDest,
            }
        } else if no {
            Stage::DropDest
        } else {
            io
        },
        Stage::DropDest => Stage::Failed(TransferFault::DestMismatch),
        Stage::FlushDest => if !yes {
            io
        } else {
            match t {
                Transfer::Move { .. } => Stage::CheckLeftover,
                _ => Stage::RemoveSource,
            }
        },
        Stage::CheckLeftover => if yes {
            Stage::RemoveSource
        } else if no {
            Stage::Done
        } else {
            io
        },
        Stage::RemoveSource => if yes {
            Stage::Done
        } else {
            io
        },
        Stage::Done => Stage::Done,
        Stage::Failed(fault) => Stage::Failed(fault),
    }
}

/// The words for a failed transfer, from the digests that were expected and found
/// and from what the file system said.
pub open spec fn transfer_message(
    t: Transfer,
    fault: TransferFault,
    source: Seq<char>,
    dest: Seq<char>,
    expected: Seq<char>,
    actual: Seq<char>,
    cause: Seq<char>,
) -> Seq<char> {
    match fault {
        TransferFault::UnsafeDest => "output path contains an unsafe component: "@ + dest,
        TransferFault::TargetExists =>
            "Quarantine target already exists, refusing to overwrite: "@ + dest,
        TransferFault::SourceMissing => if t is Quarantine {
            "File not found: "@ + source
        } else {
            "Source file not found: "@ + source
        },
        TransferFault::SourceMismatch => "Source file hash mismatch - cannot safely rollback"@,
        TransferFault::DestMismatch => match t {
            Transfer::Relocate => "Relocate copy is not byte-faithful to source: "@ + source,
            Transfer::Restore => "Rollback copy verification failed for "@ + dest,
            _ => if into_archive(t) {
                "Verification failed: source hash "@ + actual + (
                " does not match expected SHA1 "@ + expected)
            } else {
                "Verification failed: written file hash does not match expected SHA1 "@ + expected
            },
        },
        TransferFault::Io => cause,
    }
}

/// A failed transfer is told with the path that it failed for, and where the file
/// system gave a reason, in its words.
pub proof fn law_failed_transfers_name_their_path(
    t: Transfer,
    source: Seq<char>,
    dest: Seq<char>,
    expected: Seq<char>,
    actual: Seq<char>,
    cause: Seq<char>,
)
    ensures
        transfer_message(t, TransferFault::Io, source, dest, expected, actual, cause) == cause,
        text::finishes(
            transfer_message(t, TransferFault::UnsafeDest, source, dest, expected, actual, cause),
            dest,
        ),
        text::finishes(
            transfer_message(t, TransferFault::TargetExists, source, dest, expected, actual, cause),
            dest,
        ),
        text::finishes(
            transfer_message(
                t,
                TransferFault::SourceMissing,
                source,
                dest,
                expected,
                actual,
                cause,
            ),
            source,
        ),
        t is Relocate ==> text::finishes(
            transfer_message(t, TransferFault::DestMismatch, source, dest, expected, actual, cause),
            source,
        ),
        t is Restore ==> text::finishes(
            transfer_message(t, TransferFault::DestMismatch, source, dest, expected, actual, cause),
            dest,
        ),
        !(t is Relocate) && !(t is Restore) ==> text::finishes(
            transfer_message(t, TransferFault::DestMismatch, source, dest, expected, actual, cause),
            expected,
        ),
{
    let a = transfer_message(t, TransferFault::UnsafeDest, source, dest, expected, actual, cause);
    let b = transfer_message(t, TransferFault::TargetExists, source, dest, expected, actual, cause);
    let c = transfer_message(
        t,
        TransferFault::SourceMissing,
        source,
        dest,
        expected,
        actual,
        cause,
    );
    let d = transfer_message(t, TransferFault::DestMismatch, source, dest, expected, actual, cause);
    assert(a.skip(a.len() - dest.len()) =~= dest);
    assert(b.skip(b.len() - dest.len()) =~= dest);
    assert(c.skip(c.len() - source.len()) =~= source);
    if t is Relocate {
        assert(d.skip(d.len() - source.len()) =~= source);
    } else if t is Restore {
        assert(d.skip(d.len() - dest.len()) =~= dest);
    } else {
        assert(d.skip(d.len() - expected.len()) =~= expected);
    }
}

/// The words for a failed transfer.
pub fn failure_text(
    t: Transfer,
    fault: TransferFault,
    source: &str,
    dest: &str,
    expected: &str,
    actual: &str,
    cause: &str,
) -> (r: String)
    ensures
        r@ == transfer_message(t, fault, source@, dest@, expected@, actual@, cause@),
{
    let archived = match t {
        Transfer::Copy { into_archive } => into_archive,
        Transfer::Move { from_archive: _, into_archive } => into_archive,
        _ => false,
    };
    match fault {
        TransferFault::UnsafeDest => text::concat2(
            "output path contains an unsafe component: ",
            dest,
        ),
        TransferFault::TargetExists => text::concat2(
            "Quarantine target already exists, refusing to overwrite: ",
            dest,
        ),
        TransferFault::SourceMissing => match t {
            Transfer::Quarantine => text::concat2("File not found: ", source),
            _ => text::concat2("Source file not found: ", source),
        },
        TransferFault::SourceMismatch =>
            "Source file hash mismatch - cannot safely rollback".to_owned(),
        TransferFault::DestMismatch => match t {
            Transfer::Relocate => text::concat2(
                "Relocate copy is not byte-faithful to source: ",
                source,
            ),
            Transfer::Restore => text::concat2("Rollback copy verification failed for ", dest),
            _ => if archived {
                let tail = text::concat2(" does not match expected SHA1 ", expected);
                text::concat3("Verification failed: source hash ", actual, tail.as_str())
            } else {
                text::concat2(
                    "Verification failed: written file hash does not match expected SHA1 ",
                    expected,
                )
            },
        },
        TransferFault::Io => cause.to_owned(),
    }
}

} // verus!
