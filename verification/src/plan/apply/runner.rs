//! The run over a plan's operations. It says what is to be done next; what came
//! of it is handed back, and settles the plan, the journal, the tallies and what
//! is reported.

use super::types;
use super::types::{ApplyEvent, ApplyOptions, ApplyOutcome, EventView, OpView, ShownView};
use crate::plan::executor::archive_ops::{RepackEvent, RepackJob, RepackJobView, RepackOutcome};
use crate::plan::executor::placement_ops::{
    PlacementEvent, PlacementJob, PlacementJobView, PlacementKind, PlacementKindView,
    PlacementOutcome,
};
use crate::plan::log;
use crate::plan::log::{LogView, LoggedView, OperationLog};
use crate::plan::types as plan_types;
use crate::plan::types::{
    clone_sources, KindView, Operation, OperationKind, OperationStatus, OperationView, Plan,
    PlanView, SourceRef, SourceRefView,
};
use crate::clock;
use crate::db::quarantine;
use crate::db::quarantine::QuarantineReason;
use crate::text;
use vstd::prelude::*;

verus! {

/// What is done with an operation.
#[derive(Clone, Copy, Debug, PartialEq, Eq, Structural)]
pub enum Route {
    /// Left alone
    Skip,
    /// Run with other placements at a time
    Placement,
    /// Run with other repacks at a time
    Repack,
    /// Run on its own, after everything before it
    Serial,
}

/// What is done with an operation: nothing where it is completed or refused, or a
/// repack that is deferred; on its own where it is a delete or a quarantine, and
/// always on a dry run.
pub open spec fn route_of(op: OperationView, dry_run: bool, skip_repack: bool) -> Route {
    if !plan_types::remaining(op.status) {
        Route::Skip
    } else if skip_repack && op.kind is Repack {
        Route::Skip
    } else if dry_run {
        Route::Serial
    } else {
        match op.kind {
            KindView::Repack { .. } => Route::Repack,
            KindView::Copy { .. } => Route::Placement,
            KindView::Move { .. } => Route::Placement,
            KindView::Relocate { .. } => Route::Placement,
            KindView::Delete { .. } => Route::Serial,
            KindView::Quarantine { .. } => Route::Serial,
        }
    }
}

/// What is done with an operation.
pub fn route(op: &Operation, opts: &ApplyOptions) -> (r: Route)
    ensures
        r == route_of(op.deep_view(), opts.dry_run, opts.skip_repack),
{
    if !op.status.is_remaining_work() {
        return Route::Skip;
    }
    let natural = match &op.kind {
        OperationKind::Repack { .. } => Route::Repack,
        OperationKind::Copy { .. } => Route::Placement,
        OperationKind::Move { .. } => Route::Placement,
        OperationKind::Relocate { .. } => Route::Placement,
        OperationKind::Delete { .. } => Route::Serial,
        OperationKind::Quarantine { .. } => Route::Serial,
    };
    if opts.skip_repack && natural == Route::Repack {
        Route::Skip
    } else if opts.dry_run {
        Route::Serial
    } else {
        natural
    }
}

/// The placement of an operation that is one.
pub open spec fn placed(k: KindView) -> PlacementKindView {
    match k {
        KindView::Copy { source, dest, placement, .. } => PlacementKindView::Copy {
            source,
            dest,
            placement,
        },
        KindView::Move { source, dest, placement, .. } => PlacementKindView::Move {
            source,
            dest,
            placement,
        },
        KindView::Relocate { source, dest, .. } => PlacementKindView::Relocate { source, dest },
        _ => PlacementKindView::Relocate { source: Seq::empty(), dest: Seq::empty() },
    }
}

/// The repack of an operation that is one.
pub open spec fn packed(index: int, op: OperationView) -> RepackJobView {
    match op.kind {
        KindView::Repack { sources, dest, format, move_sources, size } => RepackJobView {
            plan_index: index as usize,
            operation_id: op.id,
            sources,
            dest,
            format,
            move_sources,
            size,
        },
        _ => RepackJobView {
            plan_index: index as usize,
            operation_id: op.id,
            sources: Seq::empty(),
            dest: Seq::empty(),
            format: Seq::empty(),
            move_sources: false,
            size: 0,
        },
    }
}

/// The placements among the operations from one position to another.
pub open spec fn placements_between(
    ops: Seq<OperationView>,
    dry_run: bool,
    skip_repack: bool,
    a: int,
    b: int,
) -> Seq<PlacementJobView>
    decreases b - a,
{
    if b <= a {
        Seq::empty()
    } else {
        let before = placements_between(ops, dry_run, skip_repack, a, b - 1);
        let op = ops[b - 1];
        if route_of(op, dry_run, skip_repack) is Placement {
            before.push(
                PlacementJobView {
                    plan_index: (b - 1) as usize,
                    operation_id: op.id,
                    kind: placed(op.kind),
                },
            )
        } else {
            before
        }
    }
}

/// The repacks among the operations from one position to another.
pub open spec fn repacks_between(
    ops: Seq<OperationView>,
    dry_run: bool,
    skip_repack: bool,
    a: int,
    b: int,
) -> Seq<RepackJobView>
    decreases b - a,
{
    if b <= a {
        Seq::empty()
    } else {
        let before = repacks_between(ops, dry_run, skip_repack, a, b - 1);
        if route_of(ops[b - 1], dry_run, skip_repack) is Repack {
            before.push(packed(b - 1, ops[b - 1]))
        } else {
            before
        }
    }
}

/// What is to be done next.
#[derive(Clone, Copy, Debug, PartialEq, Eq, Structural)]
pub enum NextStep {
    /// Run the placements that were gathered, then the repacks
    Batches,
    /// Run the operation at a position on its own
    Serial(usize),
    /// Nothing is left
    Finish,
}

/// The state of a run.
pub struct ApplyRun {
    /// The first operation that was not looked at yet
    pub next: usize,
    pub placements: Vec<PlacementJob>,
    pub repacks: Vec<RepackJob>,
    /// The rollback journal; none for a dry run
    pub log: Option<OperationLog>,
    pub success_count: usize,
    pub error_count: usize,
    pub refused_count: usize,
}

#[verifier::ext_equal]
pub struct RunView {
    pub next: usize,
    pub placements: Seq<PlacementJobView>,
    pub repacks: Seq<RepackJobView>,
    pub log: Option<LogView>,
    pub success_count: usize,
    pub error_count: usize,
    pub refused_count: usize,
}

impl DeepView for ApplyRun {
    type V = RunView;

    open spec fn deep_view(&self) -> RunView {
        RunView {
            next: self.next,
            placements: self.placements.deep_view(),
            repacks: self.repacks.deep_view(),
            log: self.log.deep_view(),
            success_count: self.success_count,
            error_count: self.error_count,
            refused_count: self.refused_count,
        }
    }
}

/// What came of an operation.
#[verifier::ext_equal]
pub enum Verdict {
    Completed,
    /// It failed; why
    Failed(Seq<char>),
    /// It was refused; why
    Refused(Seq<char>),
}

/// The status that follows.
pub open spec fn status_after(v: Verdict) -> OperationStatus {
    match v {
        Verdict::Completed => OperationStatus::Completed,
        Verdict::Failed(_) => OperationStatus::Failed,
        Verdict::Refused(_) => OperationStatus::Refused,
    }
}

/// A run with what came of an operation tallied.
pub open spec fn tallied(r: RunView, v: Verdict) -> RunView {
    match v {
        Verdict::Completed => RunView { success_count: r.success_count.saturating_add(1), ..r },
        Verdict::Failed(_) => RunView { error_count: r.error_count.saturating_add(1), ..r },
        Verdict::Refused(_) => RunView { refused_count: r.refused_count.saturating_add(1), ..r },
    }
}

/// A plan with what came of an operation noted; nothing else of it changes.
pub open spec fn noted(p: PlanView, index: int, v: Verdict) -> PlanView {
    PlanView {
        operations: p.operations.update(
            index,
            OperationView { status: status_after(v), ..p.operations[index] },
        ),
        ..p
    }
}

/// The report that the catalogue could not follow, if so.
pub open spec fn warned(op_id: u64, warning: Option<Seq<char>>) -> Seq<EventView> {
    match warning {
        Some(message) => seq![EventView::CatalogueWarning { op_id, message }],
        None => Seq::empty(),
    }
}

/// What is reported of an operation that has finished. A failure is reported
/// before it; so is a catalogue that could not follow a success.
pub open spec fn finished(
    index: usize,
    slot: Option<usize>,
    op: ShownView,
    op_id: u64,
    v: Verdict,
    warning: Option<Seq<char>>,
) -> Seq<EventView> {
    let end = EventView::OpFinished {
        index,
        slot,
        op,
        status: status_after(v),
        detail: match v {
            Verdict::Completed => None,
            Verdict::Failed(message) => Some(message),
            Verdict::Refused(message) => Some(message),
        },
    };
    match v {
        Verdict::Completed => warned(op_id, warning).push(end),
        Verdict::Failed(message) => seq![EventView::OpFailed { index, message }, end],
        Verdict::Refused(_) => seq![end],
    }
}

/// The verdict on a result.
pub open spec fn judged<T>(result: Result<T, String>) -> Verdict {
    match result {
        Ok(_) => Verdict::Completed,
        Err(message) => Verdict::Failed(message@),
    }
}

/// What a journal records of a placement.
pub open spec fn forward_of(k: PlacementKindView) -> LoggedView {
    match k {
        PlacementKindView::Copy { source, dest, .. } => LoggedView::Copy {
            source: source.path,
            dest,
            sha1: source.sha1,
        },
        PlacementKindView::Move { source, dest, .. } => LoggedView::Move {
            source: source.path,
            dest,
            sha1: source.sha1,
        },
        PlacementKindView::Relocate { source, dest } => LoggedView::Relocate { source, dest },
    }
}

/// Whether a journal, where there is one, has one more entry; a dry run keeps
/// none.
pub open spec fn log_follows(
    before: Option<LogView>,
    after: Option<LogView>,
    operation_id: u64,
    forward: LoggedView,
    reverse: Option<LoggedView>,
    success: bool,
) -> bool {
    match (before, after) {
        (Some(b), Some(a)) => log::journalled(b, a, operation_id, forward, reverse, success),
        (None, None) => true,
        _ => false,
    }
}

/// What came of a delete.
#[derive(Debug)]
pub enum DeleteOutcome {
    Removed,
    /// The file was gone already
    AlreadyGone,
    /// The file could not be removed
    Failed(String),
    /// No copy of the content survives on disk; nothing was removed
    NoSurvivor,
    /// The check for a surviving copy failed; nothing was removed
    Unverified(String),
}

/// The verdict on a delete.
pub open spec fn judged_delete(o: DeleteOutcome) -> Verdict {
    match o {
        DeleteOutcome::Removed => Verdict::Completed,
        DeleteOutcome::AlreadyGone => Verdict::Completed,
        DeleteOutcome::Failed(message) => Verdict::Failed(message@),
        DeleteOutcome::NoSurvivor => Verdict::Refused("no surviving copy on disk"@),
        DeleteOutcome::Unverified(message) => Verdict::Refused(message@),
    }
}

/// What is reported of a delete before its end.
pub open spec fn delete_notices(index: usize, path: Seq<char>, o: DeleteOutcome) -> Seq<EventView> {
    match o {
        DeleteOutcome::AlreadyGone => seq![EventView::AlreadyGone { index }],
        DeleteOutcome::NoSurvivor => seq![EventView::DeleteRefused { index, path }],
        DeleteOutcome::Unverified(message) => seq![
            EventView::DeleteVerifyError { index, message: message@ },
        ],
        _ => Seq::empty(),
    }
}

/// Whether what came of an operation was noted on the plan and tallied, whatever
/// the journal then holds.
pub open spec fn settled_as(
    run: RunView,
    after: RunView,
    plan: PlanView,
    plan_after: PlanView,
    index: int,
    v: Verdict,
) -> bool {
    &&& plan_after == noted(plan, index, v)
    &&& after == (RunView { log: after.log, ..tallied(run, v) })
}

/// What settling a placement comes to; one that runs on its own has no slot.
pub open spec fn placement_settled(
    run: RunView,
    after: RunView,
    plan: PlanView,
    plan_after: PlanView,
    slot: Option<usize>,
    outcome: PlacementOutcome,
    warning: Option<Seq<char>>,
    events: Seq<EventView>,
) -> bool {
    let job = outcome.job.deep_view();
    let op = plan.operations[job.plan_index as int];
    let v = judged(outcome.result);
    &&& settled_as(run, after, plan, plan_after, job.plan_index as int, v)
    &&& log_follows(
        run.log,
        after.log,
        job.operation_id,
        forward_of(job.kind),
        log::undo(forward_of(job.kind)),
        outcome.result is Ok,
    )
    &&& events == finished(
        job.plan_index,
        slot,
        types::shown(op.kind),
        op.id,
        v,
        warning,
    )
}

/// What settling a repack comes to.
pub open spec fn repack_settled(
    run: RunView,
    after: RunView,
    plan: PlanView,
    plan_after: PlanView,
    slot: usize,
    outcome: RepackOutcome,
    warning: Option<Seq<char>>,
    events: Seq<EventView>,
) -> bool {
    let job = outcome.job.deep_view();
    let op = plan.operations[job.plan_index as int];
    let v = judged(outcome.result);
    let consumed = match outcome.result {
        Ok(list) => list.deep_view(),
        Err(_) => Seq::empty(),
    };
    &&& settled_as(run, after, plan, plan_after, job.plan_index as int, v)
    &&& log_follows(
        run.log,
        after.log,
        job.operation_id,
        LoggedView::Repack {
            sources: job.sources.map_values(|s: SourceRefView| s.path),
            dest: job.dest,
        },
        Some(log::undo_repack(job.dest, consumed)),
        outcome.result is Ok,
    )
    &&& events == finished(
        job.plan_index,
        Some(slot),
        types::shown_repack(job.sources.len() as usize, job.dest, job.size),
        op.id,
        v,
        warning,
    )
}

/// How many operations are routed one way from one position to another.
pub open spec fn routed(
    ops: Seq<OperationView>,
    dry_run: bool,
    skip_repack: bool,
    way: Route,
    a: int,
    b: int,
) -> nat
    decreases b - a,
{
    if b <= a {
        0
    } else {
        routed(ops, dry_run, skip_repack, way, a, b - 1) + (if route_of(
            ops[b - 1],
            dry_run,
            skip_repack,
        ) == way {
            1nat
        } else {
            0nat
        })
    }
}

/// Whether going on from one state of a run leads to another, with what is to be
/// done next: all up to there is gathered or left alone, and what runs on its own
/// only does so once nothing gathered is left.
pub open spec fn stepped(
    run: RunView,
    after: RunView,
    ops: Seq<OperationView>,
    dry_run: bool,
    skip_repack: bool,
    r: NextStep,
) -> bool {
    let a = run.next as int;
    let b = after.next as int;
    &&& a <= b <= ops.len()
    &&& after == (RunView {
        next: after.next,
        placements: run.placements + placements_between(ops, dry_run, skip_repack, a, b),
        repacks: run.repacks + repacks_between(ops, dry_run, skip_repack, a, b),
        ..run
    })
    &&& match r {
        NextStep::Serial(index) => {
            &&& index == b - 1 && a < b
            &&& route_of(ops[index as int], dry_run, skip_repack) is Serial
            &&& after.placements.len() == 0
            &&& after.repacks.len() == 0
            &&& routed(ops, dry_run, skip_repack, Route::Serial, a, b - 1) == 0
        },
        NextStep::Batches => {
            &&& after.placements.len() > 0 || after.repacks.len() > 0
            &&& b < ops.len() ==> route_of(ops[b], dry_run, skip_repack) is Serial
            &&& routed(ops, dry_run, skip_repack, Route::Serial, a, b) == 0
        },
        NextStep::Finish => {
            &&& b == ops.len()
            &&& after.placements.len() == 0
            &&& after.repacks.len() == 0
            &&& routed(ops, dry_run, skip_repack, Route::Serial, a, b) == 0
        },
    }
}

/// A run whose gathered work was taken.
pub open spec fn emptied(run: RunView) -> RunView {
    RunView { placements: Seq::empty(), repacks: Seq::empty(), ..run }
}

// ---------------------------------------------------------------------------
// Laws
// ---------------------------------------------------------------------------

/// How often the end of an operation is reported.
pub open spec fn ends_reported(events: Seq<EventView>) -> nat
    decreases events.len(),
{
    if events.len() == 0 {
        0
    } else {
        ends_reported(events.drop_last()) + (if events.last() is OpFinished {
            1nat
        } else {
            0nat
        })
    }
}

/// The end of every operation is reported exactly once, and last.
pub proof fn law_end_is_reported_once(
    index: usize,
    slot: Option<usize>,
    op: ShownView,
    op_id: u64,
    v: Verdict,
    warning: Option<Seq<char>>,
    path: Seq<char>,
    o: DeleteOutcome,
)
    ensures
        ends_reported(finished(index, slot, op, op_id, v, warning)) == 1,
        finished(index, slot, op, op_id, v, warning).last() is OpFinished,
        ends_reported(
            delete_notices(index, path, o) + finished(
                index,
                slot,
                op,
                op_id,
                judged_delete(o),
                warning,
            ),
        ) == 1,
{
    reveal_with_fuel(ends_reported, 5);
    lemma_one_end(index, slot, op, op_id, v, warning);
    let u = judged_delete(o);
    lemma_one_end(index, slot, op, op_id, u, warning);
    let notices = delete_notices(index, path, o);
    let tail = finished(index, slot, op, op_id, u, warning);
    lemma_ends_add(notices, tail);
    assert(ends_reported(notices) == 0) by {
        if notices.len() == 1 {
            assert(notices.drop_last() =~= Seq::<EventView>::empty());
        }
    }
}

proof fn lemma_one_end(
    index: usize,
    slot: Option<usize>,
    op: ShownView,
    op_id: u64,
    v: Verdict,
    warning: Option<Seq<char>>,
)
    ensures
        ends_reported(finished(index, slot, op, op_id, v, warning)) == 1,
{
    reveal_with_fuel(ends_reported, 4);
    let events = finished(index, slot, op, op_id, v, warning);
    match v {
        Verdict::Completed => {
            let w = warned(op_id, warning);
            assert(events.drop_last() =~= w);
            if w.len() == 1 {
                assert(w.drop_last() =~= Seq::<EventView>::empty());
            }
        },
        Verdict::Failed(message) => {
            let first = seq![EventView::OpFailed { index, message }];
            assert(events.drop_last() =~= first);
            assert(first.drop_last() =~= Seq::<EventView>::empty());
        },
        Verdict::Refused(_) => {
            assert(events.drop_last() =~= Seq::<EventView>::empty());
        },
    }
}

proof fn lemma_ends_add(a: Seq<EventView>, b: Seq<EventView>)
    ensures
        ends_reported(a + b) == ends_reported(a) + ends_reported(b),
    decreases b.len(),
{
    if b.len() == 0 {
        assert(a + b =~= a);
    } else {
        assert((a + b).drop_last() =~= a + b.drop_last());
        lemma_ends_add(a, b.drop_last());
    }
}

/// Every settled operation counts once: as a success, a failure or a refusal.
pub proof fn law_each_settlement_counts_once(r: RunView, v: Verdict)
    requires
        r.success_count < usize::MAX,
        r.error_count < usize::MAX,
        r.refused_count < usize::MAX,
    ensures
        tallied(r, v).success_count + tallied(r, v).error_count + tallied(r, v).refused_count
            == r.success_count + r.error_count + r.refused_count + 1,
{
}

/// Settling an operation touches no other one.
pub proof fn law_settling_is_local(p: PlanView, index: int, v: Verdict, other: int)
    requires
        0 <= index < p.operations.len(),
        0 <= other < p.operations.len(),
        other != index,
    ensures
        noted(p, index, v).operations.len() == p.operations.len(),
        noted(p, index, v).operations[other] == p.operations[other],
        noted(p, index, v).operations[index].kind == p.operations[index].kind,
        noted(p, index, v).operations[index].id == p.operations[index].id,
{
}

/// What is completed or was refused is never done again; a failure is.
pub proof fn law_only_remaining_work_runs(op: OperationView, dry_run: bool, skip_repack: bool)
    ensures
        op.status is Completed || op.status is Refused ==> route_of(
            op,
            dry_run,
            skip_repack,
        ) is Skip,
        op.status is Failed && !skip_repack ==> !(route_of(op, dry_run, skip_repack) is Skip),
        op.status is Pending && !skip_repack ==> !(route_of(op, dry_run, skip_repack) is Skip),
{
}

/// A dry run gathers nothing for the workers.
pub proof fn law_dry_run_has_no_batches(
    ops: Seq<OperationView>,
    skip_repack: bool,
    a: int,
    b: int,
)
    ensures
        placements_between(ops, true, skip_repack, a, b).len() == 0,
        repacks_between(ops, true, skip_repack, a, b).len() == 0,
    decreases b - a,
{
    if b > a {
        law_dry_run_has_no_batches(ops, skip_repack, a, b - 1);
    }
}

/// A job always names its own operation: one within the range that was gathered,
/// with the operation's id, and each at most once.
pub proof fn law_jobs_name_their_operations(
    ops: Seq<OperationView>,
    dry_run: bool,
    skip_repack: bool,
    a: int,
    b: int,
)
    requires
        0 <= a <= b <= ops.len(),
        ops.len() <= usize::MAX,
    ensures
        ({
            let js = placements_between(ops, dry_run, skip_repack, a, b);
            &&& forall|i: int|
                0 <= i < js.len() ==> a <= (#[trigger] js[i]).plan_index < b && js[i].operation_id
                    == ops[js[i].plan_index as int].id && js[i].kind == placed(
                    ops[js[i].plan_index as int].kind,
                )
            &&& forall|i: int, j: int|
                0 <= i < j < js.len() ==> (#[trigger] js[i]).plan_index < (
                #[trigger] js[j]).plan_index
        }),
        ({
            let js = repacks_between(ops, dry_run, skip_repack, a, b);
            &&& forall|i: int|
                0 <= i < js.len() ==> a <= (#[trigger] js[i]).plan_index < b && js[i] == packed(
                    js[i].plan_index as int,
                    ops[js[i].plan_index as int],
                )
            &&& forall|i: int, j: int|
                0 <= i < j < js.len() ==> (#[trigger] js[i]).plan_index < (
                #[trigger] js[j]).plan_index
        }),
    decreases b - a,
{
    if b > a {
        law_jobs_name_their_operations(ops, dry_run, skip_repack, a, b - 1);
        let before = repacks_between(ops, dry_run, skip_repack, a, b - 1);
        let js = repacks_between(ops, dry_run, skip_repack, a, b);
        let new = packed(b - 1, ops[b - 1]);
        assert(new.plan_index == b - 1);
        assert forall|i: int| 0 <= i < js.len() implies a <= (#[trigger] js[i]).plan_index < b
            && js[i] == packed(js[i].plan_index as int, ops[js[i].plan_index as int]) by {
            if i < before.len() {
                assert(js[i] == before[i]);
            } else {
                assert(js[i] == new);
            }
        }
        assert forall|i: int, j: int| 0 <= i < j < js.len() implies (#[trigger] js[i]).plan_index < (
        #[trigger] js[j]).plan_index by {
            assert(js[i] == before[i]);
            if j < before.len() {
                assert(js[j] == before[j]);
            } else {
                assert(js[j] == new);
            }
        }
    }
}

/// On a real run a pending copy, move or relocation goes to the workers, and so does
/// a pending repack, unless repacks are deferred; a delete or quarantine runs on its
/// own. On a dry run all that is not left alone runs on its own.
pub proof fn law_kind_decides_the_route(op: OperationView, skip_repack: bool)
    requires
        op.status == OperationStatus::Pending || op.status == OperationStatus::Failed,
    ensures
        op.kind is Copy || op.kind is Move || op.kind is Relocate ==> route_of(
            op,
            false,
            skip_repack,
        ) == Route::Placement,
        op.kind is Repack && !skip_repack ==> route_of(op, false, skip_repack) == Route::Repack,
        op.kind is Repack && skip_repack ==> route_of(op, false, skip_repack) == Route::Skip
            && route_of(op, true, skip_repack) == Route::Skip,
        op.kind is Delete || op.kind is Quarantine ==> route_of(op, false, skip_repack)
            == Route::Serial,
        !(op.kind is Repack && skip_repack) ==> route_of(op, true, skip_repack) == Route::Serial,
{
}

/// A job carries out its operation: the same kind, from the same source to the same
/// destination, in the same form; a repack with all its sources, in its format, moving
/// them exactly where the operation does.
pub proof fn law_jobs_carry_out_their_operations(index: int, op: OperationView)
    requires
        0 <= index <= usize::MAX,
    ensures
        op.kind matches KindView::Copy { source, dest, placement, .. } ==> (placed(
            op.kind,
        ) matches PlacementKindView::Copy { source: s, dest: d, placement: p } && s == source && d
            == dest && p == placement),
        op.kind matches KindView::Move { source, dest, placement, .. } ==> (placed(
            op.kind,
        ) matches PlacementKindView::Move { source: s, dest: d, placement: p } && s == source && d
            == dest && p == placement),
        op.kind matches KindView::Relocate { source, dest, .. } ==> (placed(
            op.kind,
        ) matches PlacementKindView::Relocate { source: s, dest: d } && s == source && d == dest),
        op.kind matches KindView::Repack { sources, dest, format, move_sources, size } ==> {
            let job = packed(index, op);
            &&& job.plan_index == index
            &&& job.operation_id == op.id
            &&& job.sources == sources
            &&& job.dest == dest
            &&& job.format == format
            &&& job.move_sources == move_sources
            &&& job.size == size
        },
{
}

/// What the journal says of a placement is what was done: its undoing takes the file
/// from where it was put, and for a move puts it back to where it came from, with the
/// content that was stated.
pub proof fn law_journal_undoes_what_was_done(k: KindView)
    ensures
        k matches KindView::Copy { dest, .. } ==> log::undo(forward_of(placed(k))) == Some(
            LoggedView::Delete { path: dest },
        ),
        k matches KindView::Move { source, dest, .. } ==> log::undo(forward_of(placed(k))) == Some(
            LoggedView::Move { source: dest, dest: source.path, sha1: source.sha1 },
        ),
        k matches KindView::Relocate { source, dest, .. } ==> log::undo(forward_of(placed(k)))
            == Some(LoggedView::Relocate { source: dest, dest: source }),
{
}

/// What came of an operation decides its status and its tally: a success counts as
/// one and is completed, a failure as one that may be tried again, a refusal as one
/// that is not.
pub proof fn law_outcome_decides_status_and_tally(r: RunView, v: Verdict, o: DeleteOutcome)
    requires
        r.success_count < usize::MAX,
        r.error_count < usize::MAX,
        r.refused_count < usize::MAX,
    ensures
        v is Completed ==> status_after(v) == OperationStatus::Completed && tallied(r, v)
            == (RunView { success_count: (r.success_count + 1) as usize, ..r }),
        v is Failed ==> status_after(v) == OperationStatus::Failed && tallied(r, v) == (RunView {
            error_count: (r.error_count + 1) as usize,
            ..r
        }),
        v is Refused ==> status_after(v) == OperationStatus::Refused && tallied(r, v) == (RunView {
            refused_count: (r.refused_count + 1) as usize,
            ..r
        }),
        o is Removed || o is AlreadyGone <==> judged_delete(o) is Completed,
        o is Failed <==> judged_delete(o) is Failed,
        o is NoSurvivor || o is Unverified <==> judged_delete(o) is Refused,
{
}

/// No operation is lost: each is left alone, gathered for the workers or run on
/// its own.
pub proof fn law_every_operation_is_routed(
    ops: Seq<OperationView>,
    dry_run: bool,
    skip_repack: bool,
    a: int,
    b: int,
)
    requires
        a <= b,
    ensures
        routed(ops, dry_run, skip_repack, Route::Skip, a, b) + placements_between(
            ops,
            dry_run,
            skip_repack,
            a,
            b,
        ).len() + repacks_between(ops, dry_run, skip_repack, a, b).len() + routed(
            ops,
            dry_run,
            skip_repack,
            Route::Serial,
            a,
            b,
        ) == b - a,
    decreases b - a,
{
    if b > a {
        law_every_operation_is_routed(ops, dry_run, skip_repack, a, b - 1);
    }
}

// ---------------------------------------------------------------------------
// Code
// ---------------------------------------------------------------------------

/// The report that a batch of repacks starts, where more than one runs at a time.
pub fn batch_notice(count: usize, workers: usize) -> (r: Option<ApplyEvent>)
    ensures
        match r {
            Some(e) => count > 1 && workers > 1 && e.deep_view()
                == (EventView::RepackBatchStarted {
                count,
                in_flight: if workers < count {
                    workers
                } else {
                    count
                },
            }),
            None => count <= 1 || workers <= 1,
        },
{
    if count > 1 && workers > 1 {
        let in_flight: usize = if workers < count {
            workers
        } else {
            count
        };
        Some(ApplyEvent::RepackBatchStarted { count, in_flight })
    } else {
        None
    }
}

/// The report that an operation starts.
pub open spec fn start_of(plan: PlanView, index: usize, slot: Option<usize>) -> EventView {
    EventView::OpStarted {
        index,
        total: plan.operations.len() as usize,
        slot,
        op: types::shown(plan.operations[index as int].kind),
    }
}

fn started(plan: &Plan, index: usize, slot: usize) -> (r: Vec<ApplyEvent>)
    requires
        index < plan.operations@.len(),
    ensures
        r.deep_view() == seq![start_of(plan.deep_view(), index, Some(slot))],
{
    let mut r: Vec<ApplyEvent> = Vec::new();
    r.push(op_started(plan, index, Some(slot)));
    proof {
        assert(r.deep_view() =~= seq![start_of(plan.deep_view(), index, Some(slot))]);
    }
    r
}

/// The report that an operation starts.
pub fn op_started(plan: &Plan, index: usize, slot: Option<usize>) -> (r: ApplyEvent)
    requires
        index < plan.operations@.len(),
    ensures
        r.deep_view() == start_of(plan.deep_view(), index, slot),
{
    ApplyEvent::OpStarted {
        index,
        total: plan.operations.len(),
        slot,
        op: OpView::of(&plan.operations[index].kind),
    }
}

/// What running an operation on its own takes.
#[derive(Debug)]
pub enum SerialTask {
    /// Nothing: it is only reported
    Preview,
    /// To remove a file, once a copy of its content is known to survive
    Delete { path: String },
    /// To move a file into quarantine
    Quarantine {
        path: String,
        sha1: String,
        size: u64,
        reason: QuarantineReason,
        collection: Option<String>,
    },
    /// To place a file
    Place(PlacementKind),
    /// Nothing: a repack is one for the workers
    Unbatched,
}

/// A placement is settled by its result: the operation is completed and counted as a
/// success exactly where it went well, else failed and counted as an error; nothing
/// else of the plan changes; and the journal, where there is one, says so too.
pub proof fn law_placements_are_settled_by_their_result(
    run: RunView,
    after: RunView,
    plan: PlanView,
    plan_after: PlanView,
    slot: Option<usize>,
    outcome: PlacementOutcome,
    warning: Option<Seq<char>>,
    events: Seq<EventView>,
)
    requires
        placement_settled(run, after, plan, plan_after, slot, outcome, warning, events),
        0 <= outcome.job.plan_index < plan.operations.len(),
        run.success_count < usize::MAX && run.error_count < usize::MAX,
    ensures
        ({
            let i = outcome.job.plan_index as int;
            let done = outcome.result is Ok;
            &&& plan_after.operations[i].status == (if done {
                OperationStatus::Completed
            } else {
                OperationStatus::Failed
            })
            &&& plan_after.operations[i].kind == plan.operations[i].kind
            &&& plan_after.operations[i].id == plan.operations[i].id
            &&& forall|j: int|
                0 <= j < plan.operations.len() && j != i ==> #[trigger] plan_after.operations[j]
                    == plan.operations[j]
            &&& after.success_count == run.success_count + (if done {
                1int
            } else {
                0
            })
            &&& after.error_count == run.error_count + (if done {
                0int
            } else {
                1
            })
            &&& after.refused_count == run.refused_count && after.next == run.next
            &&& run.log is Some <==> after.log is Some
            &&& run.log matches Some(b) ==> {
                let e = after.log->0.entries.last();
                &&& after.log->0.entries.drop_last() == b.entries
                &&& e.operation_id == outcome.job.operation_id
                &&& e.status is Completed <==> done
                &&& !done ==> e.reverse is None
                &&& done ==> e.reverse is Some
            }
            &&& events.len() > 0 && (events.last() matches EventView::OpFinished {
                index,
                slot: at,
                status,
                detail,
                ..
            } && index == i && at == slot && status == plan_after.operations[i].status && match
                outcome.result {
                Ok(_) => detail is None,
                Err(message) => detail == Some(message@),
            })
        }),
{
}

/// A repack is settled by its result, as a placement is; its journal entry gives back
/// what it consumed.
pub proof fn law_repacks_are_settled_by_their_result(
    run: RunView,
    after: RunView,
    plan: PlanView,
    plan_after: PlanView,
    slot: usize,
    outcome: RepackOutcome,
    warning: Option<Seq<char>>,
    events: Seq<EventView>,
)
    requires
        repack_settled(run, after, plan, plan_after, slot, outcome, warning, events),
        0 <= outcome.job.plan_index < plan.operations.len(),
        run.success_count < usize::MAX && run.error_count < usize::MAX,
    ensures
        ({
            let i = outcome.job.plan_index as int;
            let done = outcome.result is Ok;
            &&& plan_after.operations[i].status == (if done {
                OperationStatus::Completed
            } else {
                OperationStatus::Failed
            })
            &&& plan_after.operations[i].kind == plan.operations[i].kind
            &&& forall|j: int|
                0 <= j < plan.operations.len() && j != i ==> #[trigger] plan_after.operations[j]
                    == plan.operations[j]
            &&& after.success_count == run.success_count + (if done {
                1int
            } else {
                0
            })
            &&& after.error_count == run.error_count + (if done {
                0int
            } else {
                1
            })
            &&& after.refused_count == run.refused_count && after.next == run.next
            &&& run.log matches Some(b) ==> after.log is Some && {
                let e = after.log->0.entries.last();
                &&& after.log->0.entries.drop_last() == b.entries
                &&& e.operation_id == outcome.job.operation_id
                &&& e.status is Completed <==> done
                &&& e.forward matches LoggedView::Repack { sources, dest } && dest
                    == outcome.job.dest@ && sources.len() == outcome.job.sources@.len()
                &&& !done ==> e.reverse is None
                &&& outcome.result matches Ok(list) ==> e.reverse == Some(
                    log::undo_repack(outcome.job.dest@, list.deep_view()),
                )
            }
            &&& events.len() > 0 && (events.last() matches EventView::OpFinished {
                index,
                slot: at,
                op,
                status,
                ..
            } && index == i && at == Some(slot) && status == plan_after.operations[i].status
                && op.from == outcome.job.dest@ && op.bytes == outcome.job.size)
        }),
{
}

/// Why a repack fails that was not gathered for the workers.
pub open spec fn unbatched() -> Seq<char> {
    "internal: repack reached the serial path"@
}

/// Whether a task is what an operation takes when it runs on its own.
pub open spec fn serial_task_for(op: OperationView, dry_run: bool, t: SerialTask) -> bool {
    if dry_run {
        t is Preview
    } else {
        match op.kind {
            KindView::Delete { path, .. } => t matches SerialTask::Delete { path: p } && p@ == path,
            KindView::Quarantine { path, sha1, size, reason, collection } =>
                t matches SerialTask::Quarantine {
                path: p,
                sha1: h,
                size: n,
                reason: r,
                collection: c,
            } && p@ == path && h@ == sha1 && n == size && r == (match quarantine::reason_of(
                reason,
            ) {
                Some(known) => known,
                None => QuarantineReason::PathChanged,
            }) && c.deep_view() == collection,
            KindView::Repack { .. } => t is Unbatched,
            _ => t matches SerialTask::Place(k) && k.deep_view() == placed(op.kind),
        }
    }
}

/// What running an operation on its own takes. A quarantine for an unknown reason
/// counts as one for a changed path.
pub fn serial_task(op: &Operation, opts: &ApplyOptions) -> (r: SerialTask)
    ensures
        serial_task_for(op.deep_view(), opts.dry_run, r),
{
    if opts.dry_run {
        return SerialTask::Preview;
    }
    match &op.kind {
        OperationKind::Delete { path, .. } => SerialTask::Delete { path: path.clone() },
        OperationKind::Quarantine { path, sha1, size, reason, collection } => {
            let known = QuarantineReason::parse_record(reason.as_str());
            SerialTask::Quarantine {
                path: path.clone(),
                sha1: sha1.clone(),
                size: *size,
                reason: known,
                collection: text::clone_opt(collection),
            }
        },
        OperationKind::Copy { source, dest, placement, .. } => SerialTask::Place(
            PlacementKind::Copy {
                source: source.clone(),
                dest: dest.clone(),
                placement: placement.clone(),
            },
        ),
        OperationKind::Move { source, dest, placement, .. } => SerialTask::Place(
            PlacementKind::Move {
                source: source.clone(),
                dest: dest.clone(),
                placement: placement.clone(),
            },
        ),
        OperationKind::Relocate { source, dest, .. } => SerialTask::Place(
            PlacementKind::Relocate { source: source.clone(), dest: dest.clone() },
        ),
        OperationKind::Repack { .. } => SerialTask::Unbatched,
    }
}

/// What a real run does on its own is always a delete or a quarantine: never
/// something that belongs to the workers.
pub proof fn law_serial_work_is_destructive(op: OperationView, skip_repack: bool, t: SerialTask)
    requires
        route_of(op, false, skip_repack) is Serial,
        serial_task_for(op, false, t),
    ensures
        t is Delete || t is Quarantine,
{
}

/// Why an operation did not complete.
enum Shortfall {
    Failed(String),
    Refused(String),
}

spec fn verdict_on(s: Option<Shortfall>) -> Verdict {
    match s {
        None => Verdict::Completed,
        Some(Shortfall::Failed(m)) => Verdict::Failed(m@),
        Some(Shortfall::Refused(m)) => Verdict::Refused(m@),
    }
}

/// Notes what came of an operation on the plan.
fn note_status(plan: &mut Plan, index: usize, status: OperationStatus)
    requires
        index < old(plan).operations@.len(),
    ensures
        final(plan).deep_view() == (PlanView {
            operations: old(plan).deep_view().operations.update(
                index as int,
                OperationView { status, ..old(plan).deep_view().operations[index as int] },
            ),
            ..old(plan).deep_view()
        }),
{
    let ghost before = plan.deep_view().operations;
    let mut operations: Vec<Operation> = Vec::new();
    std::mem::swap(&mut operations, &mut plan.operations);
    let id: u64 = operations[index].id;
    let kind = operations[index].kind.clone();
    operations[index] = Operation { id, status, kind };
    plan.operations = operations;
    proof {
        assert(plan.operations.deep_view() =~= before.update(
            index as int,
            OperationView { status, ..before[index as int] },
        ));
    }
}

fn push_end(
    events: &mut Vec<ApplyEvent>,
    index: usize,
    slot: Option<usize>,
    op: OpView,
    op_id: u64,
    shortfall: Option<Shortfall>,
    warning: Option<String>,
)
    ensures
        final(events).deep_view() == old(events).deep_view() + finished(
            index,
            slot,
            op.deep_view(),
            op_id,
            verdict_on(shortfall),
            warning.deep_view(),
        ),
{
    let ghost before = events.deep_view();
    let ghost want = finished(
        index,
        slot,
        op.deep_view(),
        op_id,
        verdict_on(shortfall),
        warning.deep_view(),
    );
    match shortfall {
        None => {
            if let Some(message) = warning {
                events.push(ApplyEvent::CatalogueWarning { op_id, message });
            }
            events.push(
                ApplyEvent::OpFinished {
                    index,
                    slot,
                    op,
                    status: OperationStatus::Completed,
                    detail: None,
                },
            );
        },
        Some(Shortfall::Failed(message)) => {
            events.push(ApplyEvent::OpFailed { index, message: message.clone() });
            events.push(
                ApplyEvent::OpFinished {
                    index,
                    slot,
                    op,
                    status: OperationStatus::Failed,
                    detail: Some(message),
                },
            );
        },
        Some(Shortfall::Refused(message)) => {
            events.push(
                ApplyEvent::OpFinished {
                    index,
                    slot,
                    op,
                    status: OperationStatus::Refused,
                    detail: Some(message),
                },
            );
        },
    }
    proof {
        assert(events.deep_view() =~= before + want);
    }
}

impl ApplyRun {
    /// Starts a run.
    pub fn new(plan: &Plan, opts: &ApplyOptions) -> (r: Self)
        ensures
            r.deep_view() == (RunView {
                next: 0,
                placements: Seq::empty(),
                repacks: Seq::empty(),
                log: r.deep_view().log,
                success_count: 0,
                error_count: 0,
                refused_count: 0,
            }),
            r.log is None <==> opts.dry_run,
            r.log matches Some(l) ==> l.plan_hash@ == plan.state_hash@ && l.entries@.len() == 0
                && l.completed_at is None && clock::is_stamp(l.started_at@),
    {
        let log = if opts.dry_run {
            None
        } else {
            Some(OperationLog::new(plan.state_hash.clone()))
        };
        let r = ApplyRun {
            next: 0,
            placements: Vec::new(),
            repacks: Vec::new(),
            log,
            success_count: 0,
            error_count: 0,
            refused_count: 0,
        };
        proof {
            assert(r.placements.deep_view() =~= Seq::<PlacementJobView>::empty());
            assert(r.repacks.deep_view() =~= Seq::<RepackJobView>::empty());
            if r.log is Some {
                assert(r.log->0.deep_view().entries.len() == r.log->0.entries@.len());
            }
        }
        r
    }

    fn gather(&mut self, index: usize, op: &Operation, way: Route)
        requires
            way == route_of(op.deep_view(), false, false),
            way is Placement || way is Repack,
        ensures
            final(self).deep_view() == (if way is Placement {
                RunView {
                    placements: old(self).deep_view().placements.push(
                        PlacementJobView {
                            plan_index: index,
                            operation_id: op.id,
                            kind: placed(op.deep_view().kind),
                        },
                    ),
                    ..old(self).deep_view()
                }
            } else {
                RunView {
                    repacks: old(self).deep_view().repacks.push(
                        packed(index as int, op.deep_view()),
                    ),
                    ..old(self).deep_view()
                }
            }),
    {
        let ghost before = self.deep_view();
        let kind: Option<PlacementKind> = match &op.kind {
            OperationKind::Copy { source, dest, placement, .. } => Some(
                PlacementKind::Copy {
                    source: source.clone(),
                    dest: dest.clone(),
                    placement: placement.clone(),
                },
            ),
            OperationKind::Move { source, dest, placement, .. } => Some(
                PlacementKind::Move {
                    source: source.clone(),
                    dest: dest.clone(),
                    placement: placement.clone(),
                },
            ),
            OperationKind::Relocate { source, dest, .. } => Some(
                PlacementKind::Relocate { source: source.clone(), dest: dest.clone() },
            ),
            OperationKind::Repack { sources, dest, format, move_sources, size } => {
                self.repacks.push(
                    RepackJob {
                        plan_index: index,
                        operation_id: op.id,
                        sources: clone_sources(sources),
                        dest: dest.clone(),
                        format: format.clone(),
                        move_sources: *move_sources,
                        size: *size,
                    },
                );
                proof {
                    assert(self.repacks.deep_view() =~= before.repacks.push(
                        packed(index as int, op.deep_view()),
                    ));
                }
                None
            },
            _ => None,
        };
        if let Some(kind) = kind {
            self.placements.push(PlacementJob { plan_index: index, operation_id: op.id, kind });
            proof {
                assert(self.placements.deep_view() =~= before.placements.push(
                    PlacementJobView {
                        plan_index: index,
                        operation_id: op.id,
                        kind: placed(op.deep_view().kind),
                    },
                ));
            }
        }
    }

    /// Goes on to what is to be done next: gathers placements and repacks up to
    /// the next operation that runs on its own. That one only runs once all that
    /// was gathered has been taken.
    pub fn next_step(&mut self, plan: &Plan, opts: &ApplyOptions) -> (r: NextStep)
        requires
            old(self).next <= plan.operations@.len(),
        ensures
            stepped(
                old(self).deep_view(),
                final(self).deep_view(),
                plan.deep_view().operations,
                opts.dry_run,
                opts.skip_repack,
                r,
            ),
    {
        let ghost ops = plan.deep_view().operations;
        let ghost start = self.deep_view();
        let ghost a = self.next as int;
        let ghost dry = opts.dry_run;
        let ghost skip = opts.skip_repack;
        proof {
            assert(start.placements + Seq::<PlacementJobView>::empty() =~= start.placements);
            assert(start.repacks + Seq::<RepackJobView>::empty() =~= start.repacks);
        }
        while self.next < plan.operations.len()
            invariant
                a <= self.next <= plan.operations@.len(),
                ops == plan.deep_view().operations,
                dry == opts.dry_run,
                skip == opts.skip_repack,
                self.deep_view() == (RunView {
                    next: self.next,
                    placements: start.placements + placements_between(
                        ops,
                        dry,
                        skip,
                        a,
                        self.next as int,
                    ),
                    repacks: start.repacks + repacks_between(ops, dry, skip, a, self.next as int),
                    ..start
                }),
                routed(ops, dry, skip, Route::Serial, a, self.next as int) == 0,
                start == old(self).deep_view(),
                a == start.next,
            decreases plan.operations@.len() - self.next,
        {
            let index = self.next;
            let op = &plan.operations[index];
            let way = route(op, opts);
            proof {
                assert(self.deep_view().placements.len() == self.placements@.len());
                assert(self.deep_view().repacks.len() == self.repacks@.len());
            }
            match way {
                Route::Skip => {
                    self.next = index + 1;
                },
                Route::Serial => {
                    if self.placements.len() > 0 || self.repacks.len() > 0 {
                        return NextStep::Batches;
                    }
                    self.next = index + 1;
                    return NextStep::Serial(index);
                },
                _ => {
                    self.gather(index, op, way);
                    self.next = index + 1;
                    proof {
                        assert(self.deep_view().placements =~= start.placements
                            + placements_between(ops, dry, skip, a, self.next as int));
                        assert(self.deep_view().repacks =~= start.repacks + repacks_between(
                            ops,
                            dry,
                            skip,
                            a,
                            self.next as int,
                        ));
                    }
                },
            }
        }
        proof {
            assert(self.deep_view().placements.len() == self.placements@.len());
            assert(self.deep_view().repacks.len() == self.repacks@.len());
        }
        if self.placements.len() > 0 || self.repacks.len() > 0 {
            NextStep::Batches
        } else {
            NextStep::Finish
        }
    }

    /// Takes what was gathered, to be run.
    pub fn take_batches(&mut self) -> (r: (Vec<PlacementJob>, Vec<RepackJob>))
        ensures
            r.0.deep_view() == old(self).deep_view().placements,
            r.1.deep_view() == old(self).deep_view().repacks,
            final(self).deep_view() == emptied(old(self).deep_view()),
    {
        let mut placements: Vec<PlacementJob> = Vec::new();
        let mut repacks: Vec<RepackJob> = Vec::new();
        std::mem::swap(&mut placements, &mut self.placements);
        std::mem::swap(&mut repacks, &mut self.repacks);
        proof {
            assert(self.placements.deep_view() =~= Seq::<PlacementJobView>::empty());
            assert(self.repacks.deep_view() =~= Seq::<RepackJobView>::empty());
        }
        (placements, repacks)
    }

    fn tally(&mut self, shortfall: &Option<Shortfall>)
        ensures
            final(self).deep_view() == tallied(old(self).deep_view(), verdict_on(*shortfall)),
    {
        match shortfall {
            None => {
                self.success_count = self.success_count.saturating_add(1);
            },
            Some(Shortfall::Failed(_)) => {
                self.error_count = self.error_count.saturating_add(1);
            },
            Some(Shortfall::Refused(_)) => {
                self.refused_count = self.refused_count.saturating_add(1);
            },
        }
    }

    /// Settles a placement that a worker has finished. `warning` is why the
    /// catalogue could not follow, if so.
    pub fn settle_placement(
        &mut self,
        plan: &mut Plan,
        slot: usize,
        outcome: PlacementOutcome,
        warning: Option<String>,
    ) -> (events: Vec<ApplyEvent>)
        requires
            outcome.job.plan_index < old(plan).operations@.len(),
        ensures
            placement_settled(
                old(self).deep_view(),
                final(self).deep_view(),
                old(plan).deep_view(),
                final(plan).deep_view(),
                Some(slot),
                outcome,
                warning.deep_view(),
                events.deep_view(),
            ),
    {
        self.settle_placed(plan, Some(slot), outcome, warning)
    }

    /// Settles a placement that ran on its own.
    pub fn settle_serial_placement(
        &mut self,
        plan: &mut Plan,
        outcome: PlacementOutcome,
        warning: Option<String>,
    ) -> (events: Vec<ApplyEvent>)
        requires
            outcome.job.plan_index < old(plan).operations@.len(),
        ensures
            placement_settled(
                old(self).deep_view(),
                final(self).deep_view(),
                old(plan).deep_view(),
                final(plan).deep_view(),
                None,
                outcome,
                warning.deep_view(),
                events.deep_view(),
            ),
    {
        self.settle_placed(plan, None, outcome, warning)
    }

    fn settle_placed(
        &mut self,
        plan: &mut Plan,
        slot: Option<usize>,
        outcome: PlacementOutcome,
        warning: Option<String>,
    ) -> (events: Vec<ApplyEvent>)
        requires
            outcome.job.plan_index < old(plan).operations@.len(),
        ensures
            placement_settled(
                old(self).deep_view(),
                final(self).deep_view(),
                old(plan).deep_view(),
                final(plan).deep_view(),
                slot,
                outcome,
                warning.deep_view(),
                events.deep_view(),
            ),
    {
        let PlacementOutcome { job, result } = outcome;
        let success = result.is_ok();
        if let Some(log) = &mut self.log {
            match &job.kind {
                PlacementKind::Copy { source, dest, .. } => log.log_copy(
                    job.operation_id,
                    source.path.as_str(),
                    dest.as_str(),
                    source.sha1.as_str(),
                    success,
                ),
                PlacementKind::Move { source, dest, .. } => log.log_move(
                    job.operation_id,
                    source.path.as_str(),
                    dest.as_str(),
                    source.sha1.as_str(),
                    success,
                ),
                PlacementKind::Relocate { source, dest } => log.log_relocate(
                    job.operation_id,
                    source.as_str(),
                    dest.as_str(),
                    success,
                ),
            }
        }
        let view = OpView::of(&plan.operations[job.plan_index].kind);
        let op_id: u64 = plan.operations[job.plan_index].id;
        let (status, shortfall) = match result {
            Ok(_) => (OperationStatus::Completed, None),
            Err(message) => (OperationStatus::Failed, Some(Shortfall::Failed(message))),
        };
        note_status(plan, job.plan_index, status);
        self.tally(&shortfall);
        let mut events: Vec<ApplyEvent> = Vec::new();
        push_end(&mut events, job.plan_index, slot, view, op_id, shortfall, warning);
        proof {
            assert(events.deep_view() =~= finished(
                job.plan_index,
                slot,
                types::shown(old(plan).deep_view().operations[job.plan_index as int].kind),
                op_id,
                judged(result),
                warning.deep_view(),
            ));
        }
        events
    }

    /// Settles a repack that was not gathered for the workers: it fails, and nothing
    /// was done.
    pub fn settle_unbatched(&mut self, plan: &mut Plan, index: usize) -> (events: Vec<ApplyEvent>)
        requires
            index < old(plan).operations@.len(),
        ensures
            ({
                let v = Verdict::Failed(unbatched());
                &&& settled_as(
                    old(self).deep_view(),
                    final(self).deep_view(),
                    old(plan).deep_view(),
                    final(plan).deep_view(),
                    index as int,
                    v,
                )
                &&& final(self).deep_view().log == old(self).deep_view().log
                &&& events.deep_view() == seq![
                    EventView::OpFinished {
                        index,
                        slot: None,
                        op: types::shown(old(plan).deep_view().operations[index as int].kind),
                        status: OperationStatus::Failed,
                        detail: Some(unbatched()),
                    },
                ]
            }),
    {
        let view = OpView::of(&plan.operations[index].kind);
        note_status(plan, index, OperationStatus::Failed);
        let message = "internal: repack reached the serial path".to_owned();
        self.tally(&Some(Shortfall::Failed(message.clone())));
        let mut events: Vec<ApplyEvent> = Vec::new();
        events.push(
            ApplyEvent::OpFinished {
                index,
                slot: None,
                op: view,
                status: OperationStatus::Failed,
                detail: Some(message),
            },
        );
        proof {
            assert(events.deep_view() =~= seq![
                EventView::OpFinished {
                    index,
                    slot: None,
                    op: types::shown(old(plan).deep_view().operations[index as int].kind),
                    status: OperationStatus::Failed,
                    detail: Some(unbatched()),
                },
            ]);
        }
        events
    }

    /// Settles a repack that a worker has finished.
    pub fn settle_repack(
        &mut self,
        plan: &mut Plan,
        slot: usize,
        outcome: RepackOutcome,
        warning: Option<String>,
    ) -> (events: Vec<ApplyEvent>)
        requires
            outcome.job.plan_index < old(plan).operations@.len(),
        ensures
            repack_settled(
                old(self).deep_view(),
                final(self).deep_view(),
                old(plan).deep_view(),
                final(plan).deep_view(),
                slot,
                outcome,
                warning.deep_view(),
                events.deep_view(),
            ),
    {
        let RepackOutcome { job, result } = outcome;
        let paths = source_paths(&job.sources);
        if let Some(log) = &mut self.log {
            let none: Vec<(String, String)> = Vec::new();
            let (consumed, success): (&Vec<(String, String)>, bool) = match &result {
                Ok(list) => (list, true),
                Err(_) => (&none, false),
            };
            proof {
                assert(log::list_views(paths@) =~= paths.deep_view());
                assert(log::pair_views(consumed@) =~= consumed.deep_view());
                assert(none.deep_view() =~= Seq::<(Seq<char>, Seq<char>)>::empty());
            }
            log.log_repack(
                job.operation_id,
                paths.as_slice(),
                job.dest.as_str(),
                consumed.as_slice(),
                success,
            );
        }
        let view = OpView::of_repack(job.sources.len(), job.dest.as_str(), job.size);
        let op_id: u64 = plan.operations[job.plan_index].id;
        let (status, shortfall) = match result {
            Ok(_) => (OperationStatus::Completed, None),
            Err(message) => (OperationStatus::Failed, Some(Shortfall::Failed(message))),
        };
        note_status(plan, job.plan_index, status);
        self.tally(&shortfall);
        let mut events: Vec<ApplyEvent> = Vec::new();
        push_end(&mut events, job.plan_index, Some(slot), view, op_id, shortfall, warning);
        proof {
            assert(events.deep_view() =~= finished(
                job.plan_index,
                Some(slot),
                types::shown_repack(job.sources@.len() as usize, job.dest@, job.size),
                op_id,
                judged(result),
                warning.deep_view(),
            ));
        }
        events
    }

    /// Takes in what a worker reports of a placement: a start is reported on, an
    /// end is settled.
    pub fn placement_event(
        &mut self,
        plan: &mut Plan,
        event: PlacementEvent,
        warning: Option<String>,
    ) -> (events: Vec<ApplyEvent>)
        requires
            match event {
                PlacementEvent::Started { plan_index, .. } => plan_index < old(
                    plan,
                ).operations@.len(),
                PlacementEvent::Finished { outcome, .. } => outcome.job.plan_index < old(
                    plan,
                ).operations@.len(),
            },
        ensures
            match event {
                PlacementEvent::Started { slot, plan_index } => {
                    &&& final(plan).deep_view() == old(plan).deep_view()
                    &&& final(self).deep_view() == old(self).deep_view()
                    &&& events.deep_view() == seq![
                        start_of(old(plan).deep_view(), plan_index, Some(slot)),
                    ]
                },
                PlacementEvent::Finished { slot, outcome } => placement_settled(
                    old(self).deep_view(),
                    final(self).deep_view(),
                    old(plan).deep_view(),
                    final(plan).deep_view(),
                    Some(slot),
                    outcome,
                    warning.deep_view(),
                    events.deep_view(),
                ),
            },
    {
        match event {
            PlacementEvent::Started { slot, plan_index } => started(plan, plan_index, slot),
            PlacementEvent::Finished { slot, outcome } => self.settle_placement(
                plan,
                slot,
                outcome,
                warning,
            ),
        }
    }

    /// Takes in what a worker reports of a repack: a start is reported on, an end
    /// is settled.
    pub fn repack_event(
        &mut self,
        plan: &mut Plan,
        event: RepackEvent,
        warning: Option<String>,
    ) -> (events: Vec<ApplyEvent>)
        requires
            match event {
                RepackEvent::Started { plan_index, .. } => plan_index < old(
                    plan,
                ).operations@.len(),
                RepackEvent::Finished { outcome, .. } => outcome.job.plan_index < old(
                    plan,
                ).operations@.len(),
            },
        ensures
            match event {
                RepackEvent::Started { slot, plan_index } => {
                    &&& final(plan).deep_view() == old(plan).deep_view()
                    &&& final(self).deep_view() == old(self).deep_view()
                    &&& events.deep_view() == seq![
                        start_of(old(plan).deep_view(), plan_index, Some(slot)),
                    ]
                },
                RepackEvent::Finished { slot, outcome } => repack_settled(
                    old(self).deep_view(),
                    final(self).deep_view(),
                    old(plan).deep_view(),
                    final(plan).deep_view(),
                    slot,
                    outcome,
                    warning.deep_view(),
                    events.deep_view(),
                ),
            },
    {
        match event {
            RepackEvent::Started { slot, plan_index } => started(plan, plan_index, slot),
            RepackEvent::Finished { slot, outcome } => self.settle_repack(
                plan,
                slot,
                outcome,
                warning,
            ),
        }
    }

    /// Settles an operation of a dry run: it is reported as completed and counted,
    /// and the plan stays as it is.
    pub fn settle_dry(&mut self, plan: &Plan, index: usize) -> (events: Vec<ApplyEvent>)
        requires
            index < plan.operations@.len(),
        ensures
            final(self).deep_view() == tallied(old(self).deep_view(), Verdict::Completed),
            events.deep_view() == finished(
                index,
                None,
                types::shown(plan.deep_view().operations[index as int].kind),
                plan.deep_view().operations[index as int].id,
                Verdict::Completed,
                None,
            ),
    {
        self.tally(&None);
        let mut events: Vec<ApplyEvent> = Vec::new();
        let view = OpView::of(&plan.operations[index].kind);
        let op_id: u64 = plan.operations[index].id;
        push_end(&mut events, index, None, view, op_id, None, None);
        proof {
            assert(events.deep_view() =~= finished(
                index,
                None,
                types::shown(plan.deep_view().operations[index as int].kind),
                op_id,
                Verdict::Completed,
                None,
            ));
        }
        events
    }

    /// Settles a delete. A container that was drained into archives, and removed
    /// by this very run, is journalled with how to rebuild it.
    pub fn settle_delete(
        &mut self,
        plan: &mut Plan,
        index: usize,
        outcome: DeleteOutcome,
        warning: Option<String>,
    ) -> (events: Vec<ApplyEvent>)
        requires
            index < old(plan).operations@.len(),
            old(plan).operations@[index as int].kind is Delete,
        ensures
            ({
                let op = old(plan).deep_view().operations[index as int];
                let v = judged_delete(outcome);
                let log = final(self).deep_view().log;
                &&& settled_as(
                    old(self).deep_view(),
                    final(self).deep_view(),
                    old(plan).deep_view(),
                    final(plan).deep_view(),
                    index as int,
                    v,
                )
                &&& match op.kind {
                    KindView::Delete { path, rebuild: Some(rebuild), .. } => if outcome is Removed {
                        log_follows(
                            old(self).deep_view().log,
                            log,
                            op.id,
                            LoggedView::Delete { path },
                            Some(
                                LoggedView::RebuildContainer {
                                    container: path,
                                    format: rebuild.format,
                                    entries: rebuild.entries,
                                },
                            ),
                            true,
                        )
                    } else {
                        log == old(self).deep_view().log
                    },
                    _ => log == old(self).deep_view().log,
                }
                &&& op.kind matches KindView::Delete { path, .. } && events.deep_view()
                    == delete_notices(index, path, outcome) + finished(
                    index,
                    None,
                    types::shown(op.kind),
                    op.id,
                    v,
                    warning.deep_view(),
                )
            }),
    {
        let view = OpView::of(&plan.operations[index].kind);
        let op_id: u64 = plan.operations[index].id;
        let mut events: Vec<ApplyEvent> = Vec::new();
        let ghost op = plan.deep_view().operations[index as int];
        let ghost start = self.deep_view();
        proof {
            assert(op == plan.operations@[index as int].deep_view());
            assert(events.deep_view() =~= Seq::<EventView>::empty());
        }
        if let OperationKind::Delete { path, rebuild, .. } = &plan.operations[index].kind {
            match &outcome {
                DeleteOutcome::Removed => {
                    if let Some(rebuild) = rebuild {
                        if let Some(log) = &mut self.log {
                            proof {
                                assert(plan_types::entry_views(rebuild.entries@)
                                    =~= rebuild.entries.deep_view());
                            }
                            log.log_container_drain(
                                op_id,
                                path.as_str(),
                                rebuild.format.as_str(),
                                rebuild.entries.as_slice(),
                                true,
                            );
                        }
                    }
                },
                DeleteOutcome::AlreadyGone => {
                    events.push(ApplyEvent::AlreadyGone { index });
                },
                DeleteOutcome::Failed(_) => {},
                DeleteOutcome::NoSurvivor => {
                    events.push(ApplyEvent::DeleteRefused { index, path: path.clone() });
                },
                DeleteOutcome::Unverified(message) => {
                    events.push(ApplyEvent::DeleteVerifyError { index, message: message.clone() });
                },
            }
            proof {
                assert(events.deep_view() =~= delete_notices(index, path@, outcome));
            }
        }
        let (status, shortfall) = match outcome {
            DeleteOutcome::Removed => (OperationStatus::Completed, None),
            DeleteOutcome::AlreadyGone => (OperationStatus::Completed, None),
            DeleteOutcome::Failed(message) => (
                OperationStatus::Failed,
                Some(Shortfall::Failed(message)),
            ),
            DeleteOutcome::NoSurvivor => (
                OperationStatus::Refused,
                Some(Shortfall::Refused("no surviving copy on disk".to_owned())),
            ),
            DeleteOutcome::Unverified(message) => (
                OperationStatus::Refused,
                Some(Shortfall::Refused(message)),
            ),
        };
        note_status(plan, index, status);
        self.tally(&shortfall);
        push_end(&mut events, index, None, view, op_id, shortfall, warning);
        events
    }

    /// Settles a quarantine; on success the result is the path in the store.
    pub fn settle_quarantine(
        &mut self,
        plan: &mut Plan,
        index: usize,
        result: Result<String, String>,
        warning: Option<String>,
    ) -> (events: Vec<ApplyEvent>)
        requires
            index < old(plan).operations@.len(),
            old(plan).operations@[index as int].kind is Quarantine,
        ensures
            ({
                let op = old(plan).deep_view().operations[index as int];
                let v = judged(result);
                let log = final(self).deep_view().log;
                &&& settled_as(
                    old(self).deep_view(),
                    final(self).deep_view(),
                    old(plan).deep_view(),
                    final(plan).deep_view(),
                    index as int,
                    v,
                )
                &&& op.kind matches KindView::Quarantine { path, sha1, .. } && ({
                    let forward = LoggedView::Quarantine {
                        original_path: path,
                        quarantine_path: match result {
                            Ok(to) => to@,
                            Err(_) => ""@,
                        },
                        sha1,
                    };
                    log_follows(
                        old(self).deep_view().log,
                        log,
                        op.id,
                        forward,
                        log::undo(forward),
                        result is Ok,
                    )
                })
                &&& events.deep_view() == finished(
                    index,
                    None,
                    types::shown(op.kind),
                    op.id,
                    v,
                    warning.deep_view(),
                )
            }),
    {
        let view = OpView::of(&plan.operations[index].kind);
        let op_id: u64 = plan.operations[index].id;
        let ghost op = plan.deep_view().operations[index as int];
        proof {
            assert(op == plan.operations@[index as int].deep_view());
        }
        if let OperationKind::Quarantine { path, sha1, .. } = &plan.operations[index].kind {
            if let Some(log) = &mut self.log {
                let (to, success): (&str, bool) = match &result {
                    Ok(to) => (to.as_str(), true),
                    Err(_) => ("", false),
                };
                log.log_quarantine(op_id, path.as_str(), to, sha1.as_str(), success);
            }
        }
        let (status, shortfall) = match result {
            Ok(_) => (OperationStatus::Completed, None),
            Err(message) => (OperationStatus::Failed, Some(Shortfall::Failed(message))),
        };
        note_status(plan, index, status);
        self.tally(&shortfall);
        let mut events: Vec<ApplyEvent> = Vec::new();
        push_end(&mut events, index, None, view, op_id, shortfall, warning);
        proof {
            assert(events.deep_view() =~= finished(
                index,
                None,
                types::shown(op.kind),
                op_id,
                judged(result),
                warning.deep_view(),
            ));
        }
        events
    }

    /// Ends a run with its tallies and where its journal was kept.
    pub fn finish(self, log_path: Option<String>) -> (r: ApplyOutcome)
        ensures
            r.success_count == self.success_count,
            r.error_count == self.error_count,
            r.refused_count == self.refused_count,
            r.log_path.deep_view() == log_path.deep_view(),
    {
        ApplyOutcome {
            success_count: self.success_count,
            error_count: self.error_count,
            refused_count: self.refused_count,
            log_path,
        }
    }
}

/// The paths of a list of sources.
fn source_paths(sources: &Vec<SourceRef>) -> (r: Vec<String>)
    ensures
        r.deep_view() == sources.deep_view().map_values(|s: SourceRefView| s.path),
{
    let ghost all = sources.deep_view();
    let ghost want = all.map_values(|s: SourceRefView| s.path);
    let mut r: Vec<String> = Vec::new();
    let mut i: usize = 0;
    proof {
        assert(r.deep_view() =~= want.take(0));
    }
    while i < sources.len()
        invariant
            i <= sources@.len(),
            all == sources.deep_view(),
            want == all.map_values(|s: SourceRefView| s.path),
            r.deep_view() == want.take(i as int),
        decreases sources@.len() - i,
    {
        let ghost before = r.deep_view();
        r.push(sources[i].path.clone());
        i = i + 1;
        proof {
            assert(r.deep_view() =~= before.push(want[i - 1]));
            assert(r.deep_view() =~= want.take(i as int));
        }
    }
    proof {
        assert(want.take(i as int) =~= want);
    }
    r
}

} // verus!
