//! Applying the latest plan: the gates before it, the progress during it, and the
//! report after it.

use crate::plan::apply::runner;
use crate::plan::apply::runner::Route;
use crate::plan::apply::types::{ApplyEvent, ApplyOutcome, EventView, ShownView};
use crate::plan::apply::whole_run;
use crate::plan::apply::whole_run::{Standing, Turn};
use crate::plan::executor::space;
use crate::plan::executor::space::{check_disk_space, SpaceErrorView};
use crate::plan::types;
use crate::plan::types::{Operation, OperationStatus, OperationView, Plan, PlanView};
use crate::sorted_map;
use crate::sorted_map::SortedMap;
use crate::text;
use vstd::prelude::*;

verus! {

/// How many workers an apply uses that a front end starts.
pub const APPLY_JOBS: usize = 6;

/// How to run an apply.
#[derive(Clone, Copy, Debug, PartialEq, Eq, Structural)]
pub struct ApplyRunOptions {
    /// Report what would happen without touching any file
    pub dry_run: bool,
    /// Apply even when a destination volume looks too small
    pub skip_space_check: bool,
}

impl ApplyRunOptions {
    /// The dry-run preview.
    pub fn preview() -> (r: Self)
        ensures
            r == (ApplyRunOptions { dry_run: true, skip_space_check: false }),
    {
        ApplyRunOptions { dry_run: true, skip_space_check: false }
    }
}

/// Readiness to apply a plan, and what was done.
pub struct ApplyReport {
    /// The plan predates the current catalogue
    pub stale: bool,
    /// The destination volumes have room
    pub disk_ok: bool,
    /// What is wrong where they have not
    pub disk_detail: Option<String>,
    pub total_ops: usize,
    pub pending: usize,
    /// Bytes that the plan transfers
    pub total_bytes: u64,
    /// How many operations started, by verb
    pub by_kind: SortedMap<String, usize>,
    pub dry_run: bool,
    /// Why nothing was touched, where a gate refused
    pub refused: Option<String>,
    pub succeeded: usize,
    /// Failures that a later apply tries again
    pub failed: usize,
    /// Operations that a safety check declined
    pub refused_ops: usize,
}

#[verifier::ext_equal]
pub struct ReportView {
    pub stale: bool,
    pub disk_ok: bool,
    pub disk_detail: Option<Seq<char>>,
    pub total_ops: usize,
    pub pending: usize,
    pub total_bytes: u64,
    pub by_kind: Map<Seq<char>, usize>,
    pub dry_run: bool,
    pub refused: Option<Seq<char>>,
    pub succeeded: usize,
    pub failed: usize,
    pub refused_ops: usize,
}

impl DeepView for ApplyReport {
    type V = ReportView;

    open spec fn deep_view(&self) -> ReportView {
        ReportView {
            stale: self.stale,
            disk_ok: self.disk_ok,
            disk_detail: self.disk_detail.deep_view(),
            total_ops: self.total_ops,
            pending: self.pending,
            total_bytes: self.total_bytes,
            by_kind: self.by_kind@,
            dry_run: self.dry_run,
            refused: self.refused.deep_view(),
            succeeded: self.succeeded,
            failed: self.failed,
            refused_ops: self.refused_ops,
        }
    }
}

/// One progress update: an operation starts, or finishes.
#[derive(Debug)]
pub struct ApplyProgress {
    /// Operations finished so far
    pub done: usize,
    pub total: usize,
    /// How many worker slots there are
    pub jobs: usize,
    /// The worker slot, or none for a serial operation
    pub slot: Option<usize>,
    pub finished: bool,
    pub verb: String,
    pub from: String,
    pub to: Option<String>,
    pub bytes: u64,
    /// Bytes of the operations that completed
    pub bytes_done: u64,
    pub bytes_total: u64,
    /// `ok`, `failed` or `refused` for one that finished
    pub outcome: Option<String>,
    /// Why it failed or was refused
    pub detail: Option<String>,
    /// Why the operation is safe to do, where it says
    pub reason: Option<String>,
}

#[verifier::ext_equal]
pub struct ProgressView {
    pub done: usize,
    pub total: usize,
    pub jobs: usize,
    pub slot: Option<usize>,
    pub finished: bool,
    pub verb: Seq<char>,
    pub from: Seq<char>,
    pub to: Option<Seq<char>>,
    pub bytes: u64,
    pub bytes_done: u64,
    pub bytes_total: u64,
    pub outcome: Option<Seq<char>>,
    pub detail: Option<Seq<char>>,
    pub reason: Option<Seq<char>>,
}

impl DeepView for ApplyProgress {
    type V = ProgressView;

    open spec fn deep_view(&self) -> ProgressView {
        ProgressView {
            done: self.done,
            total: self.total,
            jobs: self.jobs,
            slot: self.slot,
            finished: self.finished,
            verb: self.verb@,
            from: self.from@,
            to: self.to.deep_view(),
            bytes: self.bytes,
            bytes_done: self.bytes_done,
            bytes_total: self.bytes_total,
            outcome: self.outcome.deep_view(),
            detail: self.detail.deep_view(),
            reason: self.reason.deep_view(),
        }
    }
}

/// How much of a plan is still to be done.
pub open spec fn pending_count(ops: Seq<OperationView>) -> nat
    decreases ops.len(),
{
    if ops.len() == 0 {
        0
    } else {
        pending_count(ops.drop_last()) + (if types::remaining(ops.last().status) {
            1nat
        } else {
            0nat
        })
    }
}

proof fn lemma_pending_are_due(ops: Seq<OperationView>, dry_run: bool, n: int)
    requires
        0 <= n <= ops.len(),
    ensures
        pending_count(ops.take(n)) + runner::routed(ops, dry_run, false, Route::Skip, 0, n) == n,
    decreases n,
{
    if n > 0 {
        lemma_pending_are_due(ops, dry_run, n - 1);
        assert(ops.take(n).drop_last() =~= ops.take(n - 1));
    }
}

/// A run that is over, and defers no repack, has settled as many operations as were
/// pending: its successes, failures and refusals add up to them.
pub proof fn law_run_settles_what_was_pending(
    plan: PlanView,
    dry_run: bool,
    turns: Seq<Turn>,
    standings: Seq<Standing>,
)
    requires
        plan.operations.len() <= usize::MAX,
        whole_run::ran(plan, dry_run, false, turns, standings),
        standings.last().over,
    ensures
        ({
            let run = standings.last().run;
            run.success_count + run.error_count + run.refused_count == pending_count(
                plan.operations,
            )
        }),
{
    let ops = plan.operations;
    whole_run::law_every_due_operation_is_settled_once(plan, dry_run, false, turns, standings);
    lemma_pending_are_due(ops, dry_run, ops.len() as int);
    assert(ops.take(ops.len() as int) =~= ops);
}

/// Whether any operation of a plan has been tried.
pub open spec fn started(ops: Seq<OperationView>) -> bool {
    exists|i: int| 0 <= i < ops.len() && !((#[trigger] ops[i]).status is Pending)
}

/// The words for a plan that predates the catalogue.
pub open spec fn stale_words() -> Seq<char> {
    "Plan is stale: the catalogue changed since it was generated. Run `cat198x plan` to regenerate it."@
}

/// Why an apply is refused, if it is. A dry run never is; neither is one of a plan
/// under way, whose own work has moved the catalogue.
pub open spec fn gate(
    opts: ApplyRunOptions,
    ops: Seq<OperationView>,
    stale: bool,
    shortage: Option<SpaceErrorView>,
) -> Option<Seq<char>> {
    if opts.dry_run {
        None
    } else if stale && !started(ops) {
        Some(stale_words())
    } else if shortage is Some && !opts.skip_space_check {
        Some("Not enough disk space: "@ + space::space_message(shortage->0))
    } else {
        None
    }
}

/// What a plan's writes lack of room, if anything.
pub open spec fn shortage_of(
    ops: Seq<OperationView>,
    available: Map<Seq<char>, u64>,
) -> Option<SpaceErrorView> {
    space::first_shortage(
        ops,
        available,
        sorted_map::in_order::<String>(space::volumes(ops)),
    )
}

/// What is known before an apply.
pub open spec fn readiness(
    opts: ApplyRunOptions,
    plan: types::PlanView,
    stale: bool,
    available: Map<Seq<char>, u64>,
) -> ReportView {
    let shortage = shortage_of(plan.operations, available);
    ReportView {
        stale,
        disk_ok: shortage is None,
        disk_detail: match shortage {
            Some(e) => Some(space::space_message(e)),
            None => None,
        },
        total_ops: plan.operations.len() as usize,
        pending: pending_count(plan.operations) as usize,
        total_bytes: plan.summary.total_bytes,
        by_kind: Map::empty(),
        dry_run: opts.dry_run,
        refused: gate(opts, plan.operations, stale, shortage),
        succeeded: 0,
        failed: 0,
        refused_ops: 0,
    }
}

/// A preview is never refused, and neither is a resumed plan for being stale.
pub proof fn law_gates_only_hold_back_real_runs(
    opts: ApplyRunOptions,
    ops: Seq<OperationView>,
    stale: bool,
    shortage: Option<SpaceErrorView>,
)
    ensures
        opts.dry_run ==> gate(opts, ops, stale, shortage) is None,
        started(ops) && shortage is None ==> gate(opts, ops, stale, shortage) is None,
        !opts.dry_run && stale && !started(ops) ==> gate(opts, ops, stale, shortage) is Some,
        !opts.dry_run && shortage is Some && !opts.skip_space_check ==> gate(
            opts,
            ops,
            stale,
            shortage,
        ) is Some,
{
}

/// What is left to be done of a plan is what is pending or failed.
pub proof fn law_pending_work_is_counted(ops: Seq<OperationView>)
    ensures
        pending_count(ops) == ops.filter(
            |op: OperationView|
                op.status == OperationStatus::Pending || op.status == OperationStatus::Failed,
        ).len(),
    decreases ops.len(),
{
    reveal(Seq::filter);
    if ops.len() > 0 {
        law_pending_work_is_counted(ops.drop_last());
    }
}

/// A real run is held back for two reasons only: a plan that predates the catalogue
/// and of which nothing was tried yet, and a volume without room, unless that check
/// was switched off. Nothing else holds it back.
pub proof fn law_held_back_for_two_reasons_only(
    opts: ApplyRunOptions,
    ops: Seq<OperationView>,
    stale: bool,
    shortage: Option<SpaceErrorView>,
)
    ensures
        gate(opts, ops, stale, shortage) is Some <==> !opts.dry_run && ((stale && forall|i: int|
            0 <= i < ops.len() ==> (#[trigger] ops[i]).status == OperationStatus::Pending) || (
        shortage is Some && !opts.skip_space_check)),
{
    if forall|i: int|
        0 <= i < ops.len() ==> (#[trigger] ops[i]).status == OperationStatus::Pending {
        assert(!started(ops));
    }
}

/// What is known before an apply is of the plan itself: how many operations it has,
/// how many are left, how many bytes it transfers, and whether they fit.
pub proof fn law_readiness_is_of_the_plan(
    opts: ApplyRunOptions,
    plan: types::PlanView,
    stale: bool,
    available: Map<Seq<char>, u64>,
)
    requires
        plan.operations.len() <= usize::MAX,
    ensures
        ({
            let r = readiness(opts, plan, stale, available);
            &&& r.total_ops == plan.operations.len()
            &&& r.pending == plan.operations.filter(
                |op: OperationView|
                    op.status == OperationStatus::Pending || op.status == OperationStatus::Failed,
            ).len()
            &&& r.total_bytes == plan.summary.total_bytes
            &&& r.stale == stale
            &&& r.dry_run == opts.dry_run
            &&& r.disk_ok <==> forall|v: Seq<char>| #[trigger]
                space::bytes_on(plan.operations, v) > 0 ==> available.contains_key(v) && (
                available[v] == u64::MAX || available[v] >= space::bytes_on(plan.operations, v)
                    + space::bytes_on(plan.operations, v) / 10)
            &&& r.succeeded == 0 && r.failed == 0 && r.refused_ops == 0
        }),
{
    let ops = plan.operations;
    law_pending_work_is_counted(ops);
    space::law_refused_exactly_where_short(ops, available);
    crate::seqs::lemma_filter_members(
        ops,
        |op: OperationView|
            op.status == OperationStatus::Pending || op.status == OperationStatus::Failed,
    );
}

fn count_pending(operations: &Vec<Operation>) -> (n: usize)
    ensures
        n == pending_count(operations.deep_view()),
{
    let ghost ops = operations.deep_view();
    let mut n: usize = 0;
    let mut i: usize = 0;
    while i < operations.len()
        invariant
            n <= i <= operations@.len(),
            ops == operations.deep_view(),
            n == pending_count(ops.take(i as int)),
        decreases operations@.len() - i,
    {
        proof {
            assert(ops.take(i + 1).drop_last() =~= ops.take(i as int));
        }
        if operations[i].status.is_remaining_work() {
            n = n + 1;
        }
        i = i + 1;
    }
    proof {
        assert(ops.take(i as int) =~= ops);
    }
    n
}

fn plan_started(operations: &Vec<Operation>) -> (r: bool)
    ensures
        r == started(operations.deep_view()),
{
    let ghost ops = operations.deep_view();
    let mut i: usize = 0;
    while i < operations.len()
        invariant
            i <= operations@.len(),
            ops == operations.deep_view(),
            forall|j: int| 0 <= j < i ==> (#[trigger] ops[j]).status is Pending,
        decreases operations@.len() - i,
    {
        if operations[i].status != OperationStatus::Pending {
            proof {
                assert(!(ops[i as int].status is Pending));
            }
            return true;
        }
        i = i + 1;
    }
    false
}

/// Looks at a plan before it is applied: whether it is stale, whether it fits, and
/// whether a real run is refused on that account, before anything is touched.
pub fn prepare(
    plan: &Plan,
    opts: ApplyRunOptions,
    state_hash: &str,
    available: &SortedMap<String, u64>,
) -> (r: ApplyReport)
    ensures
        r.deep_view() == readiness(
            opts,
            plan.deep_view(),
            state_hash@ != plan.state_hash@,
            available@,
        ),
{
    let stale = !text::str_eq(state_hash, plan.state_hash.as_str());
    let (disk_ok, disk_detail): (bool, Option<String>) = match check_disk_space(plan, available) {
        Ok(_) => (true, None),
        Err(e) => (false, Some(e.message())),
    };
    let total_ops: usize = plan.operations.len();
    let pending = count_pending(&plan.operations);
    let refused: Option<String> = if opts.dry_run {
        None
    } else if stale && !plan_started(&plan.operations) {
        Some(
            "Plan is stale: the catalogue changed since it was generated. Run `cat198x plan` to regenerate it.".to_owned(),
        )
    } else if !disk_ok && !opts.skip_space_check {
        match &disk_detail {
            Some(detail) => Some(text::concat2("Not enough disk space: ", detail.as_str())),
            None => None,
        }
    } else {
        None
    };
    ApplyReport {
        stale,
        disk_ok,
        disk_detail,
        total_ops,
        pending,
        total_bytes: plan.summary.total_bytes,
        by_kind: SortedMap::new(),
        dry_run: opts.dry_run,
        refused,
        succeeded: 0,
        failed: 0,
        refused_ops: 0,
    }
}

/// The running figures of an apply.
pub struct Progress {
    pub done: usize,
    pub bytes_done: u64,
    pub by_kind: SortedMap<String, usize>,
    pub total_ops: usize,
    pub total_bytes: u64,
}

#[verifier::ext_equal]
pub struct FiguresView {
    pub done: usize,
    pub bytes_done: u64,
    pub by_kind: Map<Seq<char>, usize>,
    pub total_ops: usize,
    pub total_bytes: u64,
}

impl DeepView for Progress {
    type V = FiguresView;

    open spec fn deep_view(&self) -> FiguresView {
        FiguresView {
            done: self.done,
            bytes_done: self.bytes_done,
            by_kind: self.by_kind@,
            total_ops: self.total_ops,
            total_bytes: self.total_bytes,
        }
    }
}

/// One more operation with a verb.
pub open spec fn one_more(by_kind: Map<Seq<char>, usize>, verb: Seq<char>) -> Map<
    Seq<char>,
    usize,
> {
    let had: usize = if by_kind.contains_key(verb) {
        by_kind[verb]
    } else {
        0
    };
    by_kind.insert(verb, had.saturating_add(1))
}

/// The figures after an event: a start is counted by its verb, an end by itself,
/// and bytes only once an operation completed.
pub open spec fn figures_after(f: FiguresView, e: EventView) -> FiguresView {
    match e {
        EventView::OpStarted { op, .. } => FiguresView {
            by_kind: one_more(f.by_kind, op.verb),
            ..f
        },
        EventView::OpFinished { op, status, .. } => FiguresView {
            done: f.done.saturating_add(1),
            bytes_done: if status is Completed {
                f.bytes_done.saturating_add(op.bytes)
            } else {
                f.bytes_done
            },
            ..f
        },
        _ => f,
    }
}

/// The word for what came of an operation.
pub open spec fn outcome_word(s: OperationStatus) -> Seq<char> {
    match s {
        OperationStatus::Completed => "ok"@,
        OperationStatus::Refused => "refused"@,
        _ => "failed"@,
    }
}

/// An update on an operation.
pub open spec fn update_on(
    f: FiguresView,
    op: ShownView,
    slot: Option<usize>,
    finished: bool,
    outcome: Option<Seq<char>>,
    detail: Option<Seq<char>>,
) -> ProgressView {
    ProgressView {
        done: f.done,
        total: f.total_ops,
        jobs: APPLY_JOBS,
        slot,
        finished,
        verb: op.verb,
        from: op.from,
        to: op.to,
        bytes: op.bytes,
        bytes_done: f.bytes_done,
        bytes_total: f.total_bytes,
        outcome,
        detail,
        reason: op.reason,
    }
}

/// The update that an event gives, with the figures after it.
pub open spec fn update_for(f: FiguresView, e: EventView) -> Option<ProgressView> {
    match e {
        EventView::OpStarted { op, slot, .. } => Some(
            update_on(f, op, slot, false, None, None),
        ),
        EventView::OpFinished { op, slot, status, detail, .. } => Some(
            update_on(f, op, slot, true, Some(outcome_word(status)), detail),
        ),
        _ => None,
    }
}

/// Bytes never run ahead of the disk: only the end of a completed operation adds
/// to them, and no event takes any away.
pub proof fn law_bytes_count_on_completion(f: FiguresView, e: EventView)
    ensures
        figures_after(f, e).bytes_done >= f.bytes_done,
        figures_after(f, e).done >= f.done,
        figures_after(f, e).bytes_done != f.bytes_done ==> (e matches EventView::OpFinished {
            status,
            ..
        } && status is Completed),
{
}

/// A start counts one operation of its verb, and no other; an end counts one done,
/// and its bytes exactly where it completed. The word for it tells the three apart.
pub proof fn law_figures_follow_events(f: FiguresView, e: EventView, verb: Seq<char>)
    requires
        f.done < usize::MAX,
        f.by_kind.contains_key(verb) ==> f.by_kind[verb] < usize::MAX,
    ensures
        e matches EventView::OpStarted { op, .. } ==> {
            let after = figures_after(f, e);
            &&& after.done == f.done && after.bytes_done == f.bytes_done
            &&& op.verb == verb ==> after.by_kind.contains_key(verb) && after.by_kind[verb] == (
            if f.by_kind.contains_key(verb) {
                f.by_kind[verb] as int
            } else {
                0
            }) + 1
            &&& op.verb != verb ==> (after.by_kind.contains_key(verb) == f.by_kind.contains_key(
                verb,
            )) && (f.by_kind.contains_key(verb) ==> after.by_kind[verb] == f.by_kind[verb])
        },
        e matches EventView::OpFinished { op, status, .. } ==> {
            let after = figures_after(f, e);
            &&& after.done == f.done + 1
            &&& after.by_kind == f.by_kind
            &&& status == OperationStatus::Completed && f.bytes_done + op.bytes <= u64::MAX
                ==> after.bytes_done == f.bytes_done + op.bytes
            &&& status != OperationStatus::Completed ==> after.bytes_done == f.bytes_done
        },
        !(e is OpStarted) && !(e is OpFinished) ==> figures_after(f, e) == f,
        outcome_word(OperationStatus::Completed) == "ok"@,
        outcome_word(OperationStatus::Refused) == "refused"@,
        outcome_word(OperationStatus::Failed) == "failed"@,
{
}

/// An update shows the operation that the event is about, with the figures so far; it
/// is finished with an outcome exactly where the operation has ended.
pub proof fn law_updates_show_the_operation(f: FiguresView, e: EventView)
    ensures
        update_for(f, e) is Some <==> e is OpStarted || e is OpFinished,
        update_for(f, e) matches Some(u) ==> {
            &&& u.done == f.done && u.total == f.total_ops
            &&& u.bytes_done == f.bytes_done && u.bytes_total == f.total_bytes
            &&& u.finished <==> e is OpFinished
            &&& u.outcome is Some <==> e is OpFinished
            &&& e matches EventView::OpStarted { op, slot, .. } ==> u.slot == slot && u.verb
                == op.verb && u.from == op.from && u.to == op.to && u.bytes == op.bytes && u.reason
                == op.reason && u.detail is None
            &&& e matches EventView::OpFinished { op, slot, detail, status, .. } ==> u.slot == slot
                && u.verb == op.verb && u.from == op.from && u.to == op.to && u.bytes == op.bytes
                && u.reason == op.reason && u.detail == detail && u.outcome == Some(
                match status {
                    OperationStatus::Completed => "ok"@,
                    OperationStatus::Refused => "refused"@,
                    _ => outcome_word(status),
                },
            )
        },
{
}

impl Progress {
    /// The figures of an apply that has not begun.
    pub fn new(plan: &Plan) -> (r: Self)
        ensures
            r.deep_view() == (FiguresView {
                done: 0,
                bytes_done: 0,
                by_kind: Map::empty(),
                total_ops: plan.operations@.len() as usize,
                total_bytes: plan.summary.total_bytes,
            }),
    {
        Progress {
            done: 0,
            bytes_done: 0,
            by_kind: SortedMap::new(),
            total_ops: plan.operations.len(),
            total_bytes: plan.summary.total_bytes,
        }
    }

    /// Takes in an event, and gives the update to show, if any.
    pub fn observe(&mut self, event: &ApplyEvent) -> (r: Option<ApplyProgress>)
        ensures
            final(self).deep_view() == figures_after(old(self).deep_view(), event.deep_view()),
            r.deep_view() == update_for(final(self).deep_view(), event.deep_view()),
    {
        match event {
            ApplyEvent::OpStarted { index: _, total: _, slot, op } => {
                let verb = op.verb.to_owned();
                let had: usize = match self.by_kind.get(&verb) {
                    Some(n) => *n,
                    None => 0,
                };
                self.by_kind.insert(verb, had.saturating_add(1));
                Some(
                    ApplyProgress {
                        done: self.done,
                        total: self.total_ops,
                        jobs: APPLY_JOBS,
                        slot: *slot,
                        finished: false,
                        verb: op.verb.to_owned(),
                        from: op.from.clone(),
                        to: text::clone_opt(&op.to),
                        bytes: op.bytes,
                        bytes_done: self.bytes_done,
                        bytes_total: self.total_bytes,
                        outcome: None,
                        detail: None,
                        reason: text::clone_opt(&op.reason),
                    },
                )
            },
            ApplyEvent::OpFinished { index: _, slot, op, status, detail } => {
                self.done = self.done.saturating_add(1);
                let word = match status {
                    OperationStatus::Completed => {
                        self.bytes_done = self.bytes_done.saturating_add(op.bytes);
                        "ok"
                    },
                    OperationStatus::Refused => "refused",
                    _ => "failed",
                };
                Some(
                    ApplyProgress {
                        done: self.done,
                        total: self.total_ops,
                        jobs: APPLY_JOBS,
                        slot: *slot,
                        finished: true,
                        verb: op.verb.to_owned(),
                        from: op.from.clone(),
                        to: text::clone_opt(&op.to),
                        bytes: op.bytes,
                        bytes_done: self.bytes_done,
                        bytes_total: self.total_bytes,
                        outcome: Some(word.to_owned()),
                        detail: text::clone_opt(detail),
                        reason: text::clone_opt(&op.reason),
                    },
                )
            },
            _ => None,
        }
    }

    /// The report after an apply that was not refused.
    pub fn report(self, before: ApplyReport, outcome: &ApplyOutcome) -> (r: ApplyReport)
        ensures
            r.deep_view() == (ReportView {
                by_kind: self.deep_view().by_kind,
                succeeded: outcome.success_count,
                failed: outcome.error_count,
                refused_ops: outcome.refused_count,
                ..before.deep_view()
            }),
    {
        ApplyReport {
            stale: before.stale,
            disk_ok: before.disk_ok,
            disk_detail: before.disk_detail,
            total_ops: before.total_ops,
            pending: before.pending,
            total_bytes: before.total_bytes,
            by_kind: self.by_kind,
            dry_run: before.dry_run,
            refused: before.refused,
            succeeded: outcome.success_count,
            failed: outcome.error_count,
            refused_ops: outcome.refused_count,
        }
    }
}

} // verus!
