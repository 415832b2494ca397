//! What holds of a run as a whole, from its start over every step and every
//! settlement.

use super::runner;
use super::runner::{NextStep, Route, RunView, Verdict};
use crate::plan::types::{OperationView, PlanView};
use vstd::prelude::*;

verus! {

/// Where a run stands.
pub struct Standing {
    pub plan: PlanView,
    pub run: RunView,
    /// The operations that were handed out and have not come back
    pub out: Set<int>,
    /// The operations that were settled, in the order in which they were
    pub settled: Seq<int>,
    /// Whether nothing is left to hand out
    pub over: bool,
}

/// What happens in a run.
pub enum Turn {
    /// The run goes on to a state, with what is to be done next
    Step(NextStep, RunView),
    /// An operation comes back, with a verdict
    Settle(int, Verdict),
}

/// The operations of the jobs that a run has gathered.
pub open spec fn gathered(run: RunView) -> Set<int> {
    Set::new(
        |i: int|
            (exists|k: int|
                0 <= k < run.placements.len() && (#[trigger] run.placements[k]).plan_index == i)
                || (exists|k: int|
                0 <= k < run.repacks.len() && (#[trigger] run.repacks[k]).plan_index == i),
    )
}

/// Whether a turn leads from one standing to another. The run goes on only once all
/// that was handed out has come back. On a dry run the plan stays as it is, and
/// every operation counts as completed.
pub open spec fn turned(
    s: Standing,
    turn: Turn,
    t: Standing,
    dry_run: bool,
    skip_repack: bool,
) -> bool {
    match turn {
        Turn::Step(r, run) => {
            &&& !s.over && s.out == Set::<int>::empty()
            &&& runner::stepped(s.run, run, s.plan.operations, dry_run, skip_repack, r)
            &&& t.plan == s.plan && t.settled == s.settled
            &&& match r {
                NextStep::Serial(i) => t.run == run && t.out == set![i as int] && !t.over,
                NextStep::Batches => t.run == runner::emptied(run) && t.out == gathered(run)
                    && !t.over,
                NextStep::Finish => t.run == run && t.out == Set::<int>::empty() && t.over,
            }
        },
        Turn::Settle(i, v) => {
            &&& s.out.contains(i)
            &&& t.out == s.out.remove(i) && t.settled == s.settled.push(i) && t.over == s.over
            &&& if dry_run {
                v is Completed && t.plan == s.plan && t.run == runner::tallied(s.run, v)
            } else {
                runner::settled_as(s.run, t.run, s.plan, t.plan, i, v)
            }
        },
    }
}

/// Where a run over a plan starts.
pub open spec fn at_start(s: Standing, plan: PlanView) -> bool {
    &&& s.plan == plan
    &&& s.run.next == 0 && s.run.placements.len() == 0 && s.run.repacks.len() == 0
    &&& s.run.success_count == 0 && s.run.error_count == 0 && s.run.refused_count == 0
    &&& s.out == Set::<int>::empty() && s.settled.len() == 0 && !s.over
}

/// Whether a run over a plan took some turns, through some standings.
pub open spec fn ran(
    plan: PlanView,
    dry_run: bool,
    skip_repack: bool,
    turns: Seq<Turn>,
    standings: Seq<Standing>,
) -> bool {
    &&& standings.len() == turns.len() + 1
    &&& at_start(standings[0], plan)
    &&& forall|i: int|
        0 <= i < turns.len() ==> turned(
            #[trigger] standings[i],
            turns[i],
            standings[i + 1],
            dry_run,
            skip_repack,
        )
}

/// Whether an operation is to be done in a run.
pub open spec fn due(
    ops: Seq<OperationView>,
    dry_run: bool,
    skip_repack: bool,
    i: int,
) -> bool {
    0 <= i < ops.len() && !(runner::route_of(ops[i], dry_run, skip_repack) is Skip)
}

/// What holds at every standing.
spec fn kept(
    plan: PlanView,
    dry_run: bool,
    skip_repack: bool,
    s: Standing,
) -> bool {
    let ops = plan.operations;
    &&& s.plan.operations.len() == ops.len()
    &&& s.run.next <= ops.len()
    &&& s.run.placements.len() == 0 && s.run.repacks.len() == 0
    &&& s.settled.no_duplicates()
    &&& forall|i: int| #[trigger]
        s.out.contains(i) ==> !s.settled.contains(i) && due(ops, dry_run, skip_repack, i) && i
            < s.run.next
    &&& forall|i: int| #[trigger]
        s.settled.contains(i) ==> due(ops, dry_run, skip_repack, i) && i < s.run.next
    &&& forall|i: int|
        0 <= i < s.run.next && #[trigger] due(ops, dry_run, skip_repack, i) ==> s.out.contains(i)
            || s.settled.contains(i)
    &&& forall|i: int|
        0 <= i < ops.len() && !s.settled.contains(i) ==> #[trigger] s.plan.operations[i] == ops[i]
    &&& s.run.success_count + s.run.error_count + s.run.refused_count == s.settled.len()
    &&& s.over ==> s.run.next == ops.len() && s.out == Set::<int>::empty()
}

/// The gathered jobs are those of the operations that are routed to the workers.
proof fn lemma_gathered(
    ops: Seq<OperationView>,
    dry_run: bool,
    skip_repack: bool,
    a: int,
    b: int,
    run: RunView,
)
    requires
        0 <= a <= b <= ops.len(),
        ops.len() <= usize::MAX,
        run.placements == runner::placements_between(ops, dry_run, skip_repack, a, b),
        run.repacks == runner::repacks_between(ops, dry_run, skip_repack, a, b),
    ensures
        forall|i: int| #[trigger]
            gathered(run).contains(i) <==> a <= i < b && {
                let way = runner::route_of(ops[i], dry_run, skip_repack);
                way is Placement || way is Repack
            },
    decreases b - a,
{
    if a < b {
        let before = RunView {
            placements: runner::placements_between(ops, dry_run, skip_repack, a, b - 1),
            repacks: runner::repacks_between(ops, dry_run, skip_repack, a, b - 1),
            ..run
        };
        lemma_gathered(ops, dry_run, skip_repack, a, b - 1, before);
        let way = runner::route_of(ops[b - 1], dry_run, skip_repack);
        assert forall|i: int| #[trigger] gathered(run).contains(i) <==> a <= i < b && {
            let w = runner::route_of(ops[i], dry_run, skip_repack);
            w is Placement || w is Repack
        } by {
            assert(gathered(before).contains(i) <==> a <= i < b - 1 && {
                let w = runner::route_of(ops[i], dry_run, skip_repack);
                w is Placement || w is Repack
            });
            let np = before.placements.len() as int;
            let nr = before.repacks.len() as int;
            if gathered(before).contains(i) {
                if exists|k: int|
                    0 <= k < np && (#[trigger] before.placements[k]).plan_index == i {
                    let k = choose|k: int|
                        0 <= k < np && (#[trigger] before.placements[k]).plan_index == i;
                    assert(run.placements[k].plan_index == i);
                } else {
                    let k = choose|k: int|
                        0 <= k < nr && (#[trigger] before.repacks[k]).plan_index == i;
                    assert(run.repacks[k].plan_index == i);
                }
            }
            if i == b - 1 && way is Placement {
                assert(run.placements[np].plan_index == i);
            }
            if i == b - 1 && way is Repack {
                assert(run.repacks[nr].plan_index == i);
            }
            if gathered(run).contains(i) {
                if exists|k: int|
                    0 <= k < run.placements.len() && (
                    #[trigger] run.placements[k]).plan_index == i {
                    let k = choose|k: int|
                        0 <= k < run.placements.len() && (
                        #[trigger] run.placements[k]).plan_index == i;
                    if k < np {
                        assert(before.placements[k].plan_index == i);
                    } else {
                        assert(i == b - 1);
                    }
                } else {
                    let k = choose|k: int|
                        0 <= k < run.repacks.len() && (#[trigger] run.repacks[k]).plan_index == i;
                    if k < nr {
                        assert(before.repacks[k].plan_index == i);
                    } else {
                        assert(i == b - 1);
                    }
                }
            }
        }
    }
}

/// Where none is counted, none is there.
proof fn lemma_none_routed(
    ops: Seq<OperationView>,
    dry_run: bool,
    skip_repack: bool,
    way: Route,
    a: int,
    b: int,
)
    requires
        runner::routed(ops, dry_run, skip_repack, way, a, b) == 0,
    ensures
        forall|i: int|
            a <= i < b ==> runner::route_of(#[trigger] ops[i], dry_run, skip_repack) != way,
    decreases b - a,
{
    if a < b {
        lemma_none_routed(ops, dry_run, skip_repack, way, a, b - 1);
    }
}

/// What is routed goes by the operations alone.
proof fn lemma_same_routes(
    p: Seq<OperationView>,
    q: Seq<OperationView>,
    dry_run: bool,
    skip_repack: bool,
    way: Route,
    a: int,
    b: int,
)
    requires
        0 <= a,
        forall|i: int| a <= i < b ==> #[trigger] p[i] == q[i],
    ensures
        runner::routed(p, dry_run, skip_repack, way, a, b) == runner::routed(
            q,
            dry_run,
            skip_repack,
            way,
            a,
            b,
        ),
        runner::placements_between(p, dry_run, skip_repack, a, b) == runner::placements_between(
            q,
            dry_run,
            skip_repack,
            a,
            b,
        ),
        runner::repacks_between(p, dry_run, skip_repack, a, b) == runner::repacks_between(
            q,
            dry_run,
            skip_repack,
            a,
            b,
        ),
    decreases b - a,
{
    if a < b {
        lemma_same_routes(p, q, dry_run, skip_repack, way, a, b - 1);
        assert(p[b - 1] == q[b - 1]);
    }
}

/// Distinct positions below a bound are no more than the bound.
proof fn lemma_distinct_below(s: Seq<int>, n: nat)
    requires
        s.no_duplicates(),
        forall|i: int| #[trigger] s.contains(i) ==> 0 <= i < n,
    ensures
        s.len() <= n,
{
    s.unique_seq_to_set();
    vstd::set_lib::lemma_int_range(0, n as int);
    let all = vstd::set_lib::set_int_range(0, n as int);
    assert forall|i: int| #[trigger] s.to_set().contains(i) implies all.contains(i) by {
        assert(s.contains(i));
    }
    vstd::set_lib::lemma_len_subset(s.to_set(), all);
}

/// The operations that are due are those that are not left alone.
proof fn lemma_due_count(
    ops: Seq<OperationView>,
    dry_run: bool,
    skip_repack: bool,
    n: int,
    set: Set<int>,
)
    requires
        0 <= n <= ops.len(),
        set.finite(),
        forall|i: int| #[trigger]
            set.contains(i) <==> i < n && due(ops, dry_run, skip_repack, i),
    ensures
        set.len() + runner::routed(ops, dry_run, skip_repack, Route::Skip, 0, n) == n,
    decreases n,
{
    if n == 0 {
        assert(set =~= Set::<int>::empty());
    } else {
        let less = set.remove(n - 1);
        lemma_due_count(ops, dry_run, skip_repack, n - 1, less);
        if !due(ops, dry_run, skip_repack, n - 1) {
            assert(less =~= set);
        }
    }
}

proof fn lemma_step_keeps(
    plan: PlanView,
    dry_run: bool,
    skip_repack: bool,
    s: Standing,
    r: NextStep,
    run: RunView,
    t: Standing,
)
    requires
        plan.operations.len() <= usize::MAX,
        kept(plan, dry_run, skip_repack, s),
        turned(s, Turn::Step(r, run), t, dry_run, skip_repack),
    ensures
        kept(plan, dry_run, skip_repack, t),
{
    let ops = plan.operations;
    let now = s.plan.operations;
    let a = s.run.next as int;
    let b = run.next as int;
    assert forall|i: int| a <= i < b implies #[trigger] now[i] == ops[i] by {
        if s.settled.contains(i) {
            assert(i < s.run.next);
        }
    }
    lemma_same_routes(now, ops, dry_run, skip_repack, Route::Serial, a, b);
    assert(run.placements =~= runner::placements_between(ops, dry_run, skip_repack, a, b));
    assert(run.repacks =~= runner::repacks_between(ops, dry_run, skip_repack, a, b));
    lemma_gathered(ops, dry_run, skip_repack, a, b, run);
    let last = if r is Serial {
        b - 1
    } else {
        b
    };
    lemma_same_routes(now, ops, dry_run, skip_repack, Route::Serial, a, last);
    lemma_none_routed(ops, dry_run, skip_repack, Route::Serial, a, last);
    if r is Serial {
        assert(now[b - 1] == ops[b - 1]);
    }
    assert forall|i: int| #[trigger] t.out.contains(i) <==> a <= i < b && due(
        ops,
        dry_run,
        skip_repack,
        i,
    ) by {
        if a <= i < b {
            assert(gathered(run).contains(i) <==> {
                let way = runner::route_of(ops[i], dry_run, skip_repack);
                way is Placement || way is Repack
            });
            if i < last {
                assert(runner::route_of(ops[i], dry_run, skip_repack) != Route::Serial);
            }
        }
        assert(gathered(run).contains(i) ==> a <= i < b);
    }
    assert forall|i: int| #[trigger] t.out.contains(i) implies !t.settled.contains(i) && due(
        ops,
        dry_run,
        skip_repack,
        i,
    ) && i < t.run.next by {
        if s.settled.contains(i) {
            assert(i < s.run.next);
        }
    }
    assert forall|i: int| 0 <= i < t.run.next && #[trigger] due(
        ops,
        dry_run,
        skip_repack,
        i,
    ) implies t.out.contains(i) || t.settled.contains(i) by {
        if i < a {
            assert(!s.out.contains(i));
        }
    }
}

proof fn lemma_settlement_keeps(
    plan: PlanView,
    dry_run: bool,
    skip_repack: bool,
    s: Standing,
    i: int,
    v: Verdict,
    t: Standing,
)
    requires
        plan.operations.len() <= usize::MAX,
        kept(plan, dry_run, skip_repack, s),
        turned(s, Turn::Settle(i, v), t, dry_run, skip_repack),
    ensures
        kept(plan, dry_run, skip_repack, t),
{
    let ops = plan.operations;
    assert(s.out.contains(i));
    assert(!s.settled.contains(i) && due(ops, dry_run, skip_repack, i));
    assert forall|k: int| #[trigger] t.settled.contains(k) <==> s.settled.contains(k) || k == i by {
        if s.settled.contains(k) {
            let j = choose|j: int| 0 <= j < s.settled.len() && s.settled[j] == k;
            assert(t.settled[j] == k);
        }
        if k == i {
            assert(t.settled[s.settled.len() as int] == k);
        }
        if t.settled.contains(k) && k != i {
            let j = choose|j: int| 0 <= j < t.settled.len() && t.settled[j] == k;
            assert(s.settled[j] == k);
        }
    }
    assert(t.settled.no_duplicates()) by {
        assert forall|x: int, y: int| 0 <= x < t.settled.len() && 0 <= y < t.settled.len() && x
            != y implies t.settled[x] != t.settled[y] by {
            if x < s.settled.len() {
                assert(s.settled.contains(s.settled[x]));
            }
            if y < s.settled.len() {
                assert(s.settled.contains(s.settled[y]));
            }
        }
    }
    assert forall|k: int| #[trigger] t.settled.contains(k) implies 0 <= k < ops.len() by {
        if k != i {
            assert(s.settled.contains(k));
        }
    }
    lemma_distinct_below(t.settled, ops.len());
    assert forall|k: int| 0 <= k < ops.len() && !t.settled.contains(k) implies
        #[trigger] t.plan.operations[k] == ops[k] by {
        assert(!s.settled.contains(k) && k != i);
        assert(s.plan.operations[k] == ops[k]);
    }
    assert forall|k: int| 0 <= k < t.run.next && #[trigger] due(
        ops,
        dry_run,
        skip_repack,
        k,
    ) implies t.out.contains(k) || t.settled.contains(k) by {
        assert(s.out.contains(k) || s.settled.contains(k));
    }
    assert forall|k: int| #[trigger] t.out.contains(k) implies !t.settled.contains(k) && due(
        ops,
        dry_run,
        skip_repack,
        k,
    ) && k < t.run.next by {
        assert(s.out.contains(k));
    }
}

proof fn lemma_run_keeps(
    plan: PlanView,
    dry_run: bool,
    skip_repack: bool,
    turns: Seq<Turn>,
    standings: Seq<Standing>,
)
    requires
        plan.operations.len() <= usize::MAX,
        ran(plan, dry_run, skip_repack, turns, standings),
    ensures
        kept(plan, dry_run, skip_repack, standings.last()),
    decreases turns.len(),
{
    if turns.len() > 0 {
        let n = turns.len() - 1;
        let before = turns.drop_last();
        let so_far = standings.drop_last();
        assert forall|i: int| 0 <= i < before.len() implies turned(
            #[trigger] so_far[i],
            before[i],
            so_far[i + 1],
            dry_run,
            skip_repack,
        ) by {
            assert(so_far[i] == standings[i]);
        }
        lemma_run_keeps(plan, dry_run, skip_repack, before, so_far);
        let s = standings[n];
        let t = standings[n + 1];
        assert(turned(s, turns[n], t, dry_run, skip_repack));
        match turns[n] {
            Turn::Step(r, run) => {
                lemma_step_keeps(plan, dry_run, skip_repack, s, r, run, t);
            },
            Turn::Settle(i, v) => {
                lemma_settlement_keeps(plan, dry_run, skip_repack, s, i, v, t);
            },
        }
    }
}

/// Over a whole run every operation that is due is settled exactly once, and no
/// other one is touched. Successes, failures and refusals add up to what was
/// settled; once the run is over, that is every operation that was due.
pub proof fn law_every_due_operation_is_settled_once(
    plan: PlanView,
    dry_run: bool,
    skip_repack: bool,
    turns: Seq<Turn>,
    standings: Seq<Standing>,
)
    requires
        plan.operations.len() <= usize::MAX,
        ran(plan, dry_run, skip_repack, turns, standings),
    ensures
        ({
            let s = standings.last();
            let ops = plan.operations;
            let counted = s.run.success_count + s.run.error_count + s.run.refused_count;
            &&& s.settled.no_duplicates()
            &&& counted == s.settled.len()
            &&& forall|i: int| #[trigger]
                s.settled.contains(i) ==> due(ops, dry_run, skip_repack, i)
            &&& s.over ==> forall|i: int| #[trigger]
                due(ops, dry_run, skip_repack, i) ==> s.settled.contains(i)
            &&& s.over ==> counted + runner::routed(
                ops,
                dry_run,
                skip_repack,
                Route::Skip,
                0,
                ops.len() as int,
            ) == ops.len()
            &&& s.plan.operations.len() == ops.len()
            &&& forall|i: int|
                0 <= i < ops.len() && !s.settled.contains(i) ==> #[trigger] s.plan.operations[i]
                    == ops[i]
        }),
{
    lemma_run_keeps(plan, dry_run, skip_repack, turns, standings);
    let s = standings.last();
    let ops = plan.operations;
    if s.over {
        assert forall|i: int| #[trigger] due(ops, dry_run, skip_repack, i) implies
            s.settled.contains(i) by {
            assert(s.out.contains(i) || s.settled.contains(i));
        }
        s.settled.unique_seq_to_set();
        vstd::seq_lib::seq_to_set_is_finite(s.settled);
        assert forall|i: int| #[trigger] s.settled.to_set().contains(i) <==> i < ops.len() && due(
            ops,
            dry_run,
            skip_repack,
            i,
        ) by {
            assert(s.settled.to_set().contains(i) <==> s.settled.contains(i));
        }
        lemma_due_count(ops, dry_run, skip_repack, ops.len() as int, s.settled.to_set());
    }
}

} // verus!
