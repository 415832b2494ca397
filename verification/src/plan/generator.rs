//! Plan generation: every collection in scope, then the containers to drain.

use super::collection_planning;
use super::collection_planning::{
    plan_collection, CollectionPlanningContext, CollectionPlanningOutcome, ContextView, Draft,
    OutcomeView,
};
use super::collection_scope;
use super::collection_scope::{CollectionFacts, FactsView};
use super::collisions;
use super::collisions::check_unique_destinations;
use super::container_drains;
use super::container_drains::ContainerDrains;
use super::error::{PlanError, PlanErrorView};
use super::options;
use super::options::{collection_name_matches, OptionsView, PlanOptions};
use super::rules::OutputFormat;
use super::types;
use super::types::{Plan, PlanView};
use crate::clock;
use crate::db::dats::MergeMode;
use crate::db::files::Disposition;
use crate::sorted_map::{SortedMap, SortedSet};
use vstd::prelude::*;

verus! {

/// A plan with a collection's outcome noted, where it was skipped.
pub open spec fn noted(p: PlanView, outcome: OutcomeView) -> PlanView {
    match outcome {
        OutcomeView::SkippedNoDest(name) => PlanView {
            skipped_no_dest: p.skipped_no_dest.push(name),
            ..p
        },
        OutcomeView::SkippedOversized(s) => PlanView {
            skipped_oversized: p.skipped_oversized.push(s),
            ..p
        },
        _ => p,
    }
}

/// A draft with the collections planned one after the other, or the first reason
/// why one of them cannot be planned.
pub open spec fn drafted(start: Draft, facts: Seq<FactsView>, ctx: ContextView) -> Result<
    Draft,
    PlanErrorView,
>
    decreases facts.len(),
{
    if facts.len() == 0 {
        Ok(start)
    } else {
        match drafted(start, facts.drop_last(), ctx) {
            Err(e) => Err(e),
            Ok(d) => if !options::name_wanted(facts.last().name, ctx.opts) {
                Ok(d)
            } else {
                match collection_planning::collection_plan(d, facts.last(), ctx) {
                    Err(e) => Err(e),
                    Ok((next, outcome)) => Ok(Draft { plan: noted(next.plan, outcome), ..next }),
                }
            },
        }
    }
}

/// The plan for some collections: refused where two of them share a destination;
/// else their placements in order, and at the very end the containers to drain.
pub open spec fn planned(start: PlanView, facts: Seq<FactsView>, ctx: ContextView) -> Result<
    PlanView,
    PlanErrorView,
> {
    match collisions::uniqueness(facts, ctx.opts) {
        Err(e) => Err(e),
        Ok(_) => match drafted(Draft { plan: start, drains: Map::empty() }, facts, ctx) {
            Err(e) => Err(e),
            Ok(d) => Ok(
                types::with_kinds(d.plan, container_drains::drain_kinds(d.drains)),
            ),
        },
    }
}

/// How many collections are in scope: let in by both filters, with an active
/// version.
pub open spec fn in_scope(facts: Seq<FactsView>, ctx: ContextView) -> nat
    decreases facts.len(),
{
    if facts.len() == 0 {
        0
    } else {
        let f = facts.last();
        in_scope(facts.drop_last(), ctx) + (if options::name_wanted(f.name, ctx.opts)
            && f.version_id is Some && options::set_wanted(
            collection_scope::hierarchy_of(f),
            ctx.opts,
        ) {
            1nat
        } else {
            0nat
        })
    }
}

/// No collection in scope is passed over in silence: each is either planned, or
/// noted as skipped for want of a destination, or noted as oversized.
pub proof fn law_every_collection_is_accounted_for(
    start: Draft,
    facts: Seq<FactsView>,
    ctx: ContextView,
)
    requires
        drafted(start, facts, ctx) is Ok,
    ensures
        ({
            let d = drafted(start, facts, ctx)->Ok_0;
            d.plan.per_collection.len() + d.plan.skipped_no_dest.len()
                + d.plan.skipped_oversized.len() == start.plan.per_collection.len()
                + start.plan.skipped_no_dest.len() + start.plan.skipped_oversized.len() + in_scope(
                facts,
                ctx,
            )
        }),
    decreases facts.len(),
{
    if facts.len() > 0 {
        law_every_collection_is_accounted_for(start, facts.drop_last(), ctx);
        let d = drafted(start, facts.drop_last(), ctx)->Ok_0;
        let f = facts.last();
        if options::name_wanted(f.name, ctx.opts) {
            let (next, outcome) = collection_planning::collection_plan(d, f, ctx)->Ok_0;
            if outcome is Planned {
                let scope = collection_scope::scope_of(f, ctx.opts)->Ok_0;
                let root = scope->Resolved_dest_root->0;
                let p = collection_planning::content_plan(
                    collection_planning::filtered(f),
                    collection_planning::format_for(f, ctx.opts),
                    root,
                    ctx,
                )->Ok_0;
                lemma_kinds_keep_notes(d.plan, p.kinds);
            }
        }
    }
}

/// A collection that the name filter leaves out has no part in a plan: the plan is
/// the one that is made without it.
pub proof fn law_filtered_collections_have_no_part(
    start: Draft,
    facts: Seq<FactsView>,
    ctx: ContextView,
)
    ensures
        drafted(start, facts, ctx) == drafted(
            start,
            facts.filter(|f: FactsView| options::name_wanted(f.name, ctx.opts)),
            ctx,
        ),
    decreases facts.len(),
{
    let keep = |f: FactsView| options::name_wanted(f.name, ctx.opts);
    reveal(Seq::filter);
    if facts.len() > 0 {
        let rest = facts.drop_last();
        law_filtered_collections_have_no_part(start, rest, ctx);
        if keep(facts.last()) {
            assert(facts.filter(keep).drop_last() =~= rest.filter(keep));
            assert(facts.filter(keep).last() == facts.last());
        } else {
            assert(facts.filter(keep) == rest.filter(keep));
        }
    }
}

/// The collections that a plan says were skipped for want of a destination are those
/// that are in scope and have none, and the oversized ones those that have one and
/// match too many rows, each reported by name.
pub proof fn law_skipped_collections_are_told(
    start: Draft,
    facts: Seq<FactsView>,
    ctx: ContextView,
    name: Seq<char>,
)
    requires
        drafted(start, facts, ctx) is Ok,
    ensures
        ({
            let d = drafted(start, facts, ctx)->Ok_0;
            &&& d.plan.skipped_no_dest.contains(name) <==> start.plan.skipped_no_dest.contains(name)
                || exists|i: int|
                0 <= i < facts.len() && (#[trigger] facts[i]).name == name && options::name_wanted(
                    name,
                    ctx.opts,
                ) && (collection_scope::scope_of(facts[i], ctx.opts) matches Ok(
                    collection_scope::ScopeView::Resolved { dest_root, .. },
                ) && dest_root is None)
            &&& d.plan.skipped_oversized.len() == start.plan.skipped_oversized.len()
                + facts.filter(
                |f: FactsView|
                    options::name_wanted(f.name, ctx.opts) && (collection_scope::scope_of(
                        f,
                        ctx.opts,
                    ) matches Ok(collection_scope::ScopeView::Resolved { dest_root, .. })
                        && dest_root is Some) && f.match_rows > 5000000,
            ).len()
        }),
    decreases facts.len(),
{
    let large = |f: FactsView|
        options::name_wanted(f.name, ctx.opts) && (collection_scope::scope_of(
            f,
            ctx.opts,
        ) matches Ok(collection_scope::ScopeView::Resolved { dest_root, .. }) && dest_root is Some)
            && f.match_rows > 5000000;
    reveal(Seq::filter);
    if facts.len() > 0 {
        let rest = facts.drop_last();
        law_skipped_collections_are_told(start, rest, ctx, name);
        let before = drafted(start, rest, ctx)->Ok_0;
        let d = drafted(start, facts, ctx)->Ok_0;
        let f = facts.last();
        assert(facts[facts.len() - 1] == f);
        assert(forall|i: int| 0 <= i < rest.len() ==> #[trigger] rest[i] == facts[i]);
        if options::name_wanted(f.name, ctx.opts) {
            let (next, outcome) = collection_planning::collection_plan(before, f, ctx)->Ok_0;
            collection_planning::law_collection_is_planned_or_reported(before, f, ctx);
            if outcome is Planned {
                let scope = collection_scope::scope_of(f, ctx.opts)->Ok_0;
                let root = scope->Resolved_dest_root->0;
                let p = collection_planning::content_plan(
                    collection_planning::filtered(f),
                    collection_planning::format_for(f, ctx.opts),
                    root,
                    ctx,
                )->Ok_0;
                lemma_kinds_keep_notes(before.plan, p.kinds);
            }
            if outcome is SkippedNoDest {
                let now = d.plan.skipped_no_dest;
                let had = before.plan.skipped_no_dest;
                assert(now == had.push(f.name));
                assert(now.contains(name) <==> had.contains(name) || name == f.name) by {
                    if now.contains(name) {
                        let j = choose|j: int| 0 <= j < now.len() && now[j] == name;
                        if j < had.len() {
                            assert(had[j] == name);
                        }
                    }
                    if had.contains(name) {
                        let j = choose|j: int| 0 <= j < had.len() && had[j] == name;
                        assert(now[j] == name);
                    }
                    assert(now[had.len() as int] == f.name);
                }
            } else {
                assert(d.plan.skipped_no_dest == before.plan.skipped_no_dest);
            }
        }
        if exists|i: int|
            0 <= i < facts.len() && (#[trigger] facts[i]).name == name && options::name_wanted(
                name,
                ctx.opts,
            ) && (collection_scope::scope_of(facts[i], ctx.opts) matches Ok(
                collection_scope::ScopeView::Resolved { dest_root, .. },
            ) && dest_root is None) {
            let i = choose|i: int|
                0 <= i < facts.len() && (#[trigger] facts[i]).name == name && options::name_wanted(
                    name,
                    ctx.opts,
                ) && (collection_scope::scope_of(facts[i], ctx.opts) matches Ok(
                    collection_scope::ScopeView::Resolved { dest_root, .. },
                ) && dest_root is None);
            if i < rest.len() {
                assert(rest[i] == facts[i]);
            }
        }
    }
}

proof fn lemma_kinds_keep_notes(p: PlanView, kinds: Seq<types::KindView>)
    ensures
        types::with_kinds(p, kinds).skipped_no_dest == p.skipped_no_dest,
        types::with_kinds(p, kinds).skipped_oversized == p.skipped_oversized,
        types::with_kinds(p, kinds).per_collection == p.per_collection,
    decreases kinds.len(),
{
    if kinds.len() > 0 {
        lemma_kinds_keep_notes(p, kinds.drop_last());
    }
}

/// Every drain of a container comes after all other operations of a plan.
pub proof fn law_drains_come_last(start: PlanView, facts: Seq<FactsView>, ctx: ContextView)
    requires
        planned(start, facts, ctx) is Ok,
    ensures
        ({
            let d = drafted(Draft { plan: start, drains: Map::empty() }, facts, ctx)->Ok_0;
            let drains = container_drains::drain_kinds(d.drains);
            let ops = planned(start, facts, ctx)->Ok_0.operations;
            &&& ops.len() == d.plan.operations.len() + drains.len()
            &&& ops.take(d.plan.operations.len() as int) == d.plan.operations
            &&& forall|i: int|
                0 <= i < drains.len() ==> (#[trigger] ops[d.plan.operations.len() + i]).kind
                    == drains[i]
        }),
{
    let d = drafted(Draft { plan: start, drains: Map::empty() }, facts, ctx)->Ok_0;
    types::law_operations_are_appended(d.plan, container_drains::drain_kinds(d.drains));
}

proof fn lemma_drafted_err(start: Draft, facts: Seq<FactsView>, n: int, ctx: ContextView)
    requires
        0 <= n <= facts.len(),
        drafted(start, facts.take(n), ctx) is Err,
    ensures
        drafted(start, facts, ctx) == drafted(start, facts.take(n), ctx),
    decreases facts.len(),
{
    if n == facts.len() {
        assert(facts.take(n) =~= facts);
    } else {
        assert(facts.drop_last().take(n) =~= facts.take(n));
        lemma_drafted_err(start, facts.drop_last(), n, ctx);
    }
}

/// Generates a plan for the collections that the options take in.
pub fn generate_plan_filtered(
    state_hash: String,
    facts: &[CollectionFacts],
    ctx: &CollectionPlanningContext,
) -> (r: Result<Plan, PlanError>)
    ensures
        match r {
            Ok(plan) => clock::is_stamp(plan.created_at@) && planned(
                types::empty_plan(state_hash@, plan.created_at@),
                collection_scope::fact_views(facts@),
                ctx.deep_view(),
            ) == Ok::<PlanView, PlanErrorView>(plan.deep_view()),
            Err(e) => exists|at: Seq<char>| #[trigger]
                planned(
                    types::empty_plan(state_hash@, at),
                    collection_scope::fact_views(facts@),
                    ctx.deep_view(),
                ) == Err::<PlanView, PlanErrorView>(e.deep_view()),
        },
{
    let ghost all = collection_scope::fact_views(facts@);
    let ghost c = ctx.deep_view();
    let mut plan = Plan::new(state_hash);
    let ghost start = plan.deep_view();
    let ghost at = plan.created_at@;
    let ghost first = Draft { plan: start, drains: Map::empty() };
    match check_unique_destinations(ctx.opts, facts) {
        Ok(_) => {},
        Err(e) => {
            proof {
                assert(planned(types::empty_plan(state_hash@, at), all, c) == Err::<
                    PlanView,
                    PlanErrorView,
                >(e.deep_view()));
            }
            return Err(e);
        },
    }
    let mut drains = ContainerDrains::new();
    let mut i: usize = 0;
    while i < facts.len()
        invariant
            i <= facts@.len(),
            all == collection_scope::fact_views(facts@),
            c == ctx.deep_view(),
            start == types::empty_plan(state_hash@, at),
            first == (Draft { plan: start, drains: Map::empty() }),
            collisions::uniqueness(all, c.opts) is Ok,
            drafted(first, all.take(i as int), c) == Ok::<Draft, PlanErrorView>(
                Draft { plan: plan.deep_view(), drains: drains@ },
            ),
        decreases facts@.len() - i,
    {
        proof {
            assert(all.take(i + 1).drop_last() =~= all.take(i as int));
        }
        let f = &facts[i];
        if collection_name_matches(f.collection.name.as_str(), ctx.opts) {
            let outcome = match plan_collection(ctx, f, &mut plan, &mut drains) {
                Ok(outcome) => outcome,
                Err(e) => {
                    proof {
                        lemma_drafted_err(first, all, i + 1, c);
                        assert(planned(types::empty_plan(state_hash@, at), all, c) == Err::<
                            PlanView,
                            PlanErrorView,
                        >(e.deep_view()));
                    }
                    return Err(e);
                },
            };
            let ghost before = plan.deep_view();
            match outcome {
                CollectionPlanningOutcome::SkippedNoDest(name) => {
                    plan.skipped_no_dest.push(name);
                    proof {
                        assert(plan.skipped_no_dest.deep_view() =~= before.skipped_no_dest.push(
                            name@,
                        ));
                    }
                },
                CollectionPlanningOutcome::SkippedOversized(s) => {
                    plan.skipped_oversized.push(s);
                    proof {
                        assert(plan.skipped_oversized.deep_view()
                            =~= before.skipped_oversized.push(s@));
                    }
                },
                _ => {},
            }
        }
        i = i + 1;
    }
    proof {
        assert(all.take(i as int) =~= all);
    }
    drains.emit_into(&mut plan);
    proof {
        lemma_created_at_kept(first, all, c);
        lemma_kinds_keep_created(
            drafted(first, all, c)->Ok_0.plan,
            container_drains::drain_kinds(drains@),
        );
    }
    Ok(plan)
}

proof fn lemma_kinds_keep_created(p: PlanView, kinds: Seq<types::KindView>)
    ensures
        types::with_kinds(p, kinds).created_at == p.created_at,
    decreases kinds.len(),
{
    if kinds.len() > 0 {
        lemma_kinds_keep_created(p, kinds.drop_last());
    }
}

proof fn lemma_created_at_kept(start: Draft, facts: Seq<FactsView>, ctx: ContextView)
    requires
        drafted(start, facts, ctx) is Ok,
    ensures
        drafted(start, facts, ctx)->Ok_0.plan.created_at == start.plan.created_at,
    decreases facts.len(),
{
    if facts.len() > 0 {
        lemma_created_at_kept(start, facts.drop_last(), ctx);
        let d = drafted(start, facts.drop_last(), ctx)->Ok_0;
        let f = facts.last();
        if options::name_wanted(f.name, ctx.opts) {
            let (next, outcome) = collection_planning::collection_plan(d, f, ctx)->Ok_0;
            if outcome is Planned {
                let scope = collection_scope::scope_of(f, ctx.opts)->Ok_0;
                let root = scope->Resolved_dest_root->0;
                let p = collection_planning::content_plan(
                    collection_planning::filtered(f),
                    collection_planning::format_for(f, ctx.opts),
                    root,
                    ctx,
                )->Ok_0;
                lemma_kinds_keep_created(d.plan, p.kinds);
            }
        }
    }
}

/// Generates a plan for all collections with default options.
pub fn generate_plan(
    state_hash: String,
    facts: &[CollectionFacts],
    shared: &SortedSet<String>,
    shared_containers: &SortedSet<String>,
    dispositions: &SortedMap<String, Disposition>,
) -> (r: Result<Plan, PlanError>)
    ensures
        ({
            let ctx = ContextView {
                opts: OptionsView {
                    dat_filter: None,
                    set_filter: None,
                    default_dest: None,
                    default_format: OutputFormat::Loose,
                    default_merge_mode: MergeMode::NonMerged,
                },
                shared: shared@,
                shared_containers: shared_containers@,
                dispositions: dispositions@,
            };
            match r {
                Ok(plan) => clock::is_stamp(plan.created_at@) && planned(
                    types::empty_plan(state_hash@, plan.created_at@),
                    collection_scope::fact_views(facts@),
                    ctx,
                ) == Ok::<PlanView, PlanErrorView>(plan.deep_view()),
                Err(e) => exists|at: Seq<char>| #[trigger]
                    planned(
                        types::empty_plan(state_hash@, at),
                        collection_scope::fact_views(facts@),
                        ctx,
                    ) == Err::<PlanView, PlanErrorView>(e.deep_view()),
            }
        }),
{
    let opts: PlanOptions = Default::default();
    let ctx = CollectionPlanningContext { opts: &opts, shared, shared_containers, dispositions };
    generate_plan_filtered(state_hash, facts, &ctx)
}

/// What is left to say once a plan is made.
#[derive(Clone, Copy, Debug, PartialEq, Eq, Structural)]
pub enum ClosingNotice {
    Nothing,
    /// The name filter let no collection in
    NoMatchingFilter,
    /// There was nothing to plan at all
    NoActiveCollections,
}

/// Whether the name filter lets any collection in.
pub open spec fn any_wanted(facts: Seq<FactsView>, opts: options::OptionsView) -> bool {
    exists|i: int| 0 <= i < facts.len() && options::name_wanted((#[trigger] facts[i]).name, opts)
}

/// What is left to say once a plan is made.
pub fn closing_notice(opts: &PlanOptions, facts: &[CollectionFacts], plan: &Plan) -> (r:
    ClosingNotice)
    ensures
        r == (if opts.dat_filter is Some && !any_wanted(
            collection_scope::fact_views(facts@),
            opts.deep_view(),
        ) {
            ClosingNotice::NoMatchingFilter
        } else if plan.per_collection@.len() == 0 && plan.skipped_no_dest@.len() == 0
            && plan.skipped_oversized@.len() == 0 {
            ClosingNotice::NoActiveCollections
        } else {
            ClosingNotice::Nothing
        }),
{
    let ghost all = collection_scope::fact_views(facts@);
    let mut any = false;
    let mut i: usize = 0;
    while i < facts.len()
        invariant
            i <= facts@.len(),
            all == collection_scope::fact_views(facts@),
            any == (exists|j: int|
                0 <= j < i && options::name_wanted((#[trigger] all[j]).name, opts.deep_view())),
        decreases facts@.len() - i,
    {
        if collection_name_matches(facts[i].collection.name.as_str(), opts) {
            proof {
                assert(options::name_wanted(all[i as int].name, opts.deep_view()));
            }
            any = true;
        }
        i = i + 1;
    }
    if opts.dat_filter.is_some() && !any {
        ClosingNotice::NoMatchingFilter
    } else if plan.per_collection.len() == 0 && plan.skipped_no_dest.len() == 0
        && plan.skipped_oversized.len() == 0 {
        ClosingNotice::NoActiveCollections
    } else {
        ClosingNotice::Nothing
    }
}

} // verus!
