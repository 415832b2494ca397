//! The saved plans: which one is current, and the work that it implies.

use crate::paths;
use crate::plan::types::{CollectionPlanStat, Plan, PlanView, StatView};
use crate::seqs;
use crate::text;
use vstd::prelude::*;

verus! {

/// A file that may hold a plan, with the time it was last written; none where
/// that is not known.
pub struct PlanFile {
    pub path: String,
    pub modified: Option<i128>,
}

#[verifier::ext_equal]
pub struct PlanFileView {
    pub path: Seq<char>,
    pub modified: Option<i128>,
}

impl DeepView for PlanFile {
    type V = PlanFileView;

    open spec fn deep_view(&self) -> PlanFileView {
        PlanFileView { path: self.path@, modified: self.modified }
    }
}

/// Whether a file counts: a JSON file with a known time.
pub open spec fn eligible(f: PlanFileView) -> bool {
    paths::extension(f.path) == Some("json"@) && f.modified is Some
}

/// Whether a file is the newest plan: none that counts is newer, and none before
/// it is as new.
pub open spec fn newest(all: Seq<PlanFileView>, i: int) -> bool {
    &&& 0 <= i < all.len()
    &&& eligible(all[i])
    &&& forall|j: int|
        0 <= j < all.len() && eligible(#[trigger] all[j]) ==> all[j].modified->0
            <= all[i].modified->0
    &&& forall|j: int|
        0 <= j < i && eligible(#[trigger] all[j]) ==> all[j].modified->0 < all[i].modified->0
}

/// There is at most one newest plan.
pub proof fn law_newest_plan_is_unique(all: Seq<PlanFileView>, i: int, j: int)
    requires
        newest(all, i),
        newest(all, j),
    ensures
        i == j,
{
}

/// The newest plan is a `.json` file, and no `.json` file with a known time is newer.
pub proof fn law_newest_plan_is_a_dated_json_file(all: Seq<PlanFileView>, i: int, j: int)
    requires
        newest(all, i),
        0 <= j < all.len(),
    ensures
        paths::extension(all[i].path) == Some("json"@),
        all[i].modified is Some,
        paths::extension(all[j].path) == Some("json"@) ==> (all[j].modified matches Some(t) ==> t
            <= all[i].modified->0),
{
    if eligible(all[j]) {
        assert(all[j].modified->0 <= all[i].modified->0);
    }
}

/// The position of the newest plan, or none where no file counts.
pub fn newest_plan_file(list: &Vec<PlanFile>) -> (r: Option<usize>)
    ensures
        match r {
            Some(i) => newest(list.deep_view(), i as int),
            None => forall|j: int|
                0 <= j < list@.len() ==> !eligible(#[trigger] list.deep_view()[j]),
        },
{
    let ghost all = list.deep_view();
    let mut best: Option<(usize, i128)> = None;
    let mut i: usize = 0;
    while i < list.len()
        invariant
            i <= list@.len(),
            all == list.deep_view(),
            match best {
                None => forall|j: int| 0 <= j < i ==> !eligible(#[trigger] all[j]),
                Some((b, at)) => {
                    &&& b < i
                    &&& eligible(all[b as int])
                    &&& all[b as int].modified == Some(at)
                    &&& forall|j: int|
                        0 <= j < i && eligible(#[trigger] all[j]) ==> all[j].modified->0 <= at
                    &&& forall|j: int|
                        0 <= j < b && eligible(#[trigger] all[j]) ==> all[j].modified->0 < at
                },
            },
        decreases list@.len() - i,
    {
        let f = &list[i];
        let json = match paths::extension_of(f.path.as_str()) {
            Some(e) => text::str_eq(e.as_str(), "json"),
            None => false,
        };
        proof {
            assert(all[i as int].modified == f.modified);
        }
        if json {
            if let Some(at) = f.modified {
                let newer = match best {
                    Some((_, previous)) => at > previous,
                    None => true,
                };
                if newer {
                    best = Some((i, at));
                }
            }
        }
        i = i + 1;
    }
    match best {
        Some((b, _)) => Some(b),
        None => None,
    }
}

/// One collection's pending work.
#[derive(Debug)]
pub struct PendingItem {
    pub collection: String,
    pub node_path: String,
    /// Operations that the plan would perform here
    pub to_write: usize,
    pub bytes: u64,
}

#[verifier::ext_equal]
pub struct PendingItemView {
    pub collection: Seq<char>,
    pub node_path: Seq<char>,
    pub to_write: usize,
    pub bytes: u64,
}

impl DeepView for PendingItem {
    type V = PendingItemView;

    open spec fn deep_view(&self) -> PendingItemView {
        PendingItemView {
            collection: self.collection@,
            node_path: self.node_path@,
            to_write: self.to_write,
            bytes: self.bytes,
        }
    }
}

/// The work that a saved plan implies.
#[derive(Debug)]
pub struct PendingWork {
    /// The catalogue has changed since the plan was made
    pub stale: bool,
    pub plan_created_at: String,
    /// Collections with something to write
    pub items: Vec<PendingItem>,
}

/// A collection's figures as pending work.
pub open spec fn as_item(s: StatView) -> PendingItemView {
    PendingItemView {
        collection: s.name,
        node_path: s.node_path,
        to_write: s.to_write,
        bytes: s.bytes,
    }
}

/// The collections of a plan with something to write, in order.
pub open spec fn pending_items(p: PlanView) -> Seq<PendingItemView> {
    p.per_collection.filter(|s: StatView| s.to_write > 0).map_values(|s: StatView| as_item(s))
}

/// A collection is pending exactly where the plan has something to write for it, with
/// its own figures; what is pending is all that the plan would write.
pub proof fn law_pending_is_what_is_to_be_written(p: PlanView)
    ensures
        pending_items(p).len() <= p.per_collection.len(),
        forall|i: int|
            0 <= i < pending_items(p).len() ==> (#[trigger] pending_items(p)[i]).to_write > 0
                && p.per_collection.contains(
                StatView {
                    name: pending_items(p)[i].collection,
                    node_path: pending_items(p)[i].node_path,
                    to_write: pending_items(p)[i].to_write,
                    bytes: pending_items(p)[i].bytes,
                    already_correct: p.per_collection.filter(
                        |s: StatView| s.to_write > 0,
                    )[i].already_correct,
                },
            ),
        forall|j: int|
            0 <= j < p.per_collection.len() && (#[trigger] p.per_collection[j]).to_write > 0
                ==> pending_items(p).contains(
                PendingItemView {
                    collection: p.per_collection[j].name,
                    node_path: p.per_collection[j].node_path,
                    to_write: p.per_collection[j].to_write,
                    bytes: p.per_collection[j].bytes,
                },
            ),
{
    let f = |s: StatView| s.to_write > 0;
    let kept = p.per_collection.filter(f);
    seqs::lemma_filter_members(p.per_collection, f);
    assert forall|i: int| 0 <= i < pending_items(p).len() implies (
    #[trigger] pending_items(p)[i]).to_write > 0 && p.per_collection.contains(
        StatView {
            name: pending_items(p)[i].collection,
            node_path: pending_items(p)[i].node_path,
            to_write: pending_items(p)[i].to_write,
            bytes: pending_items(p)[i].bytes,
            already_correct: kept[i].already_correct,
        },
    ) by {
        assert(kept.contains(kept[i]));
    }
    assert forall|j: int|
        0 <= j < p.per_collection.len() && (#[trigger] p.per_collection[j]).to_write
            > 0 implies pending_items(p).contains(
        PendingItemView {
            collection: p.per_collection[j].name,
            node_path: p.per_collection[j].node_path,
            to_write: p.per_collection[j].to_write,
            bytes: p.per_collection[j].bytes,
        },
    ) by {
        assert(p.per_collection.contains(p.per_collection[j]));
        assert(kept.contains(p.per_collection[j]));
        let i = choose|i: int| 0 <= i < kept.len() && kept[i] == p.per_collection[j];
        assert(pending_items(p)[i] == as_item(kept[i]));
    }
}

fn items_of(stats: &Vec<CollectionPlanStat>) -> (r: Vec<PendingItem>)
    ensures
        r.deep_view() == stats.deep_view().filter(|s: StatView| s.to_write > 0).map_values(
            |s: StatView| as_item(s),
        ),
{
    let ghost all = stats.deep_view();
    let ghost f = |s: StatView| s.to_write > 0;
    let ghost g = |s: StatView| as_item(s);
    let mut r: Vec<PendingItem> = Vec::new();
    let mut i: usize = 0;
    proof {
        reveal(Seq::filter);
        assert(r.deep_view() =~= all.take(0).filter(f).map_values(g));
    }
    while i < stats.len()
        invariant
            i <= stats@.len(),
            all == stats.deep_view(),
            f == (|s: StatView| s.to_write > 0),
            g == (|s: StatView| as_item(s)),
            r.deep_view() == all.take(i as int).filter(f).map_values(g),
        decreases stats@.len() - i,
    {
        let ghost before = r.deep_view();
        proof {
            assert(all.take(i + 1).drop_last() =~= all.take(i as int));
            reveal_with_fuel(Seq::filter, 2);
        }
        let s = &stats[i];
        if s.to_write > 0 {
            r.push(
                PendingItem {
                    collection: s.name.clone(),
                    node_path: s.node_path.clone(),
                    to_write: s.to_write,
                    bytes: s.bytes,
                },
            );
            proof {
                assert(r.deep_view() =~= before.push(g(all[i as int])));
                assert(all.take(i + 1).filter(f).map_values(g) =~= before.push(
                    g(all[i as int]),
                ));
            }
        }
        i = i + 1;
    }
    proof {
        assert(all.take(i as int) =~= all);
    }
    r
}

/// The work that a saved plan implies, and whether the catalogue, by the hash of
/// its state, has moved on since.
pub fn pending_work(plan: &Plan, state_hash: &str) -> (r: PendingWork)
    ensures
        r.stale == (state_hash@ != plan.state_hash@),
        r.plan_created_at@ == plan.created_at@,
        r.items.deep_view() == pending_items(plan.deep_view()),
{
    PendingWork {
        stale: !text::str_eq(state_hash, plan.state_hash.as_str()),
        plan_created_at: plan.created_at.clone(),
        items: items_of(&plan.per_collection),
    }
}

} // verus!
