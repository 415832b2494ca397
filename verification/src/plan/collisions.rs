//! Collections that would write to the same place.

use super::collection_scope;
use super::collection_scope::{
    resolve_scoped_collection, CollectionFacts, FactsView, ScopeView, ScopedCollectionResolution,
};
use super::error::{PlanError, PlanErrorView};
use super::options;
use super::options::{collection_name_matches, OptionsView, PlanOptions};
use crate::paths::{PathError, PathErrorView};
use crate::seqs;
use crate::sorted_map;
use crate::sorted_map::SortedMap;
use crate::text;
use vstd::prelude::*;
use vstd::string::StringExecFns;

verus! {

/// A group of in-scope collections that resolve to the same destination root
/// and output namespace: they would overwrite each other's same-named games.
#[derive(Debug)]
pub struct DestinationCollision {
    /// The shared destination root
    pub root: String,
    /// The disk-only (CHD) output namespace: CHDs and ROMs at one root don't
    /// collide
    pub disk_only: bool,
    /// The collections that share root and namespace
    pub collections: Vec<CollidingCollection>,
}

#[verifier::ext_equal]
pub struct CollisionView {
    pub root: Seq<char>,
    pub disk_only: bool,
    pub collections: Seq<CollidingView>,
}

impl DeepView for DestinationCollision {
    type V = CollisionView;

    open spec fn deep_view(&self) -> CollisionView {
        CollisionView {
            root: self.root@,
            disk_only: self.disk_only,
            collections: self.collections.deep_view(),
        }
    }
}

/// One collection of a collision.
#[derive(Debug)]
pub struct CollidingCollection {
    pub name: String,
    /// The active version, so that a caller can re-path its node
    pub version_id: i64,
    /// Whether it has an explicit destination, which re-pathing cannot change
    pub has_explicit_dest: bool,
}

#[verifier::ext_equal]
pub struct CollidingView {
    pub name: Seq<char>,
    pub version_id: i64,
    pub has_explicit_dest: bool,
}

impl DeepView for CollidingCollection {
    type V = CollidingView;

    open spec fn deep_view(&self) -> CollidingView {
        CollidingView {
            name: self.name@,
            version_id: self.version_id,
            has_explicit_dest: self.has_explicit_dest,
        }
    }
}

impl Clone for CollidingCollection {
    fn clone(&self) -> (r: Self)
        ensures
            r.deep_view() == self.deep_view(),
    {
        CollidingCollection {
            name: self.name.clone(),
            version_id: self.version_id,
            has_explicit_dest: self.has_explicit_dest,
        }
    }
}

/// Whether a collection places disks only. Such a collection places loose
/// `<game>/<name>.chd` files and never a `<game>.zip`.
pub open spec fn disk_only(f: FactsView) -> bool {
    f.has_disks && !f.has_roms
}

/// A collection with the root and namespace that it writes to.
#[verifier::ext_equal]
pub struct Placed {
    pub key: (Seq<char>, bool),
    pub collection: CollidingView,
}

/// Where a collection writes to; nothing where it is out of scope or has no
/// destination.
pub open spec fn placed_at(f: FactsView, opts: OptionsView) -> Result<
    Option<Placed>,
    PathErrorView,
> {
    if !options::name_wanted(f.name, opts) {
        Ok(None)
    } else {
        match collection_scope::scope_of(f, opts) {
            Err(e) => Err(e),
            Ok(ScopeView::Resolved { version_id, hierarchy: _, dest_root }) => match dest_root {
                Some(root) => Ok(
                    Some(
                        Placed {
                            key: (root, disk_only(f)),
                            collection: CollidingView {
                                name: f.name,
                                version_id,
                                has_explicit_dest: collection_scope::explicit_dest(f) is Some,
                            },
                        },
                    ),
                ),
                None => Ok(None),
            },
            Ok(_) => Ok(None),
        }
    }
}

/// Where the collections write to, in order, or the first destination that
/// cannot be built.
pub open spec fn all_placed(facts: Seq<FactsView>, opts: OptionsView) -> Result<
    Seq<Placed>,
    PathErrorView,
>
    decreases facts.len(),
{
    if facts.len() == 0 {
        Ok(Seq::empty())
    } else {
        match all_placed(facts.drop_last(), opts) {
            Err(e) => Err(e),
            Ok(before) => match placed_at(facts.last(), opts) {
                Err(e) => Err(e),
                Ok(None) => Ok(before),
                Ok(Some(p)) => Ok(before.push(p)),
            },
        }
    }
}

/// The collections that write to a root and namespace.
pub open spec fn owners(placed: Seq<Placed>, key: (Seq<char>, bool)) -> Seq<CollidingView> {
    placed.filter(|p: Placed| p.key == key).map_values(|p: Placed| p.collection)
}

/// The roots and namespaces that some collection writes to.
pub open spec fn owned(placed: Seq<Placed>) -> Set<(Seq<char>, bool)> {
    Set::new(|k: (Seq<char>, bool)| owners(placed, k).len() > 0)
}

/// The collisions at some roots and namespaces, in order.
pub open spec fn collisions_at(
    placed: Seq<Placed>,
    keys: Seq<(Seq<char>, bool)>,
) -> Seq<CollisionView>
    decreases keys.len(),
{
    if keys.len() == 0 {
        Seq::empty()
    } else {
        let before = collisions_at(placed, keys.drop_last());
        let key = keys.last();
        if owners(placed, key).len() > 1 {
            before.push(
                CollisionView {
                    root: key.0,
                    disk_only: key.1,
                    collections: owners(placed, key),
                },
            )
        } else {
            before
        }
    }
}

/// The collisions among collections, ordered by root and namespace.
pub open spec fn collisions(placed: Seq<Placed>) -> Seq<CollisionView> {
    collisions_at(placed, sorted_map::in_order::<(String, bool)>(owned(placed)))
}

/// Names, separated by commas.
pub open spec fn name_list(cs: Seq<CollidingView>) -> Seq<char>
    decreases cs.len(),
{
    if cs.len() == 0 {
        Seq::empty()
    } else if cs.len() == 1 {
        cs[0].name
    } else {
        name_list(cs.drop_last()) + ", "@ + cs.last().name
    }
}

/// A collision as a line of text.
pub open spec fn collision_line(c: CollisionView) -> Seq<char> {
    "  "@ + c.root + " ("@ + (if c.disk_only {
        "CHD"@
    } else {
        "ROM"@
    }) + " outputs) <- "@ + name_list(c.collections) + "\n"@
}

pub open spec fn collision_lines(cs: Seq<CollisionView>) -> Seq<char>
    decreases cs.len(),
{
    if cs.len() == 0 {
        Seq::empty()
    } else {
        collision_lines(cs.drop_last()) + collision_line(cs.last())
    }
}

/// Why a plan with collisions is refused.
pub open spec fn collision_message(cs: Seq<CollisionView>) -> Seq<char> {
    "Refusing to plan: collections share a destination root, so their same-named games would overwrite each other. Give each collection a distinct dest_path (e.g. a per-machine subfolder), or run 'cat198x doctor --fix' to nest them under their own names.\n"@
        + collision_lines(cs)
}

/// The names in a report of a collision are those of all its collections, in order,
/// with a comma between each two; and every collision has a line of its own, which
/// begins with the root.
pub proof fn law_collisions_are_told_in_full(
    cs: Seq<CollidingView>,
    c: CollidingView,
    lines: Seq<CollisionView>,
    line: CollisionView,
)
    ensures
        name_list(seq![c]) == c.name,
        cs.len() > 0 ==> name_list(cs.push(c)) == name_list(cs) + ", "@ + c.name,
        text::begins(collision_line(line), "  "@ + line.root + " ("@),
        text::finishes(collision_line(line), " <- "@ + name_list(line.collections) + "\n"@),
        collision_lines(lines.push(line)) == collision_lines(lines) + collision_line(line),
        text::finishes(collision_message(lines), collision_lines(lines)),
{
    reveal_strlit(" outputs) <- ");
    reveal_strlit(" <- ");
    assert(cs.push(c).drop_last() =~= cs);
    assert(lines.push(line).drop_last() =~= lines);
    let l = collision_line(line);
    let lead = "  "@ + line.root + " ("@;
    let tail = " <- "@ + name_list(line.collections) + "\n"@;
    assert(l.take(lead.len() as int) =~= lead);
    assert(" outputs) <- "@.skip(9) =~= " <- "@);
    let n = l.len() - tail.len();
    let kind = if line.disk_only {
        "CHD"@
    } else {
        "ROM"@
    };
    assert(l =~= lead + kind + " outputs) <- "@ + name_list(line.collections) + "\n"@);
    assert(" outputs) <- "@ =~= " outputs) <- "@.take(9) + " <- "@);
    assert(l =~= lead + kind + " outputs) <- "@.take(9) + tail);
    assert(l.skip(n) =~= tail);
    let m = collision_message(lines);
    assert(m.skip(m.len() - collision_lines(lines).len()) =~= collision_lines(lines));
}

/// Whether planning is refused because of collisions, or because a destination
/// cannot be built.
pub open spec fn uniqueness(facts: Seq<FactsView>, opts: OptionsView) -> Result<
    (),
    PlanErrorView,
> {
    match all_placed(facts, opts) {
        Err(e) => Err(PlanErrorView::Path(e)),
        Ok(placed) => if collisions(placed).len() == 0 {
            Ok(())
        } else {
            Err(
                PlanErrorView::SharedRoots { message: collision_message(collisions(placed)) },
            )
        },
    }
}

proof fn lemma_owner_index(placed: Seq<Placed>, key: (Seq<char>, bool))
    ensures
        owners(placed, key).len() <= 1 ==> forall|i: int, j: int|
            0 <= i < j < placed.len() && placed[i].key == key ==> placed[j].key != key,
        owners(placed, key).len() == 0 ==> forall|i: int|
            0 <= i < placed.len() ==> (#[trigger] placed[i]).key != key,
    decreases placed.len(),
{
    reveal(Seq::filter);
    if placed.len() > 0 {
        let t = placed.drop_last();
        lemma_owner_index(t, key);
        let f = |p: Placed| p.key == key;
        assert(placed.filter(f).len() == t.filter(f).len() + (if placed.last().key == key {
            1int
        } else {
            0int
        }));
        if owners(placed, key).len() <= 1 {
            assert forall|i: int, j: int|
                0 <= i < j < placed.len() && placed[i].key == key implies placed[j].key != key by {
                assert(t[i] == placed[i]);
                if j < t.len() {
                    assert(t[j] == placed[j]);
                }
            }
        }
        if owners(placed, key).len() == 0 {
            assert forall|i: int| 0 <= i < placed.len() implies (#[trigger] placed[i]).key
                != key by {
                if i < t.len() {
                    assert(t[i] == placed[i]);
                }
            }
        }
    }
}

proof fn lemma_no_collisions(placed: Seq<Placed>, keys: Seq<(Seq<char>, bool)>)
    requires
        collisions_at(placed, keys).len() == 0,
    ensures
        forall|i: int| 0 <= i < keys.len() ==> owners(placed, #[trigger] keys[i]).len() <= 1,
    decreases keys.len(),
{
    if keys.len() > 0 {
        lemma_no_collisions(placed, keys.drop_last());
        assert forall|i: int| 0 <= i < keys.len() implies owners(
            placed,
            #[trigger] keys[i],
        ).len() <= 1 by {
            if i < keys.len() - 1 {
                assert(keys.drop_last()[i] == keys[i]);
            }
        }
    }
}

proof fn lemma_owned_finite(placed: Seq<Placed>)
    ensures
        owned(placed).finite(),
{
    let keys = placed.map_values(|p: Placed| p.key);
    vstd::seq_lib::seq_to_set_is_finite(keys);
    assert forall|k: (Seq<char>, bool)| owned(placed).contains(k) implies keys.to_set().contains(
        k,
    ) by {
        let mine = |p: Placed| p.key == k;
        seqs::lemma_filter_members(placed, mine);
        let p = placed.filter(mine)[0];
        assert(placed.filter(mine).contains(p));
        let i = choose|i: int| 0 <= i < placed.len() && placed[i] == p;
        assert(keys[i] == k);
    }
    vstd::set_lib::lemma_set_subset_finite(keys.to_set(), owned(placed));
}

/// Where no collision is found, no two collections in scope write to the same
/// root and namespace.
pub proof fn law_no_collision_means_distinct_roots(placed: Seq<Placed>, i: int, j: int)
    requires
        collisions(placed).len() == 0,
        0 <= i < j < placed.len(),
    ensures
        placed[i].key != placed[j].key,
{
    lemma_owned_finite(placed);
    sorted_map::lemma_order_exists::<(String, bool)>(owned(placed));
    let order = sorted_map::in_order::<(String, bool)>(owned(placed));
    lemma_no_collisions(placed, order);
    let key = placed[i].key;
    lemma_owner_index(placed, key);
    if owners(placed, key).len() > 0 {
        assert(owned(placed).contains(key));
        assert(order.to_set().contains(key));
        let q = choose|q: int| 0 <= q < order.len() && order[q] == key;
        assert(owners(placed, order[q]).len() <= 1);
    }
}

proof fn lemma_collisions_at(placed: Seq<Placed>, keys: Seq<(Seq<char>, bool)>)
    ensures
        forall|n: int|
            0 <= n < collisions_at(placed, keys).len() ==> ({
                let c = #[trigger] collisions_at(placed, keys)[n];
                keys.contains((c.root, c.disk_only)) && c.collections == owners(
                    placed,
                    (c.root, c.disk_only),
                ) && c.collections.len() > 1
            }),
    decreases keys.len(),
{
    if keys.len() > 0 {
        let rest = keys.drop_last();
        lemma_collisions_at(placed, rest);
        let before = collisions_at(placed, rest);
        let all = collisions_at(placed, keys);
        assert forall|n: int| 0 <= n < all.len() implies ({
            let c = #[trigger] all[n];
            keys.contains((c.root, c.disk_only)) && c.collections == owners(
                placed,
                (c.root, c.disk_only),
            ) && c.collections.len() > 1
        }) by {
            if n < before.len() {
                let c = before[n];
                assert(all[n] == c);
                let k = choose|k: int| 0 <= k < rest.len() && rest[k] == (c.root, c.disk_only);
                assert(keys[k] == rest[k]);
            } else {
                assert(keys[keys.len() - 1] == keys.last());
            }
        }
    }
}

/// What is reported as a collision is one: at least two collections write to that
/// root and namespace, and they are listed, each that does and no other.
pub proof fn law_collisions_are_real(placed: Seq<Placed>, n: int)
    requires
        0 <= n < collisions(placed).len(),
    ensures
        ({
            let c = collisions(placed)[n];
            let there = placed.filter(|p: Placed| p.key == (c.root, c.disk_only));
            &&& c.collections == there.map_values(|p: Placed| p.collection)
            &&& there.len() >= 2
        }),
{
    let order = sorted_map::in_order::<(String, bool)>(owned(placed));
    lemma_collisions_at(placed, order);
    assert(collisions(placed)[n] == collisions_at(placed, order)[n]);
}

/// Planning is refused exactly where two collections would write to the same root in
/// the same namespace (all destinations being buildable): disks alone have a
/// namespace of their own.
pub proof fn law_refused_exactly_where_roots_are_shared(facts: Seq<FactsView>, opts: OptionsView)
    requires
        all_placed(facts, opts) is Ok,
    ensures
        uniqueness(facts, opts) is Err <==> exists|i: int, j: int|
            0 <= i < j < facts.len() && same_place(
                #[trigger] facts[i],
                #[trigger] facts[j],
                opts,
            ),
{
    let placed = all_placed(facts, opts)->Ok_0;
    if uniqueness(facts, opts) is Err {
        let order = sorted_map::in_order::<(String, bool)>(owned(placed));
        lemma_collisions_at(placed, order);
        let c = collisions_at(placed, order)[0];
        assert(collisions(placed)[0] == c);
        let key = (c.root, c.disk_only);
        assert(owners(placed, key).len() > 1);
        let (a, b) = lemma_two_owners(placed, key);
        lemma_placed_index(facts, opts, a, b);
        let (i, j) = choose|i: int, j: int|
            0 <= i < j < facts.len() && places_as(#[trigger] facts[i], opts, placed[a])
                && places_as(#[trigger] facts[j], opts, placed[b]);
        assert(same_place(facts[i], facts[j], opts));
    }
    if exists|i: int, j: int|
        0 <= i < j < facts.len() && same_place(#[trigger] facts[i], #[trigger] facts[j], opts) {
        let (i, j) = choose|i: int, j: int|
            0 <= i < j < facts.len() && same_place(#[trigger] facts[i], #[trigger] facts[j], opts);
        let (a, b) = lemma_facts_index(facts, opts, i, j);
        if collisions(placed).len() == 0 {
            law_no_collision_means_distinct_roots(placed, a, b);
        }
    }
}

/// Whether two collections in scope have the same destination root and are alike in
/// whether they place disks alone.
pub open spec fn same_place(f: FactsView, g: FactsView, opts: OptionsView) -> bool {
    &&& options::name_wanted(f.name, opts) && options::name_wanted(g.name, opts)
    &&& root_in_scope(f, opts) is Some
    &&& root_in_scope(f, opts) == root_in_scope(g, opts)
    &&& (f.has_disks && !f.has_roms) == (g.has_disks && !g.has_roms)
}

/// The destination root of a collection that is in scope and has one.
pub open spec fn root_in_scope(f: FactsView, opts: OptionsView) -> Option<Seq<char>> {
    match collection_scope::scope_of(f, opts) {
        Ok(ScopeView::Resolved { version_id: _, hierarchy: _, dest_root }) => dest_root,
        _ => None,
    }
}

spec fn places_as(f: FactsView, opts: OptionsView, p: Placed) -> bool {
    placed_at(f, opts) == Ok::<Option<Placed>, PathErrorView>(Some(p))
}

proof fn lemma_two_owners(placed: Seq<Placed>, key: (Seq<char>, bool)) -> (r: (int, int))
    requires
        owners(placed, key).len() > 1,
    ensures
        0 <= r.0 < r.1 < placed.len(),
        placed[r.0].key == key,
        placed[r.1].key == key,
    decreases placed.len(),
{
    reveal(Seq::filter);
    let rest = placed.drop_last();
    let f = |p: Placed| p.key == key;
    if placed.last().key == key && owners(rest, key).len() <= 1 {
        assert(placed.filter(f) == rest.filter(f).push(placed.last()));
        seqs::lemma_filter_members(rest, f);
        let p = rest.filter(f)[0];
        assert(rest.filter(f).contains(p));
        let i = choose|i: int| 0 <= i < rest.len() && rest[i] == p;
        (i, placed.len() - 1)
    } else {
        lemma_two_owners(rest, key)
    }
}

proof fn lemma_placed_index(facts: Seq<FactsView>, opts: OptionsView, a: int, b: int)
    requires
        all_placed(facts, opts) is Ok,
        0 <= a < b < all_placed(facts, opts)->Ok_0.len(),
    ensures
        exists|i: int, j: int|
            0 <= i < j < facts.len() && places_as(
                #[trigger] facts[i],
                opts,
                all_placed(facts, opts)->Ok_0[a],
            ) && places_as(#[trigger] facts[j], opts, all_placed(facts, opts)->Ok_0[b]),
    decreases facts.len(),
{
    let rest = facts.drop_last();
    let before = all_placed(rest, opts)->Ok_0;
    let all = all_placed(facts, opts)->Ok_0;
    if b < before.len() {
        lemma_placed_index(rest, opts, a, b);
        let (i, j) = choose|i: int, j: int|
            0 <= i < j < rest.len() && places_as(#[trigger] rest[i], opts, before[a])
                && places_as(#[trigger] rest[j], opts, before[b]);
        assert(facts[i] == rest[i] && facts[j] == rest[j]);
    } else {
        lemma_placed_one(rest, opts, a);
        let i = choose|i: int|
            0 <= i < rest.len() && places_as(#[trigger] rest[i], opts, before[a]);
        assert(facts[i] == rest[i]);
        assert(facts[facts.len() - 1] == facts.last());
        assert(places_as(facts[facts.len() - 1], opts, all[b]));
    }
}

proof fn lemma_placed_one(facts: Seq<FactsView>, opts: OptionsView, a: int)
    requires
        all_placed(facts, opts) is Ok,
        0 <= a < all_placed(facts, opts)->Ok_0.len(),
    ensures
        exists|i: int|
            0 <= i < facts.len() && places_as(
                #[trigger] facts[i],
                opts,
                all_placed(facts, opts)->Ok_0[a],
            ),
    decreases facts.len(),
{
    let rest = facts.drop_last();
    let before = all_placed(rest, opts)->Ok_0;
    if a < before.len() {
        lemma_placed_one(rest, opts, a);
        let i = choose|i: int|
            0 <= i < rest.len() && places_as(#[trigger] rest[i], opts, before[a]);
        assert(facts[i] == rest[i]);
    } else {
        assert(facts[facts.len() - 1] == facts.last());
    }
}

proof fn lemma_fact_index(facts: Seq<FactsView>, opts: OptionsView, i: int) -> (a: int)
    requires
        all_placed(facts, opts) is Ok,
        0 <= i < facts.len(),
        placed_at(facts[i], opts) matches Ok(Some(_)),
    ensures
        0 <= a < all_placed(facts, opts)->Ok_0.len(),
        places_as(facts[i], opts, all_placed(facts, opts)->Ok_0[a]),
    decreases facts.len(),
{
    let rest = facts.drop_last();
    if i < rest.len() {
        assert(rest[i] == facts[i]);
        lemma_fact_index(rest, opts, i)
    } else {
        all_placed(facts, opts)->Ok_0.len() - 1
    }
}

proof fn lemma_facts_index(facts: Seq<FactsView>, opts: OptionsView, i: int, j: int) -> (r: (
    int,
    int,
))
    requires
        all_placed(facts, opts) is Ok,
        0 <= i < j < facts.len(),
        same_place(facts[i], facts[j], opts),
    ensures
        0 <= r.0 < r.1 < all_placed(facts, opts)->Ok_0.len(),
        all_placed(facts, opts)->Ok_0[r.0].key == all_placed(facts, opts)->Ok_0[r.1].key,
    decreases facts.len(),
{
    let rest = facts.drop_last();
    let all = all_placed(facts, opts)->Ok_0;
    assert(placed_at(facts[i], opts) matches Ok(Some(_)));
    assert(placed_at(facts[j], opts) matches Ok(Some(_)));
    if j < rest.len() {
        assert(rest[i] == facts[i] && rest[j] == facts[j]);
        lemma_facts_index(rest, opts, i, j)
    } else {
        assert(rest[i] == facts[i]);
        let a = lemma_fact_index(rest, opts, i);
        assert(all[a] == all_placed(rest, opts)->Ok_0[a]);
        (a, all.len() - 1)
    }
}

fn is_disk_only(facts: &CollectionFacts) -> (r: bool)
    ensures
        r == disk_only(facts.deep_view()),
{
    facts.has_disks && !facts.has_roms
}

fn place(opts: &PlanOptions, facts: &CollectionFacts) -> (r: Result<
    Option<((String, bool), CollidingCollection)>,
    PathError,
>)
    ensures
        match r {
            Ok(None) => placed_at(facts.deep_view(), opts.deep_view()) == Ok::<
                Option<Placed>,
                PathErrorView,
            >(None),
            Ok(Some((key, c))) => placed_at(facts.deep_view(), opts.deep_view()) == Ok::<
                Option<Placed>,
                PathErrorView,
            >(Some(Placed { key: key.deep_view(), collection: c.deep_view() })),
            Err(e) => placed_at(facts.deep_view(), opts.deep_view()) == Err::<
                Option<Placed>,
                PathErrorView,
            >(e.deep_view()),
        },
{
    if !collection_name_matches(facts.collection.name.as_str(), opts) {
        return Ok(None);
    }
    match resolve_scoped_collection(opts, facts) {
        Err(e) => Err(e),
        Ok(ScopedCollectionResolution::Resolved { version_id, hierarchy: _, dest_root }) => {
            match dest_root {
                None => Ok(None),
                Some(root) => {
                    let has_explicit_dest = match &facts.config {
                        Some(c) => c.dest_path.is_some(),
                        None => false,
                    };
                    let c = CollidingCollection {
                        name: facts.collection.name.clone(),
                        version_id,
                        has_explicit_dest,
                    };
                    Ok(Some(((root, is_disk_only(facts)), c)))
                },
            }
        },
        Ok(_) => Ok(None),
    }
}

/// Finds collections that collide on a destination root and output namespace,
/// among those that the filters take in.
pub fn find_destination_collisions(opts: &PlanOptions, facts: &[CollectionFacts]) -> (r: Result<
    Vec<DestinationCollision>,
    PathError,
>)
    ensures
        ({
            let model = all_placed(collection_scope::fact_views(facts@), opts.deep_view());
            match r {
                Ok(cs) => model is Ok && cs.deep_view() == collisions(model->Ok_0),
                Err(e) => model == Err::<Seq<Placed>, PathErrorView>(e.deep_view()),
            }
        }),
{
    let ghost all = collection_scope::fact_views(facts@);
    let ghost o = opts.deep_view();
    let mut map: SortedMap<(String, bool), Vec<CollidingCollection>> = SortedMap::new();
    let ghost mut placed: Seq<Placed> = Seq::empty();
    let mut i: usize = 0;
    proof {
        reveal(Seq::filter);
        assert forall|k: (Seq<char>, bool)| #[trigger] owners(placed, k)
            =~= Seq::<CollidingView>::empty() by {
            assert(placed.filter(|p: Placed| p.key == k).len() == 0);
        }
    }
    while i < facts.len()
        invariant
            i <= facts@.len(),
            all == collection_scope::fact_views(facts@),
            o == opts.deep_view(),
            all_placed(all.take(i as int), o) == Ok::<Seq<Placed>, PathErrorView>(placed),
            owners_fit(map@, placed),
        decreases facts@.len() - i,
    {
        proof {
            assert(all.take(i + 1).drop_last() =~= all.take(i as int));
        }
        match place(opts, &facts[i]) {
            Err(e) => {
                proof {
                    lemma_placed_err(all, i + 1, o);
                }
                return Err(e);
            },
            Ok(None) => {},
            Ok(Some((key, c))) => {
                let ghost k0 = key.deep_view();
                let ghost before = map@;
                let ghost p = Placed { key: k0, collection: c.deep_view() };
                let mut list: Vec<CollidingCollection> = match map.remove(&key) {
                    Some(list) => list,
                    None => Vec::new(),
                };
                let ghost had = list.deep_view();
                proof {
                    assert(had =~= owners(placed, k0));
                }
                let ghost cv = c.deep_view();
                list.push(c);
                proof {
                    assert(list.deep_view() =~= had.push(cv));
                }
                map.insert(key, list);
                proof {
                    assert forall|k: (Seq<char>, bool)|
                        #![trigger map@.contains_key(k)]
                        #![trigger owners(placed.push(p), k)]
                        owners(placed.push(p), k) == (if map@.contains_key(k) {
                            map@[k].deep_view()
                        } else {
                            Seq::empty()
                        }) by {
                        lemma_owners_push(placed, p, k);
                        assert(owners(placed, k) == (if before.contains_key(k) {
                            before[k].deep_view()
                        } else {
                            Seq::empty()
                        }));
                    }
                    assert forall|k: (Seq<char>, bool)| #[trigger]
                        map@.contains_key(k) implies map@[k].deep_view().len() > 0 by {
                        if k != k0 {
                            assert(before.contains_key(k));
                        }
                    }
                    placed = placed.push(p);
                }
            },
        }
        i = i + 1;
    }
    proof {
        assert(all.take(i as int) =~= all);
    }
    let n = map.len();
    let ghost order = map.keys();
    proof {
        assert forall|k: (Seq<char>, bool)| #[trigger] owned(placed).contains(k)
            <==> order.contains(k) by {
            assert(map@.contains_key(k) <==> order.contains(k));
            assert(owners(placed, k) == (if map@.contains_key(k) {
                map@[k].deep_view()
            } else {
                Seq::empty()
            }));
        }
        sorted_map::lemma_in_order::<(String, bool)>(order, owned(placed));
    }
    let mut out: Vec<DestinationCollision> = Vec::new();
    let mut k: usize = 0;
    proof {
        assert(out.deep_view() =~= Seq::<CollisionView>::empty());
    }
    while k < n
        invariant
            k <= n,
            n == order.len(),
            order == map.keys(),
            map.linked(),
            owners_fit(map@, placed),
            out.deep_view() == collisions_at(placed, order.take(k as int)),
        decreases n - k,
    {
        let key = map.key_at(k);
        let list = map.value_at(k);
        proof {
            assert(map@.contains_key(order[k as int]));
            assert(list.deep_view() == owners(placed, order[k as int]));
            assert(list.deep_view().len() == list@.len());
            assert(order.take(k + 1).drop_last() =~= order.take(k as int));
        }
        if list.len() > 1 {
            let ghost before = out.deep_view();
            out.push(
                DestinationCollision {
                    root: key.0.clone(),
                    disk_only: key.1,
                    collections: clone_colliding(list),
                },
            );
            proof {
                assert(out.deep_view() =~= before.push(out.deep_view().last()));
            }
        }
        k = k + 1;
    }
    proof {
        assert(order.take(k as int) =~= order);
    }
    Ok(out)
}

/// Whether a map gives the owners of each root and namespace.
spec fn owners_fit(
    map: Map<(Seq<char>, bool), Vec<CollidingCollection>>,
    placed: Seq<Placed>,
) -> bool {
    &&& forall|k: (Seq<char>, bool)|
        #![trigger map.contains_key(k)]
        #![trigger owners(placed, k)]
        owners(placed, k) == (if map.contains_key(k) {
            map[k].deep_view()
        } else {
            Seq::empty()
        })
    &&& forall|k: (Seq<char>, bool)| #[trigger]
        map.contains_key(k) ==> map[k].deep_view().len() > 0
}

proof fn lemma_owners_push(placed: Seq<Placed>, p: Placed, k: (Seq<char>, bool))
    ensures
        owners(placed.push(p), k) == if p.key == k {
            owners(placed, k).push(p.collection)
        } else {
            owners(placed, k)
        },
{
    reveal(Seq::filter);
    let f = |q: Placed| q.key == k;
    let g = |q: Placed| q.collection;
    assert(placed.push(p).drop_last() =~= placed);
    if p.key == k {
        assert(placed.push(p).filter(f) == placed.filter(f).push(p));
        assert(placed.filter(f).push(p).map_values(g) =~= placed.filter(f).map_values(g).push(
            p.collection,
        ));
    } else {
        assert(placed.push(p).filter(f) == placed.filter(f));
    }
}

proof fn lemma_placed_err(facts: Seq<FactsView>, n: int, opts: OptionsView)
    requires
        0 <= n <= facts.len(),
        all_placed(facts.take(n), opts) is Err,
    ensures
        all_placed(facts, opts) == all_placed(facts.take(n), opts),
    decreases facts.len(),
{
    if n == facts.len() {
        assert(facts.take(n) =~= facts);
    } else {
        assert(facts.drop_last().take(n) =~= facts.take(n));
        lemma_placed_err(facts.drop_last(), n, opts);
    }
}

fn clone_colliding(list: &Vec<CollidingCollection>) -> (r: Vec<CollidingCollection>)
    ensures
        r.deep_view() == list.deep_view(),
{
    let mut r: Vec<CollidingCollection> = Vec::new();
    let mut i: usize = 0;
    while i < list.len()
        invariant
            i <= list@.len(),
            r.deep_view() == list.deep_view().take(i as int),
        decreases list@.len() - i,
    {
        let ghost before = r.deep_view();
        r.push(list[i].clone());
        i = i + 1;
        proof {
            assert(r.deep_view() =~= before.push(list.deep_view()[i - 1]));
            assert(r.deep_view() =~= list.deep_view().take(i as int));
        }
    }
    proof {
        assert(list.deep_view().take(i as int) =~= list.deep_view());
    }
    r
}

fn names_of(list: &Vec<CollidingCollection>) -> (r: String)
    ensures
        r@ == name_list(list.deep_view()),
{
    let ghost all = list.deep_view();
    let mut r = String::new();
    let mut i: usize = 0;
    while i < list.len()
        invariant
            i <= list@.len(),
            all == list.deep_view(),
            r@ == name_list(all.take(i as int)),
        decreases list@.len() - i,
    {
        proof {
            assert(all.take(i + 1).drop_last() =~= all.take(i as int));
            assert(all.take(i + 1).last() == all[i as int]);
        }
        if i > 0 {
            r.append(", ");
        }
        r.append(list[i].name.as_str());
        proof {
            if i == 0 {
                assert(r@ =~= all[0].name);
            }
        }
        i = i + 1;
    }
    proof {
        assert(all.take(i as int) =~= all);
    }
    r
}

fn line_of(c: &DestinationCollision) -> (r: String)
    ensures
        r@ == collision_line(c.deep_view()),
{
    let mut r = "  ".to_owned();
    r.append(c.root.as_str());
    r.append(" (");
    r.append(
        if c.disk_only {
            "CHD"
        } else {
            "ROM"
        },
    );
    r.append(" outputs) <- ");
    let names = names_of(&c.collections);
    r.append(names.as_str());
    r.append("\n");
    r
}

/// Refuses to plan when two collections in scope resolve to the same destination
/// root and namespace.
pub fn check_unique_destinations(opts: &PlanOptions, facts: &[CollectionFacts]) -> (r: Result<
    (),
    PlanError,
>)
    ensures
        match r {
            Ok(_) => uniqueness(collection_scope::fact_views(facts@), opts.deep_view()) is Ok,
            Err(e) => uniqueness(collection_scope::fact_views(facts@), opts.deep_view()) == Err::<
                (),
                PlanErrorView,
            >(e.deep_view()),
        },
{
    let found = match find_destination_collisions(opts, facts) {
        Ok(found) => found,
        Err(e) => {
            return Err(PlanError::Path(e));
        },
    };
    let ghost all = found.deep_view();
    proof {
        assert(all.len() == found@.len());
    }
    if found.len() == 0 {
        return Ok(());
    }
    let mut message =
        "Refusing to plan: collections share a destination root, so their same-named games would overwrite each other. Give each collection a distinct dest_path (e.g. a per-machine subfolder), or run 'cat198x doctor --fix' to nest them under their own names.\n".to_owned();
    let ghost head = message@;
    let mut i: usize = 0;
    proof {
        assert(head + collision_lines(all.take(0)) =~= head);
    }
    while i < found.len()
        invariant
            i <= found@.len(),
            all == found.deep_view(),
            message@ == head + collision_lines(all.take(i as int)),
        decreases found@.len() - i,
    {
        proof {
            assert(all.take(i + 1).drop_last() =~= all.take(i as int));
        }
        let line = line_of(&found[i]);
        message.append(line.as_str());
        proof {
            assert(message@ =~= head + (collision_lines(all.take(i as int)) + line@));
        }
        i = i + 1;
    }
    proof {
        assert(all.take(i as int) =~= all);
    }
    Err(PlanError::SharedRoots { message })
}

} // verus!
