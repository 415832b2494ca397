//! The library's desired state: where the active DATs want content to be.

use super::archive_planning;
use super::archive_planning::group_by_game;
use super::collection_planning;
use super::collection_planning::{filter_matches, partition_disks};
use super::collection_scope;
use super::collection_scope::{
    resolve_scoped_collection, CollectionFacts, FactsView, ScopeView, ScopedCollectionResolution,
};
use super::destinations;
use super::destinations::{build_archive_dest_path, build_dest_path, build_disk_dest_path};
use super::options;
use super::options::{collection_name_matches, OptionsView, PlanOptions};
use super::placement_planning;
use super::placement_planning::{multi_rom_games, Layout};
use super::rules;
use super::rules::{
    archive_extension, archive_format_tag, effective_format, OutputFormat, MAX_MATCH_ROWS,
};
use super::types;
use super::types::{KindView, MatchView, MatchedRom};
use crate::db::config::CollectionConfig;
use crate::paths::{PathError, PathErrorView};
use crate::sorted_map;
use crate::sorted_map::{SortedMap, SortedSet};
use vstd::prelude::*;

verus! {

/// Where the active DATs want content to be.
pub struct DesiredState {
    /// Content SHA1 to the archives that it belongs in, for the content that was
    /// asked about
    pub archive_homes: SortedMap<String, SortedSet<String>>,
    /// Every destination: archive, loose or disk
    pub dest_paths: SortedSet<String>,
}

#[verifier::ext_equal]
pub struct DesiredView {
    pub archive_homes: Map<Seq<char>, Set<Seq<char>>>,
    pub dest_paths: Set<Seq<char>>,
}

impl DeepView for DesiredState {
    type V = DesiredView;

    open spec fn deep_view(&self) -> DesiredView {
        DesiredView {
            archive_homes: self.archive_homes@.map_values(|homes: SortedSet<String>| homes@),
            dest_paths: self.dest_paths@,
        }
    }
}

/// Destinations of a collection, and the archives that content belongs in.
pub struct Placements {
    /// Pairs of a SHA1 and an archive
    pub homes: Vec<(String, String)>,
    pub dests: Vec<String>,
}

#[verifier::ext_equal]
pub struct PlacementsView {
    pub homes: Seq<(Seq<char>, Seq<char>)>,
    pub dests: Seq<Seq<char>>,
}

impl DeepView for Placements {
    type V = PlacementsView;

    open spec fn deep_view(&self) -> PlacementsView {
        PlacementsView { homes: self.homes.deep_view(), dests: self.dests.deep_view() }
    }
}

/// The destinations of matches that are stored loose, in order.
pub open spec fn loose_places(
    layout: Layout,
    all: Seq<MatchView>,
    ms: Seq<MatchView>,
    dest_root: Seq<char>,
) -> Result<Seq<Seq<char>>, PathErrorView>
    decreases ms.len(),
{
    if ms.len() == 0 {
        Ok(Seq::empty())
    } else {
        match loose_places(layout, all, ms.drop_last(), dest_root) {
            Err(e) => Err(e),
            Ok(dests) => match placement_planning::dest_for(
                layout,
                all,
                placement_planning::rom_id(ms.last()),
                dest_root,
            ) {
                Err(e) => Err(e),
                Ok(dest) => Ok(dests.push(dest)),
            },
        }
    }
}

/// The homes that an archive is to content that was asked about.
pub open spec fn homes_in(
    ms: Seq<MatchView>,
    dest: Seq<char>,
    interesting: Set<Seq<char>>,
) -> Seq<(Seq<char>, Seq<char>)> {
    ms.filter(|m: MatchView| interesting.contains(m.sha1)).map_values(
        |m: MatchView| (m.sha1, dest),
    )
}

/// The archives of some games, one after the other.
pub open spec fn archive_places(
    ms: Seq<MatchView>,
    games: Seq<Seq<char>>,
    dest_root: Seq<char>,
    ext: Seq<char>,
    interesting: Set<Seq<char>>,
) -> Result<PlacementsView, PathErrorView>
    decreases games.len(),
{
    if games.len() == 0 {
        Ok(PlacementsView { homes: Seq::empty(), dests: Seq::empty() })
    } else {
        match archive_places(ms, games.drop_last(), dest_root, ext, interesting) {
            Err(e) => Err(e),
            Ok(p) => match destinations::archive_dest(dest_root, games.last(), ext) {
                Err(e) => Err(e),
                Ok(dest) => Ok(
                    PlacementsView {
                        homes: p.homes + homes_in(
                            archive_planning::of_game(ms, games.last()),
                            dest,
                            interesting,
                        ),
                        dests: p.dests.push(dest),
                    },
                ),
            },
        }
    }
}

/// The destinations of a collection: its disks first, then its ROMs as archives
/// or loose.
pub open spec fn places(
    ms: Seq<MatchView>,
    format: OutputFormat,
    dest_root: Seq<char>,
    interesting: Set<Seq<char>>,
) -> Result<PlacementsView, PathErrorView> {
    let disks = collection_planning::disks(ms);
    let roms = collection_planning::roms(ms);
    match loose_places(Layout::Disk, disks, disks, dest_root) {
        Err(e) => Err(e),
        Ok(for_disks) => match rules::tag_of(format) {
            Some(tag) => match archive_places(
                roms,
                sorted_map::in_order::<String>(archive_planning::game_names(roms)),
                dest_root,
                rules::extension_for(tag),
                interesting,
            ) {
                Err(e) => Err(e),
                Ok(p) => Ok(PlacementsView { homes: p.homes, dests: for_disks + p.dests }),
            },
            None => match loose_places(Layout::Loose, roms, roms, dest_root) {
                Err(e) => Err(e),
                Ok(for_roms) => Ok(
                    PlacementsView { homes: Seq::empty(), dests: for_disks + for_roms },
                ),
            },
        },
    }
}

/// A map of homes with one more.
pub open spec fn with_home(
    m: Map<Seq<char>, Set<Seq<char>>>,
    home: (Seq<char>, Seq<char>),
) -> Map<Seq<char>, Set<Seq<char>>> {
    let had = if m.contains_key(home.0) {
        m[home.0]
    } else {
        Set::empty()
    };
    m.insert(home.0, had.insert(home.1))
}

pub open spec fn with_homes(
    m: Map<Seq<char>, Set<Seq<char>>>,
    homes: Seq<(Seq<char>, Seq<char>)>,
) -> Map<Seq<char>, Set<Seq<char>>>
    decreases homes.len(),
{
    if homes.len() == 0 {
        m
    } else {
        with_home(with_homes(m, homes.drop_last()), homes.last())
    }
}

/// A desired state with a collection's placements recorded.
pub open spec fn recorded(s: DesiredView, p: PlacementsView) -> DesiredView {
    DesiredView {
        archive_homes: with_homes(s.archive_homes, p.homes),
        dest_paths: s.dest_paths.union(p.dests.to_set()),
    }
}

/// What a collection designates: nothing unless it is in scope, has a
/// destination and is not oversized, just as in planning.
pub open spec fn designated(f: FactsView, opts: OptionsView, interesting: Set<Seq<char>>) -> Result<
    PlacementsView,
    PathErrorView,
> {
    let none = PlacementsView { homes: Seq::empty(), dests: Seq::empty() };
    if !options::name_wanted(f.name, opts) {
        Ok(none)
    } else {
        match collection_scope::scope_of(f, opts) {
            Err(e) => Err(e),
            Ok(ScopeView::Resolved { version_id: _, hierarchy: _, dest_root: Some(root) }) =>
                if f.match_rows > MAX_MATCH_ROWS {
                    Ok(none)
                } else {
                    places(
                        collection_planning::filtered(f),
                        collection_planning::format_for(f, opts),
                        root,
                        interesting,
                    )
                },
            Ok(_) => Ok(none),
        }
    }
}

/// The desired state across collections.
pub open spec fn desired(
    facts: Seq<FactsView>,
    opts: OptionsView,
    interesting: Set<Seq<char>>,
) -> Result<DesiredView, PathErrorView>
    decreases facts.len(),
{
    if facts.len() == 0 {
        Ok(DesiredView { archive_homes: Map::empty(), dest_paths: Set::empty() })
    } else {
        match desired(facts.drop_last(), opts, interesting) {
            Err(e) => Err(e),
            Ok(s) => match designated(facts.last(), opts, interesting) {
                Err(e) => Err(e),
                Ok(p) => Ok(recorded(s, p)),
            },
        }
    }
}

// ---------------------------------------------------------------------------
// Laws
// ---------------------------------------------------------------------------

/// Whether every operation puts its content at one of some destinations.
pub open spec fn writes_within(kinds: Seq<KindView>, dests: Set<Seq<char>>) -> bool {
    forall|i: int|
        0 <= i < kinds.len() ==> (types::written_to(#[trigger] kinds[i]) matches Some(d) ==>
            dests.contains(d))
}

proof fn lemma_writes_join(a: Seq<KindView>, b: Seq<KindView>, dests: Set<Seq<char>>)
    requires
        writes_within(a, dests),
        writes_within(b, dests),
    ensures
        writes_within(a + b, dests),
{
    assert forall|i: int| 0 <= i < (a + b).len() implies (types::written_to(#[trigger] (a + b)[i]) matches Some(
        d,
    ) ==> dests.contains(d)) by {
        if i < a.len() {
            assert((a + b)[i] == a[i]);
        } else {
            assert((a + b)[i] == b[i - a.len()]);
        }
    }
}

proof fn lemma_writes_widen(a: Seq<KindView>, small: Set<Seq<char>>, large: Set<Seq<char>>)
    requires
        writes_within(a, small),
        small.subset_of(large),
    ensures
        writes_within(a, large),
{
}

proof fn lemma_deletes_write_nothing(paths: Seq<Seq<char>>, dest: Seq<char>, dests: Set<Seq<char>>)
    ensures
        writes_within(archive_planning::delete_kinds(paths, dest), dests),
{
}

proof fn lemma_loose_places_hold(
    layout: Layout,
    all: Seq<MatchView>,
    ms: Seq<MatchView>,
    dest_root: Seq<char>,
    i: int,
)
    requires
        loose_places(layout, all, ms, dest_root) is Ok,
        0 <= i < ms.len(),
    ensures
        placement_planning::dest_for(
            layout,
            all,
            placement_planning::rom_id(ms[i]),
            dest_root,
        ) matches Ok(d) && loose_places(layout, all, ms, dest_root)->Ok_0.to_set().contains(d),
    decreases ms.len(),
{
    let before = loose_places(layout, all, ms.drop_last(), dest_root)->Ok_0;
    let after = loose_places(layout, all, ms, dest_root)->Ok_0;
    if i < ms.len() - 1 {
        lemma_loose_places_hold(layout, all, ms.drop_last(), dest_root, i);
        let d = placement_planning::dest_for(
            layout,
            all,
            placement_planning::rom_id(ms[i]),
            dest_root,
        )->Ok_0;
        let j = choose|j: int| 0 <= j < before.len() && before[j] == d;
        assert(after[j] == d);
    } else {
        assert(after.last() == after[after.len() - 1]);
    }
}

proof fn lemma_roms_plan_writes(
    layout: Layout,
    ms: Seq<MatchView>,
    ids: Seq<(Seq<char>, Seq<char>, Seq<char>)>,
    inp: placement_planning::LooseInputsView,
)
    requires
        placement_planning::roms_plan(layout, ms, ids, inp) is Ok,
        loose_places(layout, ms, ms, inp.dest_root) is Ok,
        forall|i: int| 0 <= i < ids.len() ==> placement_planning::wanted(ms).contains(#[trigger] ids[i]),
    ensures
        writes_within(
            placement_planning::roms_plan(layout, ms, ids, inp)->Ok_0.kinds,
            loose_places(layout, ms, ms, inp.dest_root)->Ok_0.to_set(),
        ),
    decreases ids.len(),
{
    let dests = loose_places(layout, ms, ms, inp.dest_root)->Ok_0.to_set();
    if ids.len() > 0 {
        assert forall|i: int| 0 <= i < ids.drop_last().len() implies placement_planning::wanted(
            ms,
        ).contains(#[trigger] ids.drop_last()[i]) by {
            assert(ids.drop_last()[i] == ids[i]);
        }
        lemma_roms_plan_writes(layout, ms, ids.drop_last(), inp);
        let id = ids.last();
        let x = ms.map_values(|m: MatchView| placement_planning::rom_id(m));
        crate::seqs::lemma_distinct(x);
        assert(x.contains(ids[ids.len() - 1]));
        let i = choose|i: int| 0 <= i < x.len() && x[i] == id;
        lemma_loose_places_hold(layout, ms, ms, inp.dest_root, i);
        let dest = placement_planning::dest_for(layout, ms, id, inp.dest_root)->Ok_0;
        assert(dests.contains(dest));
        let cs = placement_planning::copies(ms, id);
        let shared = inp.shared.contains(id.2);
        let p = placement_planning::copy_plan(cs, dest, shared, inp);
        let before = placement_planning::roms_plan(layout, ms, ids.drop_last(), inp)->Ok_0;
        let used = if placement_planning::in_place(cs, dest) {
            None
        } else {
            Some(types::held_at(cs[0]))
        };
        let gone = if shared {
            Seq::empty()
        } else {
            placement_planning::surplus(cs, dest, used, inp)
        };
        let first = if placement_planning::in_place(cs, dest) {
            Seq::empty()
        } else {
            seq![placement_planning::place_kind(cs[0], dest, shared, inp)]
        };
        assert(writes_within(first, dests));
        lemma_deletes_write_nothing(gone, dest, dests);
        lemma_writes_join(first, archive_planning::delete_kinds(gone, dest), dests);
        lemma_writes_join(before.kinds, p.kinds, dests);
    }
}

proof fn lemma_games_plan_writes(
    ms: Seq<MatchView>,
    games: Seq<Seq<char>>,
    inp: archive_planning::InputsView,
    interesting: Set<Seq<char>>,
)
    requires
        archive_planning::games_plan(ms, games, inp) is Ok,
        archive_places(ms, games, inp.dest_root, inp.ext, interesting) is Ok,
    ensures
        writes_within(
            archive_planning::games_plan(ms, games, inp)->Ok_0.kinds,
            archive_places(ms, games, inp.dest_root, inp.ext, interesting)->Ok_0.dests.to_set(),
        ),
    decreases games.len(),
{
    if games.len() > 0 {
        lemma_games_plan_writes(ms, games.drop_last(), inp, interesting);
        let game = games.last();
        let gs = archive_planning::of_game(ms, game);
        let before = archive_planning::games_plan(ms, games.drop_last(), inp)->Ok_0;
        let small = archive_places(
            ms,
            games.drop_last(),
            inp.dest_root,
            inp.ext,
            interesting,
        )->Ok_0.dests;
        let dest = destinations::archive_dest(inp.dest_root, game, inp.ext)->Ok_0;
        let dests = small.push(dest).to_set();
        assert(small.push(dest)[small.len() as int] == dest);
        assert forall|d: Seq<char>| small.to_set().contains(d) implies dests.contains(d) by {
            let j = choose|j: int| 0 <= j < small.len() && small[j] == d;
            assert(small.push(dest)[j] == d);
        }
        lemma_writes_widen(before.kinds, small.to_set(), dests);
        let p = archive_planning::game_plan(game, gs, inp)->Ok_0;
        let placing = archive_planning::placing_plan(game, gs, dest, inp)->Ok_0;
        assert(writes_within(placing.kinds, dests));
        let gone = archive_planning::duplicates(
            gs,
            dest,
            super::archive_game::built_from(gs, dest),
            inp,
        );
        lemma_deletes_write_nothing(gone, dest, dests);
        lemma_writes_join(placing.kinds, archive_planning::delete_kinds(gone, dest), dests);
        lemma_writes_join(before.kinds, p.kinds, dests);
    }
}

/// The desired state and the planner agree: whatever a collection's plan puts
/// somewhere, it puts at a destination that the desired state designates.
pub proof fn law_planned_destinations_are_desired(
    ms: Seq<MatchView>,
    format: OutputFormat,
    dest_root: Seq<char>,
    ctx: collection_planning::ContextView,
    interesting: Set<Seq<char>>,
)
    requires
        collection_planning::content_plan(ms, format, dest_root, ctx) is Ok,
        places(ms, format, dest_root, interesting) is Ok,
    ensures
        writes_within(
            collection_planning::content_plan(ms, format, dest_root, ctx)->Ok_0.kinds,
            places(ms, format, dest_root, interesting)->Ok_0.dests.to_set(),
        ),
{
    let disks = collection_planning::disks(ms);
    let roms = collection_planning::roms(ms);
    let all = places(ms, format, dest_root, interesting)->Ok_0.dests;
    let inp = collection_planning::loose_inputs(dest_root, ctx);
    let for_disks = loose_places(Layout::Disk, disks, disks, dest_root)->Ok_0;
    assert(forall|i: int| 0 <= i < for_disks.len() ==> #[trigger] all[i] == for_disks[i]);
    assert forall|d: Seq<char>| for_disks.to_set().contains(d) implies all.to_set().contains(d) by {
        let j = choose|j: int| 0 <= j < for_disks.len() && for_disks[j] == d;
        assert(all[j] == d);
    }
    let rom_kinds = match rules::tag_of(format) {
        None => {
            let for_roms = loose_places(Layout::Loose, roms, roms, dest_root)->Ok_0;
            lemma_roms_plan_writes(Layout::Loose, roms, placement_planning::wanted(roms), inp);
            assert forall|d: Seq<char>| for_roms.to_set().contains(d) implies all.to_set().contains(
                d,
            ) by {
                let j = choose|j: int| 0 <= j < for_roms.len() && for_roms[j] == d;
                assert(all[for_disks.len() + j] == d);
            }
            let kinds = placement_planning::loose_plan(Layout::Loose, roms, inp)->Ok_0.kinds;
            lemma_writes_widen(kinds, for_roms.to_set(), all.to_set());
            kinds
        },
        Some(tag) => {
            let ext = rules::extension_for(tag);
            let ainp = archive_planning::InputsView {
                tag,
                ext,
                dest_root,
                default_dest: ctx.opts.default_dest,
                shared: ctx.shared,
                shared_containers: ctx.shared_containers,
                dispositions: ctx.dispositions,
            };
            let games = sorted_map::in_order::<String>(archive_planning::game_names(roms));
            lemma_games_plan_writes(roms, games, ainp, interesting);
            let for_roms = archive_places(roms, games, dest_root, ext, interesting)->Ok_0.dests;
            assert forall|d: Seq<char>| for_roms.to_set().contains(d) implies all.to_set().contains(
                d,
            ) by {
                let j = choose|j: int| 0 <= j < for_roms.len() && for_roms[j] == d;
                assert(all[for_disks.len() + j] == d);
            }
            let kinds = archive_planning::archive_plan(roms, ainp)->Ok_0.kinds;
            lemma_writes_widen(kinds, for_roms.to_set(), all.to_set());
            kinds
        },
    };
    if disks.len() > 0 {
        lemma_roms_plan_writes(Layout::Disk, disks, placement_planning::wanted(disks), inp);
        let kinds = placement_planning::loose_plan(Layout::Disk, disks, inp)->Ok_0.kinds;
        lemma_writes_widen(kinds, for_disks.to_set(), all.to_set());
        lemma_writes_join(rom_kinds, kinds, all.to_set());
    }
}

/// Every archive that is content's home is itself a destination, so what holds
/// the content is never taken for a leftover.
pub proof fn law_homes_are_destinations(
    facts: Seq<FactsView>,
    opts: OptionsView,
    interesting: Set<Seq<char>>,
    sha1: Seq<char>,
    dest: Seq<char>,
)
    requires
        desired(facts, opts, interesting) is Ok,
        desired(facts, opts, interesting)->Ok_0.archive_homes.contains_key(sha1),
        desired(facts, opts, interesting)->Ok_0.archive_homes[sha1].contains(dest),
    ensures
        desired(facts, opts, interesting)->Ok_0.dest_paths.contains(dest),
        interesting.contains(sha1),
    decreases facts.len(),
{
    let s = desired(facts.drop_last(), opts, interesting)->Ok_0;
    let p = designated(facts.last(), opts, interesting)->Ok_0;
    if p.homes.contains((sha1, dest)) {
        let f = facts.last();
        let roms = collection_planning::roms(collection_planning::filtered(f));
        let scope = collection_scope::scope_of(f, opts)->Ok_0;
        let root = scope->Resolved_dest_root->0;
        let tag = rules::tag_of(collection_planning::format_for(f, opts))->0;
        let games = sorted_map::in_order::<String>(archive_planning::game_names(roms));
        let ext = rules::extension_for(tag);
        let q = archive_places(roms, games, root, ext, interesting)->Ok_0;
        lemma_archive_homes(roms, games, root, ext, interesting, (sha1, dest));
        let j = choose|j: int| 0 <= j < q.dests.len() && q.dests[j] == dest;
        let for_disks = p.dests.len() - q.dests.len();
        assert(p.dests[for_disks + j] == dest);
    } else {
        lemma_homes_kept(s.archive_homes, p.homes, sha1, dest);
        law_homes_are_destinations(facts.drop_last(), opts, interesting, sha1, dest);
    }
}

proof fn lemma_homes_kept(
    m: Map<Seq<char>, Set<Seq<char>>>,
    homes: Seq<(Seq<char>, Seq<char>)>,
    sha1: Seq<char>,
    dest: Seq<char>,
)
    requires
        with_homes(m, homes).contains_key(sha1),
        with_homes(m, homes)[sha1].contains(dest),
        !homes.contains((sha1, dest)),
    ensures
        m.contains_key(sha1),
        m[sha1].contains(dest),
    decreases homes.len(),
{
    if homes.len() > 0 {
        assert(homes[homes.len() - 1] == homes.last());
        assert(homes.last() != (sha1, dest));
        assert forall|i: int| 0 <= i < homes.drop_last().len() implies homes.drop_last()[i] != (
            sha1,
            dest,
        ) by {
            assert(homes.drop_last()[i] == homes[i]);
        }
        lemma_homes_kept(m, homes.drop_last(), sha1, dest);
    }
}

proof fn lemma_archive_homes(
    ms: Seq<MatchView>,
    games: Seq<Seq<char>>,
    dest_root: Seq<char>,
    ext: Seq<char>,
    interesting: Set<Seq<char>>,
    home: (Seq<char>, Seq<char>),
)
    requires
        archive_places(ms, games, dest_root, ext, interesting) is Ok,
        archive_places(ms, games, dest_root, ext, interesting)->Ok_0.homes.contains(home),
    ensures
        archive_places(ms, games, dest_root, ext, interesting)->Ok_0.dests.contains(home.1),
        interesting.contains(home.0),
    decreases games.len(),
{
    if games.len() > 0 {
        let before = archive_places(ms, games.drop_last(), dest_root, ext, interesting)->Ok_0;
        let after = archive_places(ms, games, dest_root, ext, interesting)->Ok_0;
        let dest = destinations::archive_dest(dest_root, games.last(), ext)->Ok_0;
        let gs = archive_planning::of_game(ms, games.last());
        let more = homes_in(gs, dest, interesting);
        let i = choose|i: int| 0 <= i < after.homes.len() && after.homes[i] == home;
        if i < before.homes.len() {
            assert(before.homes[i] == home);
            lemma_archive_homes(ms, games.drop_last(), dest_root, ext, interesting, home);
            let j = choose|j: int| 0 <= j < before.dests.len() && before.dests[j] == home.1;
            assert(after.dests[j] == home.1);
        } else {
            let keep = |m: MatchView| interesting.contains(m.sha1);
            crate::seqs::lemma_filter_members(gs, keep);
            let k = i - before.homes.len();
            assert(more[k] == home);
            assert(gs.filter(keep).contains(gs.filter(keep)[k]));
            assert(after.dests[before.dests.len() as int] == dest);
        }
    }
}

/// Whether a map of homes gives content a home.
pub open spec fn is_home(
    m: Map<Seq<char>, Set<Seq<char>>>,
    sha1: Seq<char>,
    dest: Seq<char>,
) -> bool {
    m.contains_key(sha1) && m[sha1].contains(dest)
}

/// Whether a map of homes lists no content without a home.
pub open spec fn all_housed(m: Map<Seq<char>, Set<Seq<char>>>) -> bool {
    forall|k: Seq<char>| #[trigger] m.contains_key(k) ==> !(m[k] =~= Set::empty())
}

/// Whether two maps of homes say the same of some content.
pub open spec fn same_homes(
    a: Map<Seq<char>, Set<Seq<char>>>,
    b: Map<Seq<char>, Set<Seq<char>>>,
    sha1: Seq<char>,
) -> bool {
    &&& a.contains_key(sha1) == b.contains_key(sha1)
    &&& a.contains_key(sha1) ==> a[sha1] == b[sha1]
}

proof fn lemma_with_homes(
    m: Map<Seq<char>, Set<Seq<char>>>,
    homes: Seq<(Seq<char>, Seq<char>)>,
)
    requires
        all_housed(m),
    ensures
        all_housed(with_homes(m, homes)),
        forall|k: Seq<char>, d: Seq<char>| #[trigger]
            is_home(with_homes(m, homes), k, d) <==> is_home(m, k, d) || homes.contains((k, d)),
    decreases homes.len(),
{
    if homes.len() > 0 {
        let rest = homes.drop_last();
        let before = with_homes(m, rest);
        let after = with_homes(m, homes);
        let last = homes.last();
        lemma_with_homes(m, rest);
        assert forall|k: Seq<char>| #[trigger] after.contains_key(k) implies !(after[k]
            =~= Set::empty()) by {
            if k == last.0 {
                assert(after[k].contains(last.1));
            } else {
                assert(before.contains_key(k));
            }
        }
        assert forall|k: Seq<char>, d: Seq<char>| #[trigger] is_home(after, k, d) <==> is_home(
            m,
            k,
            d,
        ) || homes.contains((k, d)) by {
            assert(is_home(before, k, d) <==> is_home(m, k, d) || rest.contains((k, d)));
            assert(homes == rest.push(last));
            assert(homes.contains((k, d)) <==> rest.contains((k, d)) || last == (k, d)) by {
                if rest.contains((k, d)) {
                    let i = choose|i: int| 0 <= i < rest.len() && rest[i] == (k, d);
                    assert(homes[i] == (k, d));
                }
                if last == (k, d) {
                    assert(homes[homes.len() - 1] == (k, d));
                }
                if homes.contains((k, d)) && last != (k, d) {
                    let i = choose|i: int| 0 <= i < homes.len() && homes[i] == (k, d);
                    assert(rest[i] == (k, d));
                }
            }
        }
    }
}

proof fn lemma_same_homes(
    a: Map<Seq<char>, Set<Seq<char>>>,
    b: Map<Seq<char>, Set<Seq<char>>>,
    sha1: Seq<char>,
)
    requires
        all_housed(a),
        all_housed(b),
        forall|d: Seq<char>| #[trigger] is_home(a, sha1, d) <==> is_home(b, sha1, d),
    ensures
        same_homes(a, b, sha1),
{
    if a.contains_key(sha1) {
        let d = choose|d: Seq<char>| a[sha1].contains(d);
        assert(is_home(a, sha1, d));
    }
    if b.contains_key(sha1) {
        let d = choose|d: Seq<char>| b[sha1].contains(d);
        assert(is_home(a, sha1, d) <==> is_home(b, sha1, d));
    }
    if a.contains_key(sha1) {
        assert forall|d: Seq<char>| a[sha1].contains(d) == b[sha1].contains(d) by {
            assert(is_home(a, sha1, d) <==> is_home(b, sha1, d));
        }
        assert(a[sha1] =~= b[sha1]);
    }
}

proof fn lemma_archive_places_agree(
    ms: Seq<MatchView>,
    games: Seq<Seq<char>>,
    dest_root: Seq<char>,
    ext: Seq<char>,
    x: Set<Seq<char>>,
    y: Set<Seq<char>>,
)
    ensures
        placements_agree(
            archive_places(ms, games, dest_root, ext, x),
            archive_places(ms, games, dest_root, ext, y),
            x.intersect(y),
        ),
    decreases games.len(),
{
    if games.len() > 0 {
        let rest = games.drop_last();
        lemma_archive_places_agree(ms, rest, dest_root, ext, x, y);
        if archive_places(ms, rest, dest_root, ext, x) is Ok && destinations::archive_dest(
            dest_root,
            games.last(),
            ext,
        ) is Ok {
            let dest = destinations::archive_dest(dest_root, games.last(), ext)->Ok_0;
            let gs = archive_planning::of_game(ms, games.last());
            let p = archive_places(ms, rest, dest_root, ext, x)->Ok_0;
            let q = archive_places(ms, rest, dest_root, ext, y)->Ok_0;
            assert forall|k: Seq<char>, d: Seq<char>| x.intersect(y).contains(k) implies (
            #[trigger] (p.homes + homes_in(gs, dest, x)).contains((k, d)) <==> (q.homes + homes_in(
                gs,
                dest,
                y,
            )).contains((k, d))) by {
                lemma_in_either(p.homes, homes_in(gs, dest, x), (k, d));
                lemma_in_either(q.homes, homes_in(gs, dest, y), (k, d));
                lemma_homes_in(gs, dest, x, (k, d));
                lemma_homes_in(gs, dest, y, (k, d));
                assert(p.homes.contains((k, d)) <==> q.homes.contains((k, d)));
            }
        }
    }
}

proof fn lemma_in_either<A>(a: Seq<A>, b: Seq<A>, v: A)
    ensures
        (a + b).contains(v) <==> a.contains(v) || b.contains(v),
{
    if a.contains(v) {
        let i = choose|i: int| 0 <= i < a.len() && a[i] == v;
        assert((a + b)[i] == v);
    }
    if b.contains(v) {
        let i = choose|i: int| 0 <= i < b.len() && b[i] == v;
        assert((a + b)[a.len() + i] == v);
    }
    if (a + b).contains(v) {
        let i = choose|i: int| 0 <= i < (a + b).len() && (a + b)[i] == v;
        if i < a.len() {
            assert(a[i] == v);
        } else {
            assert(b[i - a.len()] == v);
        }
    }
}

/// Whether some match is of content.
spec fn holds_sha1(ms: Seq<MatchView>, sha1: Seq<char>) -> bool {
    exists|i: int| 0 <= i < ms.len() && (#[trigger] ms[i]).sha1 == sha1
}

proof fn lemma_homes_in(
    ms: Seq<MatchView>,
    dest: Seq<char>,
    interesting: Set<Seq<char>>,
    home: (Seq<char>, Seq<char>),
)
    ensures
        homes_in(ms, dest, interesting).contains(home) <==> home.1 == dest && interesting.contains(
            home.0,
        ) && holds_sha1(ms, home.0),
{
    let keep = |m: MatchView| interesting.contains(m.sha1);
    let kept = ms.filter(keep);
    let homes = homes_in(ms, dest, interesting);
    crate::seqs::lemma_filter_members(ms, keep);
    if homes.contains(home) {
        let i = choose|i: int| 0 <= i < homes.len() && homes[i] == home;
        assert(kept.contains(kept[i]));
        let j = choose|j: int| 0 <= j < ms.len() && ms[j] == kept[i];
        assert(ms[j].sha1 == home.0);
    }
    if home.1 == dest && interesting.contains(home.0) && holds_sha1(ms, home.0) {
        let j = choose|j: int| 0 <= j < ms.len() && (#[trigger] ms[j]).sha1 == home.0;
        assert(ms.contains(ms[j]));
        assert(kept.contains(ms[j]));
        let i = choose|i: int| 0 <= i < kept.len() && kept[i] == ms[j];
        assert(homes[i] == home);
    }
}

/// Whether placements fail alike, or have the same destinations and give the same
/// homes to some content.
spec fn placements_agree(
    a: Result<PlacementsView, PathErrorView>,
    b: Result<PlacementsView, PathErrorView>,
    asked: Set<Seq<char>>,
) -> bool {
    match (a, b) {
        (Err(e), Err(f)) => e == f,
        (Ok(p), Ok(q)) => p.dests == q.dests && forall|k: Seq<char>, d: Seq<char>|
            asked.contains(k) ==> (#[trigger] p.homes.contains((k, d)) <==> q.homes.contains(
                (k, d),
            )),
        _ => false,
    }
}

proof fn lemma_designated_agree(
    f: FactsView,
    opts: OptionsView,
    x: Set<Seq<char>>,
    y: Set<Seq<char>>,
)
    ensures
        placements_agree(designated(f, opts, x), designated(f, opts, y), x.intersect(y)),
{
    if let Ok(ScopeView::Resolved { version_id: _, hierarchy: _, dest_root: Some(root) }) =
        collection_scope::scope_of(f, opts) {
        if let Some(tag) = rules::tag_of(collection_planning::format_for(f, opts)) {
            let roms = collection_planning::roms(collection_planning::filtered(f));
            let games = sorted_map::in_order::<String>(archive_planning::game_names(roms));
            lemma_archive_places_agree(roms, games, root, rules::extension_for(tag), x, y);
        }
    }
}

proof fn lemma_desired_agree(
    facts: Seq<FactsView>,
    opts: OptionsView,
    x: Set<Seq<char>>,
    y: Set<Seq<char>>,
)
    ensures
        match (desired(facts, opts, x), desired(facts, opts, y)) {
            (Err(e), Err(f)) => e == f,
            (Ok(a), Ok(b)) => {
                &&& all_housed(a.archive_homes)
                &&& all_housed(b.archive_homes)
                &&& a.dest_paths == b.dest_paths
                &&& forall|k: Seq<char>, d: Seq<char>|
                    x.intersect(y).contains(k) ==> (#[trigger] is_home(a.archive_homes, k, d)
                        <==> is_home(b.archive_homes, k, d))
            },
            _ => false,
        },
    decreases facts.len(),
{
    if facts.len() > 0 {
        let rest = facts.drop_last();
        let f = facts.last();
        lemma_desired_agree(rest, opts, x, y);
        lemma_designated_agree(f, opts, x, y);
        if desired(rest, opts, x) is Ok && designated(f, opts, x) is Ok {
            let a = desired(rest, opts, x)->Ok_0.archive_homes;
            let b = desired(rest, opts, y)->Ok_0.archive_homes;
            let p = designated(f, opts, x)->Ok_0.homes;
            let q = designated(f, opts, y)->Ok_0.homes;
            lemma_with_homes(a, p);
            lemma_with_homes(b, q);
            assert forall|k: Seq<char>, d: Seq<char>| x.intersect(y).contains(k) implies (
            #[trigger] is_home(with_homes(a, p), k, d) <==> is_home(with_homes(b, q), k, d)) by {
                assert(is_home(a, k, d) <==> is_home(b, k, d));
                assert(p.contains((k, d)) <==> q.contains((k, d)));
            }
        }
    }
}

/// The desired state is one state, of which a caller asks for a part: whatever is
/// asked about, it fails alike or has the same destinations, and content that was
/// asked about both times has the same homes both times.
pub proof fn law_asking_changes_no_answer(
    facts: Seq<FactsView>,
    opts: OptionsView,
    x: Set<Seq<char>>,
    y: Set<Seq<char>>,
)
    ensures
        match (desired(facts, opts, x), desired(facts, opts, y)) {
            (Err(e), Err(f)) => e == f,
            (Ok(a), Ok(b)) => a.dest_paths == b.dest_paths && forall|k: Seq<char>|
                x.contains(k) && y.contains(k) ==> #[trigger] same_homes(
                    a.archive_homes,
                    b.archive_homes,
                    k,
                ),
            _ => false,
        },
{
    lemma_desired_agree(facts, opts, x, y);
    if desired(facts, opts, x) is Ok {
        let a = desired(facts, opts, x)->Ok_0.archive_homes;
        let b = desired(facts, opts, y)->Ok_0.archive_homes;
        assert forall|k: Seq<char>| x.contains(k) && y.contains(k) implies #[trigger] same_homes(
            a,
            b,
            k,
        ) by {
            assert(x.intersect(y).contains(k));
            lemma_same_homes(a, b, k);
        }
    }
}

/// Homes are listed of content that was asked about only, and whatever is listed
/// has a home, all of its homes being destinations.
pub proof fn law_homes_answer_what_was_asked(
    facts: Seq<FactsView>,
    opts: OptionsView,
    interesting: Set<Seq<char>>,
    sha1: Seq<char>,
)
    requires
        desired(facts, opts, interesting) is Ok,
        desired(facts, opts, interesting)->Ok_0.archive_homes.contains_key(sha1),
    ensures
        interesting.contains(sha1),
        desired(facts, opts, interesting)->Ok_0.archive_homes[sha1] != Set::<Seq<char>>::empty(),
        desired(facts, opts, interesting)->Ok_0.archive_homes[sha1].subset_of(
            desired(facts, opts, interesting)->Ok_0.dest_paths,
        ),
{
    lemma_desired_agree(facts, opts, interesting, interesting);
    let s = desired(facts, opts, interesting)->Ok_0;
    let home = choose|d: Seq<char>| s.archive_homes[sha1].contains(d);
    assert(s.archive_homes[sha1].contains(home));
    law_homes_are_destinations(facts, opts, interesting, sha1, home);
    assert forall|d: Seq<char>| s.archive_homes[sha1].contains(d) implies s.dest_paths.contains(
        d,
    ) by {
        law_homes_are_destinations(facts, opts, interesting, sha1, d);
    }
}

proof fn lemma_loose_members(
    layout: Layout,
    all: Seq<MatchView>,
    ms: Seq<MatchView>,
    dest_root: Seq<char>,
    d: Seq<char>,
)
    requires
        loose_places(layout, all, ms, dest_root) is Ok,
    ensures
        loose_places(layout, all, ms, dest_root)->Ok_0.contains(d) <==> exists|i: int|
            0 <= i < ms.len() && placement_planning::dest_for(
                layout,
                all,
                placement_planning::rom_id(#[trigger] ms[i]),
                dest_root,
            ) == Ok::<Seq<char>, PathErrorView>(d),
    decreases ms.len(),
{
    if ms.len() > 0 {
        let rest = ms.drop_last();
        lemma_loose_members(layout, all, rest, dest_root, d);
        let before = loose_places(layout, all, rest, dest_root)->Ok_0;
        let after = loose_places(layout, all, ms, dest_root)->Ok_0;
        let last = placement_planning::dest_for(
            layout,
            all,
            placement_planning::rom_id(ms.last()),
            dest_root,
        )->Ok_0;
        assert(after == before.push(last));
        if after.contains(d) {
            let j = choose|j: int| 0 <= j < after.len() && after[j] == d;
            if j < before.len() {
                assert(before[j] == d);
                let i = choose|i: int|
                    0 <= i < rest.len() && placement_planning::dest_for(
                        layout,
                        all,
                        placement_planning::rom_id(#[trigger] rest[i]),
                        dest_root,
                    ) == Ok::<Seq<char>, PathErrorView>(d);
                assert(ms[i] == rest[i]);
            } else {
                assert(ms[ms.len() - 1] == ms.last());
            }
        }
        if exists|i: int|
            0 <= i < ms.len() && placement_planning::dest_for(
                layout,
                all,
                placement_planning::rom_id(#[trigger] ms[i]),
                dest_root,
            ) == Ok::<Seq<char>, PathErrorView>(d) {
            let i = choose|i: int|
                0 <= i < ms.len() && placement_planning::dest_for(
                    layout,
                    all,
                    placement_planning::rom_id(#[trigger] ms[i]),
                    dest_root,
                ) == Ok::<Seq<char>, PathErrorView>(d);
            if i < rest.len() {
                assert(rest[i] == ms[i]);
                let j = choose|j: int| 0 <= j < before.len() && before[j] == d;
                assert(after[j] == d);
            } else {
                assert(after[before.len() as int] == d);
            }
        }
    }
}

proof fn lemma_archive_members(
    ms: Seq<MatchView>,
    games: Seq<Seq<char>>,
    dest_root: Seq<char>,
    ext: Seq<char>,
    interesting: Set<Seq<char>>,
    k: Seq<char>,
    d: Seq<char>,
)
    requires
        archive_places(ms, games, dest_root, ext, interesting) is Ok,
    ensures
        archive_places(ms, games, dest_root, ext, interesting)->Ok_0.dests.contains(d) <==> exists|
            g: int,
        |
            0 <= g < games.len() && destinations::archive_dest(dest_root, #[trigger] games[g], ext)
                == Ok::<Seq<char>, PathErrorView>(d),
        archive_places(ms, games, dest_root, ext, interesting)->Ok_0.homes.contains((k, d)) <==>
            exists|g: int|
            0 <= g < games.len() && destinations::archive_dest(dest_root, #[trigger] games[g], ext)
                == Ok::<Seq<char>, PathErrorView>(d) && interesting.contains(k) && holds_sha1(
                archive_planning::of_game(ms, games[g]),
                k,
            ),
    decreases games.len(),
{
    if games.len() > 0 {
        let rest = games.drop_last();
        lemma_archive_members(ms, rest, dest_root, ext, interesting, k, d);
        let before = archive_places(ms, rest, dest_root, ext, interesting)->Ok_0;
        let after = archive_places(ms, games, dest_root, ext, interesting)->Ok_0;
        let last = games.last();
        let dest = destinations::archive_dest(dest_root, last, ext)->Ok_0;
        let here = homes_in(archive_planning::of_game(ms, last), dest, interesting);
        lemma_homes_in(archive_planning::of_game(ms, last), dest, interesting, (k, d));
        assert(after.dests == before.dests.push(dest));
        assert(after.homes == before.homes + here);
        assert(games[games.len() - 1] == last);
        assert(forall|g: int| 0 <= g < rest.len() ==> #[trigger] rest[g] == games[g]);
        assert(after.dests.contains(d) <==> before.dests.contains(d) || d == dest) by {
            if after.dests.contains(d) {
                let j = choose|j: int| 0 <= j < after.dests.len() && after.dests[j] == d;
                if j < before.dests.len() {
                    assert(before.dests[j] == d);
                }
            }
            if before.dests.contains(d) {
                let j = choose|j: int| 0 <= j < before.dests.len() && before.dests[j] == d;
                assert(after.dests[j] == d);
            }
            assert(after.dests[before.dests.len() as int] == dest);
        }
        assert(after.homes.contains((k, d)) <==> before.homes.contains((k, d)) || here.contains(
            (k, d),
        )) by {
            if after.homes.contains((k, d)) {
                let j = choose|j: int| 0 <= j < after.homes.len() && after.homes[j] == (k, d);
                if j < before.homes.len() {
                    assert(before.homes[j] == (k, d));
                } else {
                    assert(here[j - before.homes.len()] == (k, d));
                }
            }
            if before.homes.contains((k, d)) {
                let j = choose|j: int| 0 <= j < before.homes.len() && before.homes[j] == (k, d);
                assert(after.homes[j] == (k, d));
            }
            if here.contains((k, d)) {
                let j = choose|j: int| 0 <= j < here.len() && here[j] == (k, d);
                assert(after.homes[before.homes.len() + j] == (k, d));
            }
        }
        if exists|g: int|
            0 <= g < games.len() && destinations::archive_dest(dest_root, #[trigger] games[g], ext)
                == Ok::<Seq<char>, PathErrorView>(d) {
            let g = choose|g: int|
                0 <= g < games.len() && destinations::archive_dest(
                    dest_root,
                    #[trigger] games[g],
                    ext,
                ) == Ok::<Seq<char>, PathErrorView>(d);
            if g < rest.len() {
                assert(rest[g] == games[g]);
            } else {
                assert(dest == d);
            }
        }
        if exists|g: int|
            0 <= g < games.len() && destinations::archive_dest(dest_root, #[trigger] games[g], ext)
                == Ok::<Seq<char>, PathErrorView>(d) && interesting.contains(k) && holds_sha1(
                archive_planning::of_game(ms, games[g]),
                k,
            ) {
            let g = choose|g: int|
                0 <= g < games.len() && destinations::archive_dest(
                    dest_root,
                    #[trigger] games[g],
                    ext,
                ) == Ok::<Seq<char>, PathErrorView>(d) && interesting.contains(k) && holds_sha1(
                    archive_planning::of_game(ms, games[g]),
                    k,
                );
            if g < rest.len() {
                assert(rest[g] == games[g]);
            } else {
                assert(here.contains((k, d)));
            }
        }
    }
}

/// The archive of a match's game is among those of the games, and the match is one of
/// that game's.
proof fn lemma_match_has_game(ms: Seq<MatchView>, i: int) -> (g: int)
    requires
        0 <= i < ms.len(),
    ensures
        ({
            let games = sorted_map::in_order::<String>(archive_planning::game_names(ms));
            &&& 0 <= g < games.len()
            &&& games[g] == ms[i].game_name
            &&& holds_sha1(archive_planning::of_game(ms, games[g]), ms[i].sha1)
        }),
{
    let names = archive_planning::game_names(ms);
    let games = sorted_map::in_order::<String>(names);
    archive_planning::lemma_games_listed(ms);
    let name = ms[i].game_name;
    assert(names.contains(name));
    assert(games.to_set().contains(name));
    let g = choose|g: int| 0 <= g < games.len() && games[g] == name;
    let f = |m: MatchView| m.game_name == name;
    crate::seqs::lemma_filter_members(ms, f);
    assert(ms.contains(ms[i]));
    let of = archive_planning::of_game(ms, name);
    assert(of.contains(ms[i]));
    let j = choose|j: int| 0 <= j < of.len() && of[j] == ms[i];
    assert(of[j].sha1 == ms[i].sha1);
    g
}

/// Every game among matches has a match.
proof fn lemma_game_has_match(ms: Seq<MatchView>, g: int) -> (i: int)
    requires
        0 <= g < sorted_map::in_order::<String>(archive_planning::game_names(ms)).len(),
    ensures
        0 <= i < ms.len(),
        ms[i].game_name == sorted_map::in_order::<String>(archive_planning::game_names(ms))[g],
{
    let names = archive_planning::game_names(ms);
    let games = sorted_map::in_order::<String>(names);
    archive_planning::lemma_games_listed(ms);
    assert(games.to_set().contains(games[g]));
    assert(names.contains(games[g]));
    choose|i: int| 0 <= i < ms.len() && (#[trigger] ms[i]).game_name == games[g]
}

/// Content of a game is that of one of its matches.
proof fn lemma_content_has_match(ms: Seq<MatchView>, name: Seq<char>, k: Seq<char>) -> (i: int)
    requires
        holds_sha1(archive_planning::of_game(ms, name), k),
    ensures
        0 <= i < ms.len(),
        ms[i].game_name == name,
        ms[i].sha1 == k,
{
    let f = |m: MatchView| m.game_name == name;
    crate::seqs::lemma_filter_members(ms, f);
    let of = archive_planning::of_game(ms, name);
    let j = choose|j: int| 0 <= j < of.len() && (#[trigger] of[j]).sha1 == k;
    assert(of.contains(of[j]));
    let i = choose|i: int| 0 <= i < ms.len() && ms[i] == of[j];
    assert(f(ms[i]));
    i
}

proof fn lemma_archive_of_matches(
    ms: Seq<MatchView>,
    dest_root: Seq<char>,
    ext: Seq<char>,
    interesting: Set<Seq<char>>,
    k: Seq<char>,
    d: Seq<char>,
)
    requires
        archive_places(
            ms,
            sorted_map::in_order::<String>(archive_planning::game_names(ms)),
            dest_root,
            ext,
            interesting,
        ) is Ok,
    ensures
        ({
            let p = archive_places(
                ms,
                sorted_map::in_order::<String>(archive_planning::game_names(ms)),
                dest_root,
                ext,
                interesting,
            )->Ok_0;
            let at = |m: MatchView|
                destinations::archive_dest(dest_root, m.game_name, ext) == Ok::<
                    Seq<char>,
                    PathErrorView,
                >(d);
            &&& p.dests.contains(d) <==> exists|i: int| 0 <= i < ms.len() && at(#[trigger] ms[i])
            &&& p.homes.contains((k, d)) <==> interesting.contains(k) && exists|i: int|
                0 <= i < ms.len() && at(#[trigger] ms[i]) && ms[i].sha1 == k
        }),
{
    let games = sorted_map::in_order::<String>(archive_planning::game_names(ms));
    lemma_archive_members(ms, games, dest_root, ext, interesting, k, d);
    let p = archive_places(ms, games, dest_root, ext, interesting)->Ok_0;
    let at = |m: MatchView|
        destinations::archive_dest(dest_root, m.game_name, ext) == Ok::<Seq<char>, PathErrorView>(
            d,
        );
    if p.dests.contains(d) {
        let g = choose|g: int|
            0 <= g < games.len() && destinations::archive_dest(dest_root, #[trigger] games[g], ext)
                == Ok::<Seq<char>, PathErrorView>(d);
        let i = lemma_game_has_match(ms, g);
        assert(at(ms[i]));
    }
    if exists|i: int| 0 <= i < ms.len() && at(#[trigger] ms[i]) {
        let i = choose|i: int| 0 <= i < ms.len() && at(#[trigger] ms[i]);
        let g = lemma_match_has_game(ms, i);
        assert(destinations::archive_dest(dest_root, games[g], ext) == Ok::<
            Seq<char>,
            PathErrorView,
        >(d));
    }
    if p.homes.contains((k, d)) {
        let g = choose|g: int|
            0 <= g < games.len() && destinations::archive_dest(dest_root, #[trigger] games[g], ext)
                == Ok::<Seq<char>, PathErrorView>(d) && interesting.contains(k) && holds_sha1(
                archive_planning::of_game(ms, games[g]),
                k,
            );
        let i = lemma_content_has_match(ms, games[g], k);
        assert(at(ms[i]));
    }
    if interesting.contains(k) && exists|i: int|
        0 <= i < ms.len() && at(#[trigger] ms[i]) && ms[i].sha1 == k {
        let i = choose|i: int| 0 <= i < ms.len() && at(#[trigger] ms[i]) && ms[i].sha1 == k;
        let g = lemma_match_has_game(ms, i);
        assert(destinations::archive_dest(dest_root, games[g], ext) == Ok::<
            Seq<char>,
            PathErrorView,
        >(d));
    }
}

/// Some member that a filter keeps has a property exactly where some member does that
/// the filter accepts.
proof fn lemma_filter_exists(
    ms: Seq<MatchView>,
    f: spec_fn(MatchView) -> bool,
    q: spec_fn(MatchView) -> bool,
)
    ensures
        (exists|j: int| 0 <= j < ms.filter(f).len() && q(#[trigger] ms.filter(f)[j])) <==> (exists|
            i: int,
        |
            0 <= i < ms.len() && f(#[trigger] ms[i]) && q(ms[i])),
{
    let kept = ms.filter(f);
    crate::seqs::lemma_filter_members(ms, f);
    if exists|j: int| 0 <= j < kept.len() && q(#[trigger] kept[j]) {
        let j = choose|j: int| 0 <= j < kept.len() && q(#[trigger] kept[j]);
        assert(kept.contains(kept[j]));
        let i = choose|i: int| 0 <= i < ms.len() && ms[i] == kept[j];
        assert(f(ms[i]) && q(ms[i]));
    }
    if exists|i: int| 0 <= i < ms.len() && f(#[trigger] ms[i]) && q(ms[i]) {
        let i = choose|i: int| 0 <= i < ms.len() && f(#[trigger] ms[i]) && q(ms[i]);
        assert(ms.contains(ms[i]));
        assert(kept.contains(ms[i]));
        let j = choose|j: int| 0 <= j < kept.len() && kept[j] == ms[i];
        assert(q(kept[j]));
    }
}

/// A collection stored as archives designates exactly the archives of the games that
/// its ROMs belong to and the places of its disks; content that was asked about is at
/// home in the archive of each game that wants it.
pub proof fn law_archives_are_designated_for_games(
    ms: Seq<MatchView>,
    format: OutputFormat,
    dest_root: Seq<char>,
    interesting: Set<Seq<char>>,
    k: Seq<char>,
    d: Seq<char>,
)
    requires
        !(format is Loose),
        places(ms, format, dest_root, interesting) is Ok,
    ensures
        ({
            let p = places(ms, format, dest_root, interesting)->Ok_0;
            let ext = if format is SevenZip {
                "7z"@
            } else {
                "zip"@
            };
            &&& p.dests.contains(d) <==> (exists|i: int|
                0 <= i < ms.len() && !(#[trigger] ms[i]).is_disk && destinations::archive_dest(
                    dest_root,
                    ms[i].game_name,
                    ext,
                ) == Ok::<Seq<char>, PathErrorView>(d)) || (exists|i: int|
                0 <= i < ms.len() && (#[trigger] ms[i]).is_disk && placement_planning::dest_for(
                    Layout::Disk,
                    ms.filter(|m: MatchView| m.is_disk),
                    (ms[i].game_name, ms[i].rom_name, ms[i].sha1),
                    dest_root,
                ) == Ok::<Seq<char>, PathErrorView>(d))
            &&& p.homes.contains((k, d)) <==> interesting.contains(k) && exists|i: int|
                0 <= i < ms.len() && !(#[trigger] ms[i]).is_disk && ms[i].sha1 == k
                    && destinations::archive_dest(dest_root, ms[i].game_name, ext) == Ok::<
                    Seq<char>,
                    PathErrorView,
                >(d)
        }),
{
    let disks = collection_planning::disks(ms);
    let roms = collection_planning::roms(ms);
    let tag = rules::tag_of(format)->0;
    let ext = rules::extension_for(tag);
    rules::law_format_settings_name_formats(Seq::empty(), format, format);
    reveal_strlit("zip");
    reveal_strlit("torrentzip");
    reveal_strlit("7z");
    assert("zip"@.len() == 3 && "torrentzip"@.len() == 10 && "7z"@.len() == 2);
    lemma_loose_members(Layout::Disk, disks, disks, dest_root, d);
    lemma_archive_of_matches(roms, dest_root, ext, interesting, k, d);
    let is_disk = |m: MatchView| m.is_disk;
    let is_rom = |m: MatchView| !m.is_disk;
    let at = |m: MatchView|
        destinations::archive_dest(dest_root, m.game_name, ext) == Ok::<Seq<char>, PathErrorView>(
            d,
        );
    let of = |m: MatchView|
        destinations::archive_dest(dest_root, m.game_name, ext) == Ok::<Seq<char>, PathErrorView>(
            d,
        ) && m.sha1 == k;
    let lies = |m: MatchView|
        placement_planning::dest_for(
            Layout::Disk,
            disks,
            placement_planning::rom_id(m),
            dest_root,
        ) == Ok::<Seq<char>, PathErrorView>(d);
    lemma_filter_exists(ms, is_rom, at);
    lemma_filter_exists(ms, is_rom, of);
    lemma_filter_exists(ms, is_disk, lies);
    let for_disks = loose_places(Layout::Disk, disks, disks, dest_root)->Ok_0;
    let p = archive_places(
        roms,
        sorted_map::in_order::<String>(archive_planning::game_names(roms)),
        dest_root,
        ext,
        interesting,
    )->Ok_0;
    lemma_joined_members(for_disks, p.dests, d);
}

/// A collection stored loose designates exactly the places of its ROMs and disks, and
/// no archive.
pub proof fn law_loose_places_are_designated(
    ms: Seq<MatchView>,
    dest_root: Seq<char>,
    interesting: Set<Seq<char>>,
    d: Seq<char>,
)
    requires
        places(ms, OutputFormat::Loose, dest_root, interesting) is Ok,
    ensures
        ({
            let p = places(ms, OutputFormat::Loose, dest_root, interesting)->Ok_0;
            &&& p.homes.len() == 0
            &&& p.dests.contains(d) <==> (exists|i: int|
                0 <= i < ms.len() && !(#[trigger] ms[i]).is_disk && placement_planning::dest_for(
                    Layout::Loose,
                    ms.filter(|m: MatchView| !m.is_disk),
                    (ms[i].game_name, ms[i].rom_name, ms[i].sha1),
                    dest_root,
                ) == Ok::<Seq<char>, PathErrorView>(d)) || (exists|i: int|
                0 <= i < ms.len() && (#[trigger] ms[i]).is_disk && placement_planning::dest_for(
                    Layout::Disk,
                    ms.filter(|m: MatchView| m.is_disk),
                    (ms[i].game_name, ms[i].rom_name, ms[i].sha1),
                    dest_root,
                ) == Ok::<Seq<char>, PathErrorView>(d))
        }),
{
    let disks = collection_planning::disks(ms);
    let roms = collection_planning::roms(ms);
    lemma_loose_members(Layout::Disk, disks, disks, dest_root, d);
    lemma_loose_members(Layout::Loose, roms, roms, dest_root, d);
    let is_disk = |m: MatchView| m.is_disk;
    let is_rom = |m: MatchView| !m.is_disk;
    let at = |m: MatchView|
        placement_planning::dest_for(
            Layout::Loose,
            roms,
            placement_planning::rom_id(m),
            dest_root,
        ) == Ok::<Seq<char>, PathErrorView>(d);
    let lies = |m: MatchView|
        placement_planning::dest_for(
            Layout::Disk,
            disks,
            placement_planning::rom_id(m),
            dest_root,
        ) == Ok::<Seq<char>, PathErrorView>(d);
    lemma_filter_exists(ms, is_rom, at);
    lemma_filter_exists(ms, is_disk, lies);
    let for_disks = loose_places(Layout::Disk, disks, disks, dest_root)->Ok_0;
    let for_roms = loose_places(Layout::Loose, roms, roms, dest_root)->Ok_0;
    lemma_joined_members(for_disks, for_roms, d);
}

proof fn lemma_joined_members(a: Seq<Seq<char>>, b: Seq<Seq<char>>, d: Seq<char>)
    ensures
        (a + b).contains(d) <==> a.contains(d) || b.contains(d),
{
    let s = a + b;
    if s.contains(d) {
        let j = choose|j: int| 0 <= j < s.len() && s[j] == d;
        if j < a.len() {
            assert(a[j] == d);
        } else {
            assert(b[j - a.len()] == d);
        }
    }
    if a.contains(d) {
        let j = choose|j: int| 0 <= j < a.len() && a[j] == d;
        assert(s[j] == d);
    }
    if b.contains(d) {
        let j = choose|j: int| 0 <= j < b.len() && b[j] == d;
        assert(s[a.len() + j] == d);
    }
}

/// The desired state gathers what the collections designate, all of it and no more.
pub proof fn law_desired_state_gathers_collections(
    facts: Seq<FactsView>,
    opts: OptionsView,
    interesting: Set<Seq<char>>,
    k: Seq<char>,
    d: Seq<char>,
)
    requires
        desired(facts, opts, interesting) is Ok,
    ensures
        ({
            let s = desired(facts, opts, interesting)->Ok_0;
            &&& s.dest_paths.contains(d) <==> exists|i: int|
                0 <= i < facts.len() && (designated(#[trigger] facts[i], opts, interesting) matches Ok(
                    p,
                ) && p.dests.contains(d))
            &&& (s.archive_homes.contains_key(k) && s.archive_homes[k].contains(d)) <==> exists|
                i: int,
            |
                0 <= i < facts.len() && (designated(#[trigger] facts[i], opts, interesting) matches Ok(
                    p,
                ) && p.homes.contains((k, d)))
        }),
    decreases facts.len(),
{
    if facts.len() > 0 {
        let rest = facts.drop_last();
        law_desired_state_gathers_collections(rest, opts, interesting, k, d);
        lemma_desired_agree(rest, opts, interesting, interesting);
        let before = desired(rest, opts, interesting)->Ok_0;
        let s = desired(facts, opts, interesting)->Ok_0;
        let p = designated(facts.last(), opts, interesting)->Ok_0;
        lemma_with_homes(before.archive_homes, p.homes);
        assert(is_home(s.archive_homes, k, d) <==> is_home(before.archive_homes, k, d)
            || p.homes.contains((k, d)));
        assert(facts[facts.len() - 1] == facts.last());
        assert(forall|i: int| 0 <= i < rest.len() ==> #[trigger] rest[i] == facts[i]);
        assert(p.dests.to_set().contains(d) <==> p.dests.contains(d));
        if exists|i: int|
            0 <= i < facts.len() && (designated(#[trigger] facts[i], opts, interesting) matches Ok(
                q,
            ) && q.dests.contains(d)) {
            let i = choose|i: int|
                0 <= i < facts.len() && (designated(#[trigger] facts[i], opts, interesting) matches Ok(
                    q,
                ) && q.dests.contains(d));
            if i < rest.len() {
                assert(rest[i] == facts[i]);
            }
        }
        if exists|i: int|
            0 <= i < facts.len() && (designated(#[trigger] facts[i], opts, interesting) matches Ok(
                q,
            ) && q.homes.contains((k, d))) {
            let i = choose|i: int|
                0 <= i < facts.len() && (designated(#[trigger] facts[i], opts, interesting) matches Ok(
                    q,
                ) && q.homes.contains((k, d)));
            if i < rest.len() {
                assert(rest[i] == facts[i]);
            }
        }
    }
}

/// A collection designates places exactly where planning would place its content:
/// one that is planned has the places of the same content in the same format below
/// the same root, and one that planning leaves out designates nothing.
pub proof fn law_designated_where_planned(
    d: collection_planning::Draft,
    f: FactsView,
    ctx: collection_planning::ContextView,
    interesting: Set<Seq<char>>,
)
    requires
        collection_planning::collection_plan(d, f, ctx) is Ok,
    ensures
        ({
            let outcome = collection_planning::collection_plan(d, f, ctx)->Ok_0.1;
            let nothing = designated(f, ctx.opts, interesting) matches Ok(p) && p.dests.len() == 0
                && p.homes.len() == 0;
            &&& !options::name_wanted(f.name, ctx.opts) || !(outcome is Planned) ==> nothing
            &&& options::name_wanted(f.name, ctx.opts) && outcome is Planned ==> designated(
                f,
                ctx.opts,
                interesting,
            ) == places(
                collection_planning::filtered(f),
                collection_planning::format_for(f, ctx.opts),
                collection_scope::scope_of(f, ctx.opts)->Ok_0->Resolved_dest_root->0,
                interesting,
            )
        }),
{
}

// ---------------------------------------------------------------------------
// Code
// ---------------------------------------------------------------------------

proof fn lemma_loose_err(
    layout: Layout,
    all: Seq<MatchView>,
    ms: Seq<MatchView>,
    n: int,
    dest_root: Seq<char>,
)
    requires
        0 <= n <= ms.len(),
        loose_places(layout, all, ms.take(n), dest_root) is Err,
    ensures
        loose_places(layout, all, ms, dest_root) == loose_places(
            layout,
            all,
            ms.take(n),
            dest_root,
        ),
    decreases ms.len(),
{
    if n == ms.len() {
        assert(ms.take(n) =~= ms);
    } else {
        assert(ms.drop_last().take(n) =~= ms.take(n));
        lemma_loose_err(layout, all, ms.drop_last(), n, dest_root);
    }
}

proof fn lemma_archive_err(
    ms: Seq<MatchView>,
    games: Seq<Seq<char>>,
    n: int,
    dest_root: Seq<char>,
    ext: Seq<char>,
    interesting: Set<Seq<char>>,
)
    requires
        0 <= n <= games.len(),
        archive_places(ms, games.take(n), dest_root, ext, interesting) is Err,
    ensures
        archive_places(ms, games, dest_root, ext, interesting) == archive_places(
            ms,
            games.take(n),
            dest_root,
            ext,
            interesting,
        ),
    decreases games.len(),
{
    if n == games.len() {
        assert(games.take(n) =~= games);
    } else {
        assert(games.drop_last().take(n) =~= games.take(n));
        lemma_archive_err(ms, games.drop_last(), n, dest_root, ext, interesting);
    }
}

/// The destinations of matches that are stored loose.
pub fn loose_destinations(layout: Layout, matches: &Vec<MatchedRom>, dest_root: &str) -> (r: Result<
    Vec<String>,
    PathError,
>)
    ensures
        ({
            let ms = matches.deep_view();
            match r {
                Ok(dests) => loose_places(layout, ms, ms, dest_root@) == Ok::<
                    Seq<Seq<char>>,
                    PathErrorView,
                >(dests.deep_view()),
                Err(e) => loose_places(layout, ms, ms, dest_root@) == Err::<
                    Seq<Seq<char>>,
                    PathErrorView,
                >(e.deep_view()),
            }
        }),
{
    let ghost ms = matches.deep_view();
    let multi = multi_rom_games(matches);
    let mut dests: Vec<String> = Vec::new();
    let mut i: usize = 0;
    proof {
        assert(dests.deep_view() =~= Seq::<Seq<char>>::empty());
    }
    while i < matches.len()
        invariant
            i <= matches@.len(),
            ms == matches.deep_view(),
            forall|g: Seq<char>| #[trigger]
                multi@.contains(g) <==> placement_planning::several(ms, g),
            loose_places(layout, ms, ms.take(i as int), dest_root@) == Ok::<
                Seq<Seq<char>>,
                PathErrorView,
            >(dests.deep_view()),
        decreases matches@.len() - i,
    {
        let m = &matches[i];
        let ghost before = dests.deep_view();
        proof {
            assert(ms.take(i + 1).drop_last() =~= ms.take(i as int));
        }
        let built = match layout {
            Layout::Loose => build_dest_path(
                dest_root,
                m.game_name.as_str(),
                m.rom_name.as_str(),
                multi.has(&m.game_name),
            ),
            Layout::Disk => build_disk_dest_path(
                dest_root,
                m.game_name.as_str(),
                m.rom_name.as_str(),
            ),
        };
        match built {
            Ok(dest) => {
                dests.push(dest);
                proof {
                    assert(dests.deep_view() =~= before.push(dest@));
                }
            },
            Err(e) => {
                proof {
                    lemma_loose_err(layout, ms, ms, i + 1, dest_root@);
                }
                return Err(e);
            },
        }
        i = i + 1;
    }
    proof {
        assert(ms.take(i as int) =~= ms);
    }
    Ok(dests)
}

/// Adds the homes that an archive is to content that was asked about.
fn add_homes(
    homes: &mut Vec<(String, String)>,
    list: &Vec<MatchedRom>,
    dest: &str,
    interesting: &SortedSet<String>,
)
    ensures
        final(homes).deep_view() == old(homes).deep_view() + homes_in(
            list.deep_view(),
            dest@,
            interesting@,
        ),
{
    let ghost ms = list.deep_view();
    let ghost start = homes.deep_view();
    let mut i: usize = 0;
    proof {
        reveal(Seq::filter);
        assert(homes_in(ms.take(0), dest@, interesting@) =~= Seq::empty());
        assert(homes.deep_view() =~= start + homes_in(ms.take(0), dest@, interesting@));
    }
    while i < list.len()
        invariant
            i <= list@.len(),
            ms == list.deep_view(),
            homes.deep_view() == start + homes_in(ms.take(i as int), dest@, interesting@),
        decreases list@.len() - i,
    {
        let m = &list[i];
        let ghost had = homes.deep_view();
        proof {
            assert(ms.take(i + 1).drop_last() =~= ms.take(i as int));
            reveal_with_fuel(Seq::filter, 2);
        }
        if interesting.has(&m.sha1) {
            homes.push((m.sha1.clone(), dest.to_owned()));
            proof {
                let home = (ms[i as int].sha1, dest@);
                assert(homes.deep_view() =~= had.push(home));
                assert(homes_in(ms.take(i + 1), dest@, interesting@) =~= homes_in(
                    ms.take(i as int),
                    dest@,
                    interesting@,
                ).push(home));
                assert(homes.deep_view() =~= start + homes_in(
                    ms.take(i + 1),
                    dest@,
                    interesting@,
                ));
            }
        } else {
            proof {
                assert(homes_in(ms.take(i + 1), dest@, interesting@) =~= homes_in(
                    ms.take(i as int),
                    dest@,
                    interesting@,
                ));
            }
        }
        i = i + 1;
    }
    proof {
        assert(ms.take(i as int) =~= ms);
    }
}

/// The archives of matches, game by game in name order.
pub fn archive_destinations(
    matches: &Vec<MatchedRom>,
    dest_root: &str,
    ext: &str,
    interesting: &SortedSet<String>,
) -> (r: Result<Placements, PathError>)
    ensures
        ({
            let ms = matches.deep_view();
            let games = sorted_map::in_order::<String>(archive_planning::game_names(ms));
            let model = archive_places(ms, games, dest_root@, ext@, interesting@);
            match r {
                Ok(p) => model == Ok::<PlacementsView, PathErrorView>(p.deep_view()),
                Err(e) => model == Err::<PlacementsView, PathErrorView>(e.deep_view()),
            }
        }),
{
    let ghost ms = matches.deep_view();
    let games = group_by_game(matches);
    let n = games.len();
    let ghost order = games.keys();
    let mut homes: Vec<(String, String)> = Vec::new();
    let mut dests: Vec<String> = Vec::new();
    let mut k: usize = 0;
    proof {
        assert(dests.deep_view() =~= Seq::<Seq<char>>::empty());
        assert(homes.deep_view() =~= Seq::<(Seq<char>, Seq<char>)>::empty());
    }
    while k < n
        invariant
            k <= n,
            n == order.len(),
            order == games.keys(),
            order == sorted_map::in_order::<String>(archive_planning::game_names(ms)),
            ms == matches.deep_view(),
            games.linked(),
            forall|g: Seq<char>| #[trigger]
                games@.contains_key(g) ==> games@[g].deep_view() == archive_planning::of_game(
                    ms,
                    g,
                ),
            archive_places(ms, order.take(k as int), dest_root@, ext@, interesting@) == Ok::<
                PlacementsView,
                PathErrorView,
            >(PlacementsView { homes: homes.deep_view(), dests: dests.deep_view() }),
        decreases n - k,
    {
        let game_name = games.key_at(k);
        let list = games.value_at(k);
        let ghost before = dests.deep_view();
        proof {
            assert(games@.contains_key(order[k as int]));
            assert(list.deep_view() == archive_planning::of_game(ms, order[k as int]));
            assert(order.take(k + 1).drop_last() =~= order.take(k as int));
        }
        match build_archive_dest_path(dest_root, game_name.as_str(), ext) {
            Ok(dest) => {
                add_homes(&mut homes, list, dest.as_str(), interesting);
                dests.push(dest);
                proof {
                    assert(dests.deep_view() =~= before.push(dest@));
                }
            },
            Err(e) => {
                proof {
                    lemma_archive_err(ms, order, k + 1, dest_root@, ext@, interesting@);
                }
                return Err(e);
            },
        }
        k = k + 1;
    }
    proof {
        assert(order.take(k as int) =~= order);
    }
    Ok(Placements { homes, dests })
}

/// The destinations of a collection.
pub fn collection_destinations(
    matches: Vec<MatchedRom>,
    format: OutputFormat,
    dest_root: &str,
    interesting: &SortedSet<String>,
) -> (r: Result<Placements, PathError>)
    ensures
        ({
            let model = places(matches.deep_view(), format, dest_root@, interesting@);
            match r {
                Ok(p) => model == Ok::<PlacementsView, PathErrorView>(p.deep_view()),
                Err(e) => model == Err::<PlacementsView, PathErrorView>(e.deep_view()),
            }
        }),
{
    let (disks, roms) = partition_disks(matches);
    let mut dests = match loose_destinations(Layout::Disk, &disks, dest_root) {
        Ok(dests) => dests,
        Err(e) => {
            return Err(e);
        },
    };
    let ghost for_disks = dests.deep_view();
    let (homes, mut more) = match archive_format_tag(format) {
        Some(tag) => match archive_destinations(
            &roms,
            dest_root,
            archive_extension(tag),
            interesting,
        ) {
            Ok(p) => {
                let Placements { homes, dests } = p;
                (homes, dests)
            },
            Err(e) => {
                return Err(e);
            },
        },
        None => match loose_destinations(Layout::Loose, &roms, dest_root) {
            Ok(more) => {
                let none: Vec<(String, String)> = Vec::new();
                proof {
                    assert(none.deep_view() =~= Seq::<(Seq<char>, Seq<char>)>::empty());
                }
                (none, more)
            },
            Err(e) => {
                return Err(e);
            },
        },
    };
    let ghost for_roms = more.deep_view();
    dests.append(&mut more);
    proof {
        assert(dests.deep_view() =~= for_disks + for_roms);
    }
    Ok(Placements { homes, dests })
}

/// Makes an archive a home of content.
fn record_home(homes: &mut SortedMap<String, SortedSet<String>>, sha1: String, dest: String)
    ensures
        final(homes)@.map_values(|h: SortedSet<String>| h@) == with_home(
            old(homes)@.map_values(|h: SortedSet<String>| h@),
            (sha1@, dest@),
        ),
{
    let ghost before = homes@;
    let mut list = match homes.remove(&sha1) {
        Some(list) => list,
        None => SortedSet::new(),
    };
    list.insert(dest);
    homes.insert(sha1, list);
    proof {
        let f = |h: SortedSet<String>| h@;
        assert(homes@.map_values(f) =~= with_home(before.map_values(f), (sha1@, dest@)));
    }
}

/// Records a collection's placements in the desired state.
pub fn record_collection_desired_state(state: &mut DesiredState, placements: Placements)
    ensures
        final(state).deep_view() == recorded(old(state).deep_view(), placements.deep_view()),
{
    let Placements { homes, dests } = placements;
    let ghost hs = homes.deep_view();
    let ghost ds = dests.deep_view();
    let ghost homes0 = state.deep_view().archive_homes;
    let ghost dests0 = state.deep_view().dest_paths;
    let mut i: usize = 0;
    while i < homes.len()
        invariant
            i <= homes@.len(),
            hs == homes.deep_view(),
            state.deep_view().archive_homes == with_homes(homes0, hs.take(i as int)),
            state.deep_view().dest_paths == dests0,
        decreases homes@.len() - i,
    {
        proof {
            assert(hs.take(i + 1).drop_last() =~= hs.take(i as int));
        }
        record_home(&mut state.archive_homes, homes[i].0.clone(), homes[i].1.clone());
        i = i + 1;
    }
    proof {
        assert(hs.take(i as int) =~= hs);
        assert(ds.take(0).to_set() =~= Set::<Seq<char>>::empty());
        assert(state.deep_view().dest_paths =~= dests0.union(ds.take(0).to_set()));
    }
    let mut k: usize = 0;
    while k < dests.len()
        invariant
            k <= dests@.len(),
            ds == dests.deep_view(),
            state.deep_view().archive_homes == with_homes(homes0, hs),
            state.deep_view().dest_paths == dests0.union(ds.take(k as int).to_set()),
        decreases dests@.len() - k,
    {
        let ghost had = state.dest_paths@;
        state.dest_paths.insert(dests[k].clone());
        proof {
            let t = ds.take(k as int);
            let u = ds.take(k + 1);
            assert(u =~= t.push(ds[k as int]));
            assert forall|d: Seq<char>| #[trigger] u.to_set().contains(d) <==> t.to_set().contains(d)
                || d == ds[k as int] by {
                if t.to_set().contains(d) {
                    let j = choose|j: int| 0 <= j < t.len() && t[j] == d;
                    assert(u[j] == d);
                }
                if d == ds[k as int] {
                    assert(u[k as int] == d);
                }
                if u.to_set().contains(d) && d != ds[k as int] {
                    let j = choose|j: int| 0 <= j < u.len() && u[j] == d;
                    assert(t[j] == d);
                }
            }
            assert(state.dest_paths@ =~= dests0.union(u.to_set()));
        }
        k = k + 1;
    }
    proof {
        assert(ds.take(k as int) =~= ds);
    }
}

/// What a collection designates.
fn collection_placements(
    opts: &PlanOptions,
    facts: &CollectionFacts,
    interesting: &SortedSet<String>,
) -> (r: Result<Placements, PathError>)
    ensures
        ({
            let model = designated(facts.deep_view(), opts.deep_view(), interesting@);
            match r {
                Ok(p) => model == Ok::<PlacementsView, PathErrorView>(p.deep_view()),
                Err(e) => model == Err::<PlacementsView, PathErrorView>(e.deep_view()),
            }
        }),
{
    let none = Placements { homes: Vec::new(), dests: Vec::new() };
    proof {
        assert(none.homes.deep_view() =~= Seq::<(Seq<char>, Seq<char>)>::empty());
        assert(none.dests.deep_view() =~= Seq::<Seq<char>>::empty());
    }
    if !collection_name_matches(facts.collection.name.as_str(), opts) {
        return Ok(none);
    }
    let root = match resolve_scoped_collection(opts, facts) {
        Err(e) => {
            return Err(e);
        },
        Ok(ScopedCollectionResolution::Resolved { version_id: _, hierarchy: _, dest_root }) => {
            match dest_root {
                Some(root) => root,
                None => {
                    return Ok(none);
                },
            }
        },
        Ok(_) => {
            return Ok(none);
        },
    };
    if facts.match_rows > MAX_MATCH_ROWS {
        return Ok(none);
    }
    let cfg: Option<&CollectionConfig> = match &facts.config {
        Some(c) => Some(c),
        None => None,
    };
    let set_cfg: Option<&CollectionConfig> = match &facts.set_config {
        Some(c) => Some(c),
        None => None,
    };
    let format = effective_format(opts.default_format, cfg, set_cfg);
    collection_destinations(filter_matches(facts), format, root.as_str(), interesting)
}

proof fn lemma_desired_err(
    facts: Seq<FactsView>,
    n: int,
    opts: OptionsView,
    interesting: Set<Seq<char>>,
)
    requires
        0 <= n <= facts.len(),
        desired(facts.take(n), opts, interesting) is Err,
    ensures
        desired(facts, opts, interesting) == desired(facts.take(n), opts, interesting),
    decreases facts.len(),
{
    if n == facts.len() {
        assert(facts.take(n) =~= facts);
    } else {
        assert(facts.drop_last().take(n) =~= facts.take(n));
        lemma_desired_err(facts.drop_last(), n, opts, interesting);
    }
}

/// Computes the desired state across every active collection in scope.
pub fn compute_desired_state(
    opts: &PlanOptions,
    facts: &[CollectionFacts],
    interesting: &SortedSet<String>,
) -> (r: Result<DesiredState, PathError>)
    ensures
        ({
            let model = desired(
                collection_scope::fact_views(facts@),
                opts.deep_view(),
                interesting@,
            );
            match r {
                Ok(s) => model == Ok::<DesiredView, PathErrorView>(s.deep_view()),
                Err(e) => model == Err::<DesiredView, PathErrorView>(e.deep_view()),
            }
        }),
{
    let ghost all = collection_scope::fact_views(facts@);
    let mut state = DesiredState { archive_homes: SortedMap::new(), dest_paths: SortedSet::new() };
    proof {
        assert(state.deep_view().archive_homes =~= Map::empty());
    }
    let mut i: usize = 0;
    while i < facts.len()
        invariant
            i <= facts@.len(),
            all == collection_scope::fact_views(facts@),
            desired(all.take(i as int), opts.deep_view(), interesting@) == Ok::<
                DesiredView,
                PathErrorView,
            >(state.deep_view()),
        decreases facts@.len() - i,
    {
        proof {
            assert(all.take(i + 1).drop_last() =~= all.take(i as int));
        }
        match collection_placements(opts, &facts[i], interesting) {
            Ok(p) => {
                record_collection_desired_state(&mut state, p);
            },
            Err(e) => {
                proof {
                    lemma_desired_err(all, i + 1, opts.deep_view(), interesting@);
                }
                return Err(e);
            },
        }
        i = i + 1;
    }
    proof {
        assert(all.take(i as int) =~= all);
    }
    Ok(state)
}

} // verus!
