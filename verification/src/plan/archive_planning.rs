//! Planning of archive-format collections: one archive per game at
//! `<dest_root>/<game>.<ext>`.

use super::archive_game;
use super::archive_game::ArchiveGame;
use super::container_drains;
use super::container_drains::{entries_to_rebuild, DrainRecord, DrainRecordView};
use super::destinations;
use super::destinations::build_archive_dest_path;
use super::error::{PlanError, PlanErrorView};
use super::source_policy;
use super::source_policy::{dedup_reason, is_in_library, may_delete, may_move};
use super::types;
use super::types::{KindView, MatchView, MatchedRom, OperationKind, PlacementPlanCounts};
use crate::db::files::Disposition;
use crate::paths::PathErrorView;
use crate::seqs;
use crate::sorted_map;
use crate::sorted_map::{SortedMap, SortedSet};
use crate::text;
use vstd::prelude::*;

verus! {

/// What archive planning goes by.
pub struct ArchivePlanInputs<'a> {
    pub tag: &'a str,
    pub ext: &'a str,
    pub dest_root: &'a str,
    pub default_dest: Option<&'a str>,
    /// Content that belongs to more than one entry
    pub shared: &'a SortedSet<String>,
    /// Containers that serve more than one game
    pub shared_containers: &'a SortedSet<String>,
    pub dispositions: &'a SortedMap<String, Disposition>,
}

#[verifier::ext_equal]
pub struct InputsView {
    pub tag: Seq<char>,
    pub ext: Seq<char>,
    pub dest_root: Seq<char>,
    pub default_dest: Option<Seq<char>>,
    pub shared: Set<Seq<char>>,
    pub shared_containers: Set<Seq<char>>,
    pub dispositions: Map<Seq<char>, Disposition>,
}

impl<'a> DeepView for ArchivePlanInputs<'a> {
    type V = InputsView;

    open spec fn deep_view(&self) -> InputsView {
        InputsView {
            tag: self.tag@,
            ext: self.ext@,
            dest_root: self.dest_root@,
            default_dest: self.default_dest.deep_view(),
            shared: self.shared@,
            shared_containers: self.shared_containers@,
            dispositions: self.dispositions@,
        }
    }
}

/// The operations that place some content, what they come to, and the containers
/// that can be drained afterwards.
pub struct PlacementPlan {
    pub kinds: Vec<OperationKind>,
    pub counts: PlacementPlanCounts,
    pub drains: Vec<DrainRecord>,
}

#[verifier::ext_equal]
pub struct PlacementPlanView {
    pub kinds: Seq<KindView>,
    pub counts: PlacementPlanCounts,
    pub drains: Seq<DrainRecordView>,
}

impl DeepView for PlacementPlan {
    type V = PlacementPlanView;

    open spec fn deep_view(&self) -> PlacementPlanView {
        PlacementPlanView {
            kinds: self.kinds.deep_view(),
            counts: self.counts,
            drains: self.drains.deep_view(),
        }
    }
}

/// A plan that places nothing.
pub open spec fn nothing() -> PlacementPlanView {
    PlacementPlanView {
        kinds: Seq::empty(),
        counts: types::no_counts(),
        drains: Seq::empty(),
    }
}

/// One plan after another.
pub open spec fn joined(a: PlacementPlanView, b: PlacementPlanView) -> PlacementPlanView {
    PlacementPlanView {
        kinds: a.kinds + b.kinds,
        counts: types::merged(a.counts, b.counts),
        drains: a.drains + b.drains,
    }
}

impl PlacementPlan {
    pub fn empty() -> (r: Self)
        ensures
            r.deep_view() == nothing(),
    {
        let r = PlacementPlan {
            kinds: Vec::new(),
            counts: PlacementPlanCounts::zero(),
            drains: Vec::new(),
        };
        proof {
            assert(r.deep_view() =~= nothing());
        }
        r
    }

    /// Appends another plan.
    pub fn join(&mut self, other: PlacementPlan)
        ensures
            final(self).deep_view() == joined(old(self).deep_view(), other.deep_view()),
    {
        let ghost before = self.deep_view();
        let ghost more = other.deep_view();
        let PlacementPlan { kinds, counts, drains } = other;
        let mut kinds = kinds;
        let mut drains = drains;
        self.kinds.append(&mut kinds);
        self.drains.append(&mut drains);
        self.counts.merge(counts);
        proof {
            assert(self.kinds.deep_view() =~= before.kinds + more.kinds);
            assert(self.drains.deep_view() =~= before.drains + more.drains);
        }
    }
}

/// What is done for one game.
#[derive(Debug, PartialEq, Eq)]
pub enum ArchiveGameAction<'a> {
    /// The archive is in place already
    AlreadyCorrect,
    /// A complete archive is moved into place whole
    Relocate { src: &'a str },
    /// The archive is built anew
    Repack,
}

#[verifier::ext_equal]
pub enum ActionView {
    AlreadyCorrect,
    Relocate { src: Seq<char> },
    Repack,
}

impl<'a> DeepView for ArchiveGameAction<'a> {
    type V = ActionView;

    open spec fn deep_view(&self) -> ActionView {
        match self {
            ArchiveGameAction::AlreadyCorrect => ActionView::AlreadyCorrect,
            ArchiveGameAction::Relocate { src } => ActionView::Relocate { src: src@ },
            ArchiveGameAction::Repack => ActionView::Repack,
        }
    }
}

/// Whether a container can be moved into place whole: all it holds are archive
/// entries, and its extension is the wanted one, in any ASCII case.
pub open spec fn relocatable(entries: Seq<MatchView>, src: Seq<char>, ext: Seq<char>) -> bool {
    &&& entries.len() > 0
    &&& forall|i: int| 0 <= i < entries.len() ==> (#[trigger] entries[i]).archive_path is Some
    &&& text::same_ignoring_case(text::after_last(src, '.'), ext)
}

/// The source root of a container.
pub open spec fn root_of(ms: Seq<MatchView>, path: Seq<char>) -> Seq<char> {
    archive_game::entries_of(ms, path)[0].source_root
}

/// What is done for a game: nothing where a complete archive is in place
/// (a torrentzip is rebuilt all the same); a move where a complete archive of
/// the right format may leave its source and serves no other game; else a
/// repack.
pub open spec fn action_for(
    ms: Seq<MatchView>,
    from: Option<Seq<char>>,
    dest: Seq<char>,
    shared: bool,
    inp: InputsView,
) -> ActionView {
    if archive_game::complete(ms, dest) && inp.tag != "torrentzip"@ {
        ActionView::AlreadyCorrect
    } else {
        match from {
            Some(src) => if src != dest && source_policy::may_leave(
                inp.dispositions,
                root_of(ms, src),
                dest,
            ) && !shared && !inp.shared_containers.contains(src) && inp.tag != "torrentzip"@
                && relocatable(archive_game::entries_of(ms, src), src, inp.ext) {
                ActionView::Relocate { src }
            } else {
                ActionView::Repack
            },
            None => ActionView::Repack,
        }
    }
}

/// Whether a repack may consume what feeds it: nothing of it is shared, there is
/// something, and every source lets its content go.
pub open spec fn consumes(
    ms: Seq<MatchView>,
    from: Option<Seq<char>>,
    dest: Seq<char>,
    shared: bool,
    inp: InputsView,
) -> bool {
    let fed = archive_game::feeders(ms, from);
    &&& !shared
    &&& fed.len() > 0
    &&& forall|i: int|
        0 <= i < fed.len() ==> source_policy::may_leave(
            inp.dispositions,
            (#[trigger] fed[i]).source_root,
            dest,
        )
}

/// The container that a repack leaves empty of needed content: the one it is
/// built from, where that is an archive other than the destination whose source
/// lets its content go.
pub open spec fn drained(
    ms: Seq<MatchView>,
    dest: Seq<char>,
    from: Option<Seq<char>>,
    inp: InputsView,
) -> Option<Seq<char>> {
    match from {
        Some(c) => if c != dest && archive_game::is_container(ms, c) && archive_game::entries_of(
            ms,
            c,
        )[0].archive_path is Some && source_policy::may_leave(
            inp.dispositions,
            root_of(ms, c),
            dest,
        ) {
            Some(c)
        } else {
            None
        },
        None => None,
    }
}

/// Whether a container is a duplicate that may go: neither the destination nor
/// what is built from, of use to no other game, not in the library, and in a
/// source that lets its content go.
pub open spec fn droppable(
    ms: Seq<MatchView>,
    path: Seq<char>,
    dest: Seq<char>,
    from: Option<Seq<char>>,
    inp: InputsView,
) -> bool {
    &&& path != dest
    &&& from != Some(path)
    &&& !inp.shared_containers.contains(path)
    &&& !source_policy::in_library(path, inp.default_dest, inp.dest_root)
    &&& source_policy::may_leave(inp.dispositions, root_of(ms, path), dest)
}

/// The duplicates that may go, in the order of their paths.
pub open spec fn duplicates(
    ms: Seq<MatchView>,
    dest: Seq<char>,
    from: Option<Seq<char>>,
    inp: InputsView,
) -> Seq<Seq<char>> {
    sorted_map::in_order::<String>(archive_game::containers(ms)).filter(
        |p: Seq<char>| droppable(ms, p, dest, from, inp),
    )
}

/// The deletes of duplicates.
pub open spec fn delete_kinds(paths: Seq<Seq<char>>, dest: Seq<char>) -> Seq<KindView> {
    paths.map_values(
        |p: Seq<char>|
            KindView::Delete { path: p, reason: source_policy::duplicate_of(dest), rebuild: None },
    )
}

/// What building a game's archive takes, or why it cannot be built.
pub open spec fn repack_plan(
    game_name: Seq<char>,
    ms: Seq<MatchView>,
    dest: Seq<char>,
    from: Option<Seq<char>>,
    shared: bool,
    inp: InputsView,
) -> Result<PlacementPlanView, PlanErrorView> {
    let size = text::capped(archive_game::size_sum(ms, archive_game::expected(ms)));
    match archive_game::source_refs(archive_game::feeders(ms, from)) {
        Err(error) => Err(PlanErrorView::DatPath { game_name, error }),
        Ok(sources) => {
            let kind = KindView::Repack {
                sources,
                dest,
                format: inp.tag,
                move_sources: consumes(ms, from, dest, shared, inp),
                size,
            };
            let counts = PlacementPlanCounts { to_write: 1, bytes: size, ..types::no_counts() };
            match drained(ms, dest, from, inp) {
                None => Ok(
                    PlacementPlanView { kinds: seq![kind], counts, drains: Seq::empty() },
                ),
                Some(container) => match container_drains::rebuild_entries(
                    archive_game::entries_of(ms, container),
                    dest,
                ) {
                    Err(e) => Err(PlanErrorView::Path(e)),
                    Ok(entries) => Ok(
                        PlacementPlanView {
                            kinds: seq![kind],
                            counts,
                            drains: seq![DrainRecordView { container, dest, entries }],
                        },
                    ),
                },
            }
        },
    }
}

/// What placing a game's archive takes, without the deletes of duplicates.
pub open spec fn placing_plan(
    game_name: Seq<char>,
    ms: Seq<MatchView>,
    dest: Seq<char>,
    inp: InputsView,
) -> Result<PlacementPlanView, PlanErrorView> {
    let shared = archive_game::has_shared(ms, inp.shared);
    let from = archive_game::built_from(ms, dest);
    match action_for(ms, from, dest, shared, inp) {
        ActionView::AlreadyCorrect => Ok(
            PlacementPlanView {
                counts: PlacementPlanCounts {
                    already_correct: archive_game::expected(ms).len() as usize,
                    ..types::no_counts()
                },
                ..nothing()
            },
        ),
        ActionView::Relocate { src } => {
            let size = text::capped(archive_game::match_bytes(archive_game::entries_of(ms, src)));
            Ok(
                PlacementPlanView {
                    kinds: seq![KindView::Relocate { source: src, dest, size }],
                    counts: PlacementPlanCounts { relocated: 1, bytes: size, ..types::no_counts() },
                    drains: Seq::empty(),
                },
            )
        },
        ActionView::Repack => repack_plan(game_name, ms, dest, from, shared, inp),
    }
}

/// What is planned for a game: its placement, then, unless its content also
/// belongs elsewhere, the deletes of its duplicates.
pub open spec fn game_plan(
    game_name: Seq<char>,
    ms: Seq<MatchView>,
    inp: InputsView,
) -> Result<PlacementPlanView, PlanErrorView> {
    match destinations::archive_dest(inp.dest_root, game_name, inp.ext) {
        Err(e) => Err(PlanErrorView::Path(e)),
        Ok(dest) => match placing_plan(game_name, ms, dest, inp) {
            Err(e) => Err(e),
            Ok(placing) => if archive_game::has_shared(ms, inp.shared) {
                Ok(placing)
            } else {
                let gone = duplicates(ms, dest, archive_game::built_from(ms, dest), inp);
                Ok(
                    PlacementPlanView {
                        kinds: placing.kinds + delete_kinds(gone, dest),
                        counts: types::merged(
                            placing.counts,
                            PlacementPlanCounts {
                                deduped: gone.len() as usize,
                                ..types::no_counts()
                            },
                        ),
                        ..placing
                    },
                )
            },
        },
    }
}

/// The matches of a game.
pub open spec fn of_game(ms: Seq<MatchView>, game: Seq<char>) -> Seq<MatchView> {
    ms.filter(|m: MatchView| m.game_name == game)
}

/// The names of the games among matches.
pub open spec fn game_names(ms: Seq<MatchView>) -> Set<Seq<char>> {
    Set::new(|g: Seq<char>| exists|i: int| 0 <= i < ms.len() && (#[trigger] ms[i]).game_name == g)
}

/// What is planned for some games, one after the other, or the first reason why
/// one of them cannot be planned.
pub open spec fn games_plan(
    ms: Seq<MatchView>,
    games: Seq<Seq<char>>,
    inp: InputsView,
) -> Result<PlacementPlanView, PlanErrorView>
    decreases games.len(),
{
    if games.len() == 0 {
        Ok(nothing())
    } else {
        match games_plan(ms, games.drop_last(), inp) {
            Err(e) => Err(e),
            Ok(before) => match game_plan(games.last(), of_game(ms, games.last()), inp) {
                Err(e) => Err(e),
                Ok(p) => Ok(joined(before, p)),
            },
        }
    }
}

/// What is planned for archive-format matches: game by game, in name order.
pub open spec fn archive_plan(ms: Seq<MatchView>, inp: InputsView) -> Result<
    PlacementPlanView,
    PlanErrorView,
> {
    games_plan(ms, sorted_map::in_order::<String>(game_names(ms)), inp)
}

/// Whether an executable result is the one that its model says.
pub open spec fn agrees(
    r: Result<PlacementPlan, PlanError>,
    model: Result<PlacementPlanView, PlanErrorView>,
) -> bool {
    match r {
        Ok(p) => model == Ok::<PlacementPlanView, PlanErrorView>(p.deep_view()),
        Err(e) => model == Err::<PlacementPlanView, PlanErrorView>(e.deep_view()),
    }
}

// ---------------------------------------------------------------------------
// Laws
// ---------------------------------------------------------------------------

/// Content that also belongs elsewhere is only ever copied: no operation planned
/// for its game moves it, deletes it, or consumes what it was read from.
pub proof fn law_shared_content_is_only_copied(
    game_name: Seq<char>,
    ms: Seq<MatchView>,
    inp: InputsView,
)
    requires
        archive_game::has_shared(ms, inp.shared),
    ensures
        game_plan(game_name, ms, inp) matches Ok(p) ==> forall|i: int|
            0 <= i < p.kinds.len() ==> (#[trigger] p.kinds[i] matches KindView::Repack {
                move_sources,
                ..
            } && !move_sources),
{
}

/// A complete archive in place is left alone, unless it is a torrentzip, which is
/// always rebuilt: nothing is written, and no container is drained.
pub proof fn law_complete_archive_is_left_alone(
    game_name: Seq<char>,
    ms: Seq<MatchView>,
    inp: InputsView,
)
    requires
        inp.tag != "torrentzip"@,
        destinations::archive_dest(inp.dest_root, game_name, inp.ext) matches Ok(dest)
            && archive_game::complete(ms, dest),
    ensures
        game_plan(game_name, ms, inp) matches Ok(p) && p.counts.to_write == 0 && p.drains.len() == 0
            && forall|i: int| 0 <= i < p.kinds.len() ==> (#[trigger] p.kinds[i]) is Delete,
{
}

/// Whether no two operations of a list put a file at the same path.
pub open spec fn written_once(kinds: Seq<KindView>) -> bool {
    forall|i: int, j: int|
        0 <= i < j < kinds.len() && types::written_to(#[trigger] kinds[i]) is Some
            ==> types::written_to(kinds[i]) != types::written_to(#[trigger] kinds[j])
}

/// Whether a path is that of the archive of one of the games.
pub open spec fn houses_game(games: Seq<Seq<char>>, inp: InputsView, path: Seq<char>) -> bool {
    exists|g: Seq<char>| #[trigger]
        games.contains(g) && destinations::archive_dest(inp.dest_root, g, inp.ext) == Ok::<
            Seq<char>,
            PathErrorView,
        >(path)
}

/// Whether every path that operations write to is that of a game's archive.
pub open spec fn written_for(
    kinds: Seq<KindView>,
    games: Seq<Seq<char>>,
    inp: InputsView,
) -> bool {
    forall|i: int|
        0 <= i < kinds.len() && types::written_to(#[trigger] kinds[i]) is Some ==> houses_game(
            games,
            inp,
            types::written_to(kinds[i])->0,
        )
}

/// Each archive of a collection is written once, so that repacks and moves of
/// whole archives can run side by side: no two of them go to the same path.
pub proof fn law_archives_are_written_once(ms: Seq<MatchView>, inp: InputsView)
    ensures
        archive_plan(ms, inp) matches Ok(p) ==> written_once(p.kinds),
{
    lemma_games_listed(ms);
    let games = sorted_map::in_order::<String>(game_names(ms));
    assert forall|i: int, j: int| 0 <= i < games.len() && 0 <= j < games.len() && i
        != j implies games[i] != games[j] by {
        let (a, b) = if i < j {
            (i, j)
        } else {
            (j, i)
        };
        assert(<String as sorted_map::Key>::precedes(games[a], games[b]));
        <String as sorted_map::Key>::lemma_irreflexive(games[a]);
    }
    lemma_games_written_once(ms, games, inp);
}

proof fn lemma_game_written_once(game_name: Seq<char>, ms: Seq<MatchView>, inp: InputsView)
    ensures
        game_plan(game_name, ms, inp) matches Ok(p) ==> written_once(p.kinds) && forall|i: int|
            0 <= i < p.kinds.len() && types::written_to(#[trigger] p.kinds[i]) is Some
                ==> destinations::archive_dest(inp.dest_root, game_name, inp.ext) == Ok::<
                Seq<char>,
                PathErrorView,
            >(types::written_to(p.kinds[i])->0),
{
    if game_plan(game_name, ms, inp) is Ok {
        let dest = destinations::archive_dest(inp.dest_root, game_name, inp.ext)->Ok_0;
        let placing = placing_plan(game_name, ms, dest, inp)->Ok_0;
        assert(placing.kinds.len() <= 1);
        let p = game_plan(game_name, ms, inp)->Ok_0;
        assert forall|i: int| 0 <= i < p.kinds.len() implies (i == 0 && p.kinds[i]
            == placing.kinds[i]) || types::written_to(#[trigger] p.kinds[i]) is None by {
            if i >= placing.kinds.len() {
                assert(p.kinds[i] is Delete);
            }
        }
    }
}

proof fn lemma_games_written_once(ms: Seq<MatchView>, games: Seq<Seq<char>>, inp: InputsView)
    requires
        games.no_duplicates(),
    ensures
        games_plan(ms, games, inp) matches Ok(p) ==> written_once(p.kinds) && written_for(
            p.kinds,
            games,
            inp,
        ),
    decreases games.len(),
{
    if games.len() > 0 && games_plan(ms, games, inp) is Ok {
        let rest = games.drop_last();
        let g = games.last();
        assert(rest.no_duplicates());
        lemma_games_written_once(ms, rest, inp);
        lemma_game_written_once(g, of_game(ms, g), inp);
        let before = games_plan(ms, rest, inp)->Ok_0;
        let now = game_plan(g, of_game(ms, g), inp)->Ok_0;
        let p = games_plan(ms, games, inp)->Ok_0;
        let n = before.kinds.len() as int;
        assert(games[games.len() - 1] == g);
        assert forall|i: int| 0 <= i < p.kinds.len() && types::written_to(
            #[trigger] p.kinds[i],
        ) is Some implies houses_game(games, inp, types::written_to(p.kinds[i])->0) by {
            if i < n {
                assert(p.kinds[i] == before.kinds[i]);
                assert(houses_game(rest, inp, types::written_to(before.kinds[i])->0));
                let h = choose|h: Seq<char>| #[trigger]
                    rest.contains(h) && destinations::archive_dest(inp.dest_root, h, inp.ext)
                        == Ok::<Seq<char>, PathErrorView>(
                        types::written_to(before.kinds[i])->0,
                    );
                let k = choose|k: int| 0 <= k < rest.len() && rest[k] == h;
                assert(games[k] == h);
                assert(games.contains(h));
            } else {
                assert(p.kinds[i] == now.kinds[i - n]);
                assert(games.contains(g));
            }
        }
        assert forall|i: int, j: int| 0 <= i < j < p.kinds.len() && types::written_to(
            #[trigger] p.kinds[i],
        ) is Some implies types::written_to(p.kinds[i]) != types::written_to(
            #[trigger] p.kinds[j],
        ) by {
            if j < n {
                assert(p.kinds[i] == before.kinds[i] && p.kinds[j] == before.kinds[j]);
            } else if i >= n {
                assert(p.kinds[i] == now.kinds[i - n] && p.kinds[j] == now.kinds[j - n]);
            } else if types::written_to(p.kinds[j]) is Some {
                assert(p.kinds[i] == before.kinds[i] && p.kinds[j] == now.kinds[j - n]);
                let h = choose|h: Seq<char>| #[trigger]
                    rest.contains(h) && destinations::archive_dest(inp.dest_root, h, inp.ext)
                        == Ok::<Seq<char>, PathErrorView>(
                        types::written_to(before.kinds[i])->0,
                    );
                let k = choose|k: int| 0 <= k < rest.len() && rest[k] == h;
                assert(games[k] == h);
                assert(games[k] != games[games.len() - 1]);
                destinations::law_games_have_archives_of_their_own(
                    inp.dest_root,
                    h,
                    g,
                    inp.ext,
                );
            }
        }
    }
}

/// A delete of a duplicate never takes the destination, what the archive is
/// built from, a container that serves another game, or a copy in the library;
/// and a source that is to be preserved loses only what its own tree still has.
pub proof fn law_duplicate_deletes_are_safe(
    ms: Seq<MatchView>,
    dest: Seq<char>,
    from: Option<Seq<char>>,
    inp: InputsView,
    path: Seq<char>,
)
    requires
        duplicates(ms, dest, from, inp).contains(path),
    ensures
        path != dest,
        from != Some(path),
        !inp.shared_containers.contains(path),
        !source_policy::in_library(path, inp.default_dest, inp.dest_root),
        source_policy::may_leave(inp.dispositions, root_of(ms, path), dest),
{
    seqs::lemma_filter_members(
        sorted_map::in_order::<String>(archive_game::containers(ms)),
        |p: Seq<char>| droppable(ms, p, dest, from, inp),
    );
}

/// A container is moved whole only where it holds the complete game, serves no
/// other one, and its source lets it go.
pub proof fn law_relocation_is_safe(ms: Seq<MatchView>, dest: Seq<char>, inp: InputsView)
    ensures
        ({
            let from = archive_game::built_from(ms, dest);
            let shared = archive_game::has_shared(ms, inp.shared);
            action_for(ms, from, dest, shared, inp) matches ActionView::Relocate { src } ==> {
                &&& archive_game::complete(ms, src)
                &&& src != dest
                &&& !shared
                &&& !inp.shared_containers.contains(src)
                &&& source_policy::may_leave(inp.dispositions, root_of(ms, src), dest)
            }
        }),
{
    archive_game::law_complete_container_is_found(ms, dest);
}

/// Whether an operation serves a game: it builds the game's archive, whole and in
/// the collection's format, moves a complete archive there, or deletes a container
/// of the game's content that is not that archive.
pub open spec fn serves_game(
    kind: KindView,
    game_name: Seq<char>,
    gs: Seq<MatchView>,
    inp: InputsView,
) -> bool {
    match destinations::archive_dest(inp.dest_root, game_name, inp.ext) {
        Err(_) => false,
        Ok(home) => match kind {
            KindView::Repack { sources, dest, format, move_sources, size: _ } => {
                &&& dest == home
                &&& format == inp.tag
                &&& archive_game::builds(sources, gs)
                &&& move_sources ==> sources.len() > 0 && forall|i: int|
                    0 <= i < gs.len() ==> !inp.shared.contains((#[trigger] gs[i]).sha1)
            },
            KindView::Relocate { source, dest, size: _ } => {
                &&& dest == home
                &&& source != home
                &&& inp.tag != "torrentzip"@
                &&& forall|i: int|
                    0 <= i < gs.len() ==> archive_game::held_there(
                        gs,
                        source,
                        (#[trigger] gs[i]).rom_name,
                        gs[i].sha1,
                    )
                &&& forall|i: int|
                    0 <= i < gs.len() ==> !inp.shared.contains((#[trigger] gs[i]).sha1)
                &&& !inp.shared_containers.contains(source)
            },
            KindView::Delete { path, reason: _, rebuild } => {
                &&& path != home
                &&& rebuild is None
                &&& archive_game::is_container(gs, path)
                &&& forall|i: int|
                    0 <= i < gs.len() ==> !inp.shared.contains((#[trigger] gs[i]).sha1)
            },
            _ => false,
        },
    }
}

proof fn lemma_placing_serves(
    game_name: Seq<char>,
    gs: Seq<MatchView>,
    home: Seq<char>,
    inp: InputsView,
)
    requires
        destinations::archive_dest(inp.dest_root, game_name, inp.ext) == Ok::<
            Seq<char>,
            PathErrorView,
        >(home),
        placing_plan(game_name, gs, home, inp) is Ok,
    ensures
        placing_plan(game_name, gs, home, inp)->Ok_0.kinds.len() <= 1,
        placing_plan(game_name, gs, home, inp)->Ok_0.kinds.len() == 1 ==> serves_game(
            placing_plan(game_name, gs, home, inp)->Ok_0.kinds[0],
            game_name,
            gs,
            inp,
        ),
{
    let from = archive_game::built_from(gs, home);
    let shared = archive_game::has_shared(gs, inp.shared);
    let placing = placing_plan(game_name, gs, home, inp)->Ok_0;
    match action_for(gs, from, home, shared, inp) {
        ActionView::AlreadyCorrect => {},
        ActionView::Relocate { src } => {
            archive_game::law_complete_container_is_found(gs, home);
            archive_game::law_complete_holds_every_rom(gs, src);
        },
        ActionView::Repack => {
            archive_game::law_feeders_build_the_whole_game(gs, home);
            let fed = archive_game::feeders(gs, from);
            archive_game::lemma_source_refs(fed);
            assert(placing.kinds[0] is Repack);
        },
    }
}

proof fn lemma_deletes_serve(
    game_name: Seq<char>,
    gs: Seq<MatchView>,
    home: Seq<char>,
    inp: InputsView,
    k: int,
)
    requires
        destinations::archive_dest(inp.dest_root, game_name, inp.ext) == Ok::<
            Seq<char>,
            PathErrorView,
        >(home),
        !archive_game::has_shared(gs, inp.shared),
        0 <= k < duplicates(gs, home, archive_game::built_from(gs, home), inp).len(),
    ensures
        serves_game(
            delete_kinds(duplicates(gs, home, archive_game::built_from(gs, home), inp), home)[k],
            game_name,
            gs,
            inp,
        ),
{
    let from = archive_game::built_from(gs, home);
    let gone = duplicates(gs, home, from, inp);
    let order = sorted_map::in_order::<String>(archive_game::containers(gs));
    assert(gone.contains(gone[k]));
    seqs::lemma_filter_members(order, |q: Seq<char>| droppable(gs, q, home, from, inp));
    archive_game::lemma_containers_finite(gs);
    assert(order.contains(gone[k]));
    assert(order.to_set().contains(gone[k]));
    assert(archive_game::containers(gs).contains(gone[k]));
}

/// Every operation planned for a game serves it: a repack has the collection's
/// format, goes to the game's archive and is fed with every ROM of the game and
/// nothing else, each match whole under its ROM's name; a container that is moved
/// there holds every ROM; and nothing else is planned but deletes of other
/// containers of the game's content.
pub proof fn law_operations_serve_their_game(
    game_name: Seq<char>,
    gs: Seq<MatchView>,
    inp: InputsView,
)
    ensures
        game_plan(game_name, gs, inp) matches Ok(p) ==> forall|i: int|
            0 <= i < p.kinds.len() ==> serves_game(#[trigger] p.kinds[i], game_name, gs, inp),
{
    if game_plan(game_name, gs, inp) is Ok {
        let home = destinations::archive_dest(inp.dest_root, game_name, inp.ext)->Ok_0;
        let placing = placing_plan(game_name, gs, home, inp)->Ok_0;
        let gone = duplicates(gs, home, archive_game::built_from(gs, home), inp);
        let p = game_plan(game_name, gs, inp)->Ok_0;
        lemma_placing_serves(game_name, gs, home, inp);
        assert forall|i: int| 0 <= i < p.kinds.len() implies serves_game(
            #[trigger] p.kinds[i],
            game_name,
            gs,
            inp,
        ) by {
            if i < placing.kinds.len() {
                assert(p.kinds[i] == placing.kinds[0]);
            } else {
                let k = i - placing.kinds.len();
                assert(p.kinds[i] == delete_kinds(gone, home)[k]);
                lemma_deletes_serve(game_name, gs, home, inp, k);
            }
        }
    }
}

/// Whether an operation serves one of some games.
pub open spec fn serves_one(kind: KindView, ms: Seq<MatchView>, inp: InputsView) -> bool {
    exists|g: Seq<char>| #[trigger] serves_game(kind, g, of_game(ms, g), inp)
}

proof fn lemma_games_serve(ms: Seq<MatchView>, games: Seq<Seq<char>>, inp: InputsView)
    ensures
        games_plan(ms, games, inp) matches Ok(p) ==> forall|i: int|
            0 <= i < p.kinds.len() ==> serves_one(#[trigger] p.kinds[i], ms, inp),
    decreases games.len(),
{
    if games.len() > 0 && games_plan(ms, games, inp) is Ok {
        let rest = games.drop_last();
        let g = games.last();
        lemma_games_serve(ms, rest, inp);
        law_operations_serve_their_game(g, of_game(ms, g), inp);
        let before = games_plan(ms, rest, inp)->Ok_0;
        let now = game_plan(g, of_game(ms, g), inp)->Ok_0;
        let p = games_plan(ms, games, inp)->Ok_0;
        assert forall|i: int| 0 <= i < p.kinds.len() implies serves_one(
            #[trigger] p.kinds[i],
            ms,
            inp,
        ) by {
            if i < before.kinds.len() {
                assert(p.kinds[i] == before.kinds[i]);
            } else {
                assert(p.kinds[i] == now.kinds[i - before.kinds.len()]);
                assert(serves_game(p.kinds[i], g, of_game(ms, g), inp));
            }
        }
    }
}

/// Whatever is planned for an archive-format collection serves one of its games. In
/// particular every repack has the collection's format.
pub proof fn law_repacks_have_the_collections_format(ms: Seq<MatchView>, inp: InputsView)
    ensures
        archive_plan(ms, inp) matches Ok(p) ==> forall|i: int|
            0 <= i < p.kinds.len() ==> serves_one(#[trigger] p.kinds[i], ms, inp) && (
            p.kinds[i] matches KindView::Repack { format, .. } ==> format == inp.tag),
{
    lemma_games_serve(ms, sorted_map::in_order::<String>(game_names(ms)), inp);
    if archive_plan(ms, inp) is Ok {
        let p = archive_plan(ms, inp)->Ok_0;
        assert forall|i: int| 0 <= i < p.kinds.len() implies serves_one(
            #[trigger] p.kinds[i],
            ms,
            inp,
        ) && (p.kinds[i] matches KindView::Repack { format, .. } ==> format == inp.tag) by {
            let g = choose|g: Seq<char>| #[trigger]
                serves_game(p.kinds[i], g, of_game(ms, g), inp);
            assert(serves_game(p.kinds[i], g, of_game(ms, g), inp));
        }
    }
}

/// Whether the archive of a game is in place: a container there holds every ROM.
pub open spec fn archive_in_place(gs: Seq<MatchView>, home: Seq<char>) -> bool {
    forall|i: int|
        0 <= i < gs.len() ==> archive_game::held_there(
            gs,
            home,
            (#[trigger] gs[i]).rom_name,
            gs[i].sha1,
        )
}

/// Whether an operation of a list builds an archive or moves one to a path.
pub open spec fn archived_by_one(kinds: Seq<KindView>, home: Seq<char>) -> bool {
    exists|i: int|
        0 <= i < kinds.len() && match #[trigger] kinds[i] {
            KindView::Repack { dest, .. } => dest == home,
            KindView::Relocate { dest, .. } => dest == home,
            _ => false,
        }
}

proof fn lemma_game_is_archived(game_name: Seq<char>, gs: Seq<MatchView>, inp: InputsView)
    ensures
        game_plan(game_name, gs, inp) matches Ok(p) ==> (destinations::archive_dest(
            inp.dest_root,
            game_name,
            inp.ext,
        ) matches Ok(home) && (archived_by_one(p.kinds, home) || (inp.tag != "torrentzip"@
            && archive_in_place(gs, home)))),
{
    if game_plan(game_name, gs, inp) is Ok {
        let home = destinations::archive_dest(inp.dest_root, game_name, inp.ext)->Ok_0;
        let placing = placing_plan(game_name, gs, home, inp)->Ok_0;
        let from = archive_game::built_from(gs, home);
        let shared = archive_game::has_shared(gs, inp.shared);
        let p = game_plan(game_name, gs, inp)->Ok_0;
        archive_game::law_complete_holds_every_rom(gs, home);
        if !(action_for(gs, from, home, shared, inp) is AlreadyCorrect) {
            assert(p.kinds[0] == placing.kinds[0]);
            assert(archived_by_one(p.kinds, home));
        }
    }
}

proof fn lemma_games_are_archived(
    ms: Seq<MatchView>,
    games: Seq<Seq<char>>,
    inp: InputsView,
    g: Seq<char>,
)
    requires
        games.contains(g),
    ensures
        games_plan(ms, games, inp) matches Ok(p) ==> (destinations::archive_dest(
            inp.dest_root,
            g,
            inp.ext,
        ) matches Ok(home) && (archived_by_one(p.kinds, home) || (inp.tag != "torrentzip"@
            && archive_in_place(of_game(ms, g), home)))),
    decreases games.len(),
{
    if games_plan(ms, games, inp) is Ok {
        let rest = games.drop_last();
        let last = games.last();
        let before = games_plan(ms, rest, inp)->Ok_0;
        let now = game_plan(last, of_game(ms, last), inp)->Ok_0;
        let p = games_plan(ms, games, inp)->Ok_0;
        let found = if rest.contains(g) {
            lemma_games_are_archived(ms, rest, inp, g);
            before.kinds
        } else {
            let k = choose|k: int| 0 <= k < games.len() && games[k] == g;
            if k < rest.len() {
                assert(rest[k] == g);
            }
            assert(last == g);
            lemma_game_is_archived(g, of_game(ms, g), inp);
            now.kinds
        };
        let home = destinations::archive_dest(inp.dest_root, g, inp.ext)->Ok_0;
        if archived_by_one(found, home) {
            let i = choose|i: int|
                0 <= i < found.len() && match #[trigger] found[i] {
                    KindView::Repack { dest, .. } => dest == home,
                    KindView::Relocate { dest, .. } => dest == home,
                    _ => false,
                };
            if rest.contains(g) {
                assert(p.kinds[i] == found[i]);
            } else {
                assert(p.kinds[before.kinds.len() + i] == found[i]);
            }
            assert(archived_by_one(p.kinds, home));
        }
    }
}

pub proof fn lemma_games_listed(ms: Seq<MatchView>)
    ensures
        sorted_map::in_order::<String>(game_names(ms)).to_set() == game_names(ms),
        sorted_map::increasing::<String>(sorted_map::in_order::<String>(game_names(ms))),
{
    let names = game_names(ms);
    let list = ms.map_values(|m: MatchView| m.game_name);
    assert forall|g: Seq<char>| #[trigger] names.contains(g) <==> list.to_set().contains(g) by {
        if names.contains(g) {
            let i = choose|i: int| 0 <= i < ms.len() && (#[trigger] ms[i]).game_name == g;
            assert(list[i] == g);
        }
        if list.to_set().contains(g) {
            let i = choose|i: int| 0 <= i < list.len() && list[i] == g;
            assert(ms[i].game_name == g);
        }
    }
    assert(names =~= list.to_set());
    vstd::seq_lib::seq_to_set_is_finite(list);
    sorted_map::lemma_order_exists::<String>(names);
}

/// Every game of a collection ends up in its archive: the archive is in place and
/// holds every ROM, or it is built or moved there. A torrentzip is built always.
pub proof fn law_every_game_is_archived(ms: Seq<MatchView>, inp: InputsView, m: MatchView)
    requires
        ms.contains(m),
    ensures
        archive_plan(ms, inp) matches Ok(p) ==> (destinations::archive_dest(
            inp.dest_root,
            m.game_name,
            inp.ext,
        ) matches Ok(home) && (archived_by_one(p.kinds, home) || (inp.tag != "torrentzip"@
            && archive_in_place(
            ms.filter(|x: MatchView| x.game_name == m.game_name),
            home,
        )))),
{
    let games = sorted_map::in_order::<String>(game_names(ms));
    lemma_games_listed(ms);
    let i = choose|i: int| 0 <= i < ms.len() && ms[i] == m;
    assert(ms[i].game_name == m.game_name);
    assert(game_names(ms).contains(m.game_name));
    assert(games.to_set().contains(m.game_name));
    lemma_games_are_archived(ms, games, inp, m.game_name);
}

/// A repack consumes what feeds it exactly where nothing of the game belongs
/// elsewhere, something feeds it, and the source of everything that does lets its
/// content go.
pub proof fn law_consumed_exactly_where_all_may_leave(
    game_name: Seq<char>,
    gs: Seq<MatchView>,
    inp: InputsView,
)
    ensures
        game_plan(game_name, gs, inp) matches Ok(p) ==> (p.kinds.len() > 0 ==> (
        p.kinds[0] matches KindView::Repack { sources, dest, move_sources, .. } ==> {
            let fed = archive_game::feeders(gs, archive_game::built_from(gs, dest));
            &&& sources.len() == fed.len()
            &&& forall|i: int|
                0 <= i < sources.len() ==> archive_game::is_entry_for(#[trigger] sources[i], fed[i])
            &&& move_sources <==> sources.len() > 0 && (forall|i: int|
                0 <= i < gs.len() ==> !inp.shared.contains((#[trigger] gs[i]).sha1)) && (forall|
                i: int,
            |
                0 <= i < fed.len() ==> source_policy::may_leave(
                    inp.dispositions,
                    (#[trigger] fed[i]).source_root,
                    dest,
                ))
        })),
{
    if game_plan(game_name, gs, inp) is Ok {
        let dest = destinations::archive_dest(inp.dest_root, game_name, inp.ext)->Ok_0;
        let from = archive_game::built_from(gs, dest);
        archive_game::lemma_source_refs(archive_game::feeders(gs, from));
    }
}

/// A complete archive of the right format that may leave its source and serves this
/// game alone is moved whole, not built anew.
pub proof fn law_complete_archive_is_moved_whole(
    game_name: Seq<char>,
    gs: Seq<MatchView>,
    inp: InputsView,
    home: Seq<char>,
    src: Seq<char>,
)
    requires
        destinations::archive_dest(inp.dest_root, game_name, inp.ext) == Ok::<
            Seq<char>,
            PathErrorView,
        >(home),
        !archive_game::complete(gs, home),
        archive_game::built_from(gs, home) == Some(src),
        inp.tag == "zip"@ || inp.tag == "7z"@,
        source_policy::may_leave(inp.dispositions, root_of(gs, src), home),
        forall|i: int| 0 <= i < gs.len() ==> !inp.shared.contains((#[trigger] gs[i]).sha1),
        !inp.shared_containers.contains(src),
        forall|i: int|
            0 <= i < gs.len() && types::held_at(#[trigger] gs[i]) == src
                ==> gs[i].archive_path is Some,
        text::lower_seq(text::after_last(src, '.')) == text::lower_seq(inp.ext),
    ensures
        game_plan(game_name, gs, inp) matches Ok(p) && p.kinds.len() > 0 && (
        p.kinds[0] matches KindView::Relocate { source, dest, .. } && source == src && dest
            == home) && p.counts.relocated == 1 && p.counts.to_write == 0,
{
    reveal_strlit("zip");
    reveal_strlit("7z");
    reveal_strlit("torrentzip");
    assert("zip"@.len() == 3 && "7z"@.len() == 2 && "torrentzip"@.len() == 10);
    archive_game::law_complete_container_is_found(gs, home);
    let es = archive_game::entries_of(gs, src);
    let here = |m: MatchView| types::held_at(m) == src;
    seqs::lemma_filter_members(gs, here);
    let j = choose|j: int| 0 <= j < gs.len() && types::held_at(#[trigger] gs[j]) == src;
    assert(gs.contains(gs[j]));
    assert(es.contains(gs[j]));
    assert forall|i: int| 0 <= i < es.len() implies (#[trigger] es[i]).archive_path is Some by {
        assert(es.contains(es[i]));
        let k = choose|k: int| 0 <= k < gs.len() && gs[k] == es[i];
        assert(gs[k].archive_path is Some);
    }
    assert(relocatable(es, src, inp.ext));
    assert(!archive_game::has_shared(gs, inp.shared));
    assert(src != home);
    assert(action_for(gs, Some(src), home, false, inp) == ActionView::Relocate { src });
}

/// A container is left to be drained exactly where a repack is built from it alone,
/// it is an archive other than the game's own, and its source lets its content go.
/// What is recorded of it tells of every entry that it holds of the game.
pub proof fn law_drained_exactly_where_built_from(
    game_name: Seq<char>,
    gs: Seq<MatchView>,
    inp: InputsView,
    home: Seq<char>,
)
    requires
        destinations::archive_dest(inp.dest_root, game_name, inp.ext) == Ok::<
            Seq<char>,
            PathErrorView,
        >(home),
    ensures
        game_plan(game_name, gs, inp) matches Ok(p) ==> {
            let from = archive_game::built_from(gs, home);
            &&& p.drains.len() <= 1
            &&& p.drains.len() == 1 <==> (p.kinds.len() > 0 && p.kinds[0] is Repack
                && from is Some && from != Some(home) && archive_game::entries_of(
                gs,
                from->0,
            )[0].archive_path is Some && source_policy::may_leave(
                inp.dispositions,
                archive_game::entries_of(gs, from->0)[0].source_root,
                home,
            ))
            &&& p.drains.len() == 1 ==> {
                let d = p.drains[0];
                let held = archive_game::entries_of(gs, d.container).filter(
                    |m: MatchView| m.archive_path is Some,
                );
                &&& from == Some(d.container)
                &&& d.dest == home
                &&& d.entries.len() == held.len()
                &&& forall|i: int|
                    0 <= i < held.len() ==> container_drains::tells_of(
                        #[trigger] d.entries[i],
                        held[i],
                        home,
                    )
            }
        },
{
    if game_plan(game_name, gs, inp) is Ok {
        let from = archive_game::built_from(gs, home);
        let p = game_plan(game_name, gs, inp)->Ok_0;
        let placing = placing_plan(game_name, gs, home, inp)->Ok_0;
        archive_game::law_complete_container_is_found(gs, home);
        if let Some(c) = from {
            container_drains::law_rebuild_tells_of_every_entry(
                archive_game::entries_of(gs, c),
                home,
            );
        }
        if placing.kinds.len() > 0 {
            assert(p.kinds[0] == placing.kinds[0]);
        } else if p.kinds.len() > 0 {
            assert(p.kinds[0] is Delete);
        }
    }
}

/// The counts of a plan are those of its operations: what is written, what is moved
/// whole, what is deleted, and the bytes of all that is placed.
pub open spec fn counted(p: PlacementPlanView) -> bool {
    &&& p.counts.to_write == p.kinds.filter(
        |k: KindView| k is Copy || k is Move || k is Repack,
    ).len()
    &&& p.counts.relocated == p.kinds.filter(|k: KindView| k is Relocate).len()
    &&& p.counts.deduped == p.kinds.filter(|k: KindView| k is Delete).len()
    &&& p.counts.bytes == text::capped(placed_bytes(p.kinds))
}

/// The bytes that operations place, added up.
pub open spec fn placed_bytes(kinds: Seq<KindView>) -> int {
    kinds.fold_left(
        0int,
        |sum: int, k: KindView|
            sum + match k {
                KindView::Copy { source: _, dest: _, size, placement: _ } => size as int,
                KindView::Move { source: _, dest: _, size, placement: _ } => size as int,
                KindView::Relocate { source: _, dest: _, size } => size as int,
                KindView::Repack { sources: _, dest: _, format: _, move_sources: _, size } =>
                    size as int,
                KindView::Delete { .. } => 0,
                KindView::Quarantine { .. } => 0,
            },
    )
}

pub proof fn lemma_placed_bytes(a: Seq<KindView>, b: Seq<KindView>)
    ensures
        placed_bytes(Seq::empty()) == 0,
        placed_bytes(a + b) == placed_bytes(a) + placed_bytes(b),
        placed_bytes(b) >= 0,
        b.len() == 1 ==> placed_bytes(b) == match b[0] {
            KindView::Copy { source: _, dest: _, size, placement: _ } => size as int,
            KindView::Move { source: _, dest: _, size, placement: _ } => size as int,
            KindView::Relocate { source: _, dest: _, size } => size as int,
            KindView::Repack { sources: _, dest: _, format: _, move_sources: _, size } =>
                size as int,
            KindView::Delete { .. } => 0,
            KindView::Quarantine { .. } => 0,
        },
        (forall|i: int| 0 <= i < b.len() ==> (#[trigger] b[i]) is Delete) ==> placed_bytes(b) == 0,
    decreases b.len(),
{
    reveal_with_fuel(Seq::fold_left, 2);
    if b.len() == 0 {
        assert(a + b =~= a);
    } else {
        let c = b.drop_last();
        assert((a + b).drop_last() =~= a + c);
        assert((a + b).last() == b.last());
        lemma_placed_bytes(a, c);
        assert(b[b.len() - 1] == b.last());
        assert forall|i: int| 0 <= i < c.len() implies c[i] == #[trigger] b[i] by {}
        if forall|i: int| 0 <= i < b.len() ==> (#[trigger] b[i]) is Delete {
            assert forall|i: int| 0 <= i < c.len() implies (#[trigger] c[i]) is Delete by {
                assert(b[i] is Delete);
            }
        }
    }
}

pub proof fn lemma_counted_joins(a: PlacementPlanView, b: PlacementPlanView)
    requires
        counted(a),
        counted(b),
        a.kinds.len() + b.kinds.len() <= usize::MAX,
    ensures
        counted(joined(a, b)),
        counted(nothing()),
{
    let w = |k: KindView| k is Copy || k is Move || k is Repack;
    let r = |k: KindView| k is Relocate;
    let d = |k: KindView| k is Delete;
    Seq::filter_distributes_over_add(a.kinds, b.kinds, w);
    Seq::filter_distributes_over_add(a.kinds, b.kinds, r);
    Seq::filter_distributes_over_add(a.kinds, b.kinds, d);
    seqs::lemma_filter_members(a.kinds, w);
    seqs::lemma_filter_members(b.kinds, w);
    seqs::lemma_filter_members(a.kinds, r);
    seqs::lemma_filter_members(b.kinds, r);
    seqs::lemma_filter_members(a.kinds, d);
    seqs::lemma_filter_members(b.kinds, d);
    lemma_placed_bytes(a.kinds, b.kinds);
    lemma_placed_bytes(b.kinds, a.kinds);
    let none = Seq::<KindView>::empty();
    seqs::lemma_filter_members(none, w);
    seqs::lemma_filter_members(none, r);
    seqs::lemma_filter_members(none, d);
}

/// What the deletes of duplicates come to.
pub proof fn lemma_deletes_filtered(paths: Seq<Seq<char>>, dest: Seq<char>)
    ensures
        delete_kinds(paths, dest).filter(
            |k: KindView| k is Copy || k is Move || k is Repack,
        ).len() == 0,
        delete_kinds(paths, dest).filter(|k: KindView| k is Relocate).len() == 0,
        delete_kinds(paths, dest).filter(|k: KindView| k is Delete).len() == paths.len(),
        placed_bytes(delete_kinds(paths, dest)) == 0,
    decreases paths.len(),
{
    reveal(Seq::filter);
    let ks = delete_kinds(paths, dest);
    lemma_placed_bytes(ks, ks);
    if paths.len() > 0 {
        lemma_deletes_filtered(paths.drop_last(), dest);
        assert(ks.drop_last() =~= delete_kinds(paths.drop_last(), dest));
        assert(ks.last() is Delete);
    }
}

proof fn lemma_game_counted(game_name: Seq<char>, gs: Seq<MatchView>, inp: InputsView)
    ensures
        game_plan(game_name, gs, inp) matches Ok(p) ==> p.kinds.len() <= usize::MAX ==> counted(p),
{
    if game_plan(game_name, gs, inp) is Ok {
        let dest = destinations::archive_dest(inp.dest_root, game_name, inp.ext)->Ok_0;
        let placing = placing_plan(game_name, gs, dest, inp)->Ok_0;
        let from = archive_game::built_from(gs, dest);
        let gone = duplicates(gs, dest, from, inp);
        let p = game_plan(game_name, gs, inp)->Ok_0;
        let w = |k: KindView| k is Copy || k is Move || k is Repack;
        let r = |k: KindView| k is Relocate;
        let d = |k: KindView| k is Delete;
        let ds = delete_kinds(gone, dest);
        reveal_with_fuel(Seq::filter, 2);
        lemma_placed_bytes(Seq::empty(), placing.kinds);
        if placing.kinds.len() > 0 {
            assert(placing.kinds.drop_last() =~= Seq::empty());
        }
        assert(counted(placing));
        lemma_deletes_filtered(gone, dest);
        Seq::filter_distributes_over_add(placing.kinds, ds, w);
        Seq::filter_distributes_over_add(placing.kinds, ds, r);
        Seq::filter_distributes_over_add(placing.kinds, ds, d);
        lemma_placed_bytes(placing.kinds, ds);
    }
}

proof fn lemma_games_counted(ms: Seq<MatchView>, games: Seq<Seq<char>>, inp: InputsView)
    ensures
        games_plan(ms, games, inp) matches Ok(p) ==> p.kinds.len() <= usize::MAX ==> counted(p),
    decreases games.len(),
{
    if games.len() == 0 {
        reveal_with_fuel(Seq::filter, 2);
        lemma_placed_bytes(Seq::empty(), Seq::empty());
    } else if games_plan(ms, games, inp) is Ok && games_plan(ms, games, inp)->Ok_0.kinds.len()
        <= usize::MAX {
        let rest = games.drop_last();
        let g = games.last();
        lemma_games_counted(ms, rest, inp);
        lemma_game_counted(g, of_game(ms, g), inp);
        lemma_counted_joins(
            games_plan(ms, rest, inp)->Ok_0,
            game_plan(g, of_game(ms, g), inp)->Ok_0,
        );
    }
}

/// What is counted of a game: a repack by the ROMs that it is built of, each once; an
/// archive moved whole by all that is in it; and one that is right already by its
/// ROMs, each once.
pub proof fn law_games_are_counted_by_their_roms(
    game_name: Seq<char>,
    ms: Seq<MatchView>,
    dest: Seq<char>,
    inp: InputsView,
)
    requires
        placing_plan(game_name, ms, dest, inp) is Ok,
    ensures
        ({
            let p = placing_plan(game_name, ms, dest, inp)->Ok_0;
            let roms = ms.map_values(|m: MatchView| (m.rom_name, m.sha1));
            &&& p.kinds.len() == 0 && roms.to_set().len() <= usize::MAX
                ==> p.counts.already_correct == roms.to_set().len() && p.counts.bytes == 0
            &&& p.kinds.len() > 0 ==> p.counts.already_correct == 0
            &&& forall|i: int|
                0 <= i < p.kinds.len() ==> (#[trigger] p.kinds[i] matches KindView::Repack {
                    size,
                    ..
                } ==> size == text::capped(
                    archive_game::size_sum(ms, archive_game::expected(ms)),
                ) && p.counts.bytes == size)
            &&& forall|i: int|
                0 <= i < p.kinds.len() ==> (#[trigger] p.kinds[i] matches KindView::Relocate {
                    source,
                    size,
                    ..
                } ==> p.counts.bytes == size && size == text::capped(
                    ms.filter(
                        |m: MatchView| m.source_root + "/"@ + m.source_path == source,
                    ).fold_left(0int, |sum: int, m: MatchView| sum + m.size as u64),
                ))
        }),
{
    let p = placing_plan(game_name, ms, dest, inp)->Ok_0;
    let roms = ms.map_values(|m: MatchView| (m.rom_name, m.sha1));
    let shared = archive_game::has_shared(ms, inp.shared);
    let from = archive_game::built_from(ms, dest);
    seqs::lemma_distinct(roms);
    let list = archive_game::expected(ms);
    assert(list.to_set() =~= roms.to_set()) by {
        assert forall|x: (Seq<char>, Seq<char>)| #[trigger] list.to_set().contains(x)
            <==> roms.to_set().contains(x) by {
            assert(list.contains(x) <==> roms.contains(x));
        }
    }
    list.unique_seq_to_set();
    if let ActionView::Relocate { src } = action_for(ms, from, dest, shared, inp) {
        let f = |m: MatchView| types::held_at(m) == src;
        let g = |m: MatchView| m.source_root + "/"@ + m.source_path == src;
        assert(f =~= g);
        lemma_match_bytes_sum(ms.filter(f));
    }
}

proof fn lemma_match_bytes_sum(ms: Seq<MatchView>)
    ensures
        archive_game::match_bytes(ms) == ms.fold_left(
            0int,
            |sum: int, m: MatchView| sum + m.size as u64,
        ),
    decreases ms.len(),
{
    reveal_with_fuel(Seq::fold_left, 2);
    if ms.len() > 0 {
        lemma_match_bytes_sum(ms.drop_last());
    }
}

/// The counts of a collection's plan are those of the operations planned for it.
pub proof fn law_counts_are_of_the_operations(ms: Seq<MatchView>, inp: InputsView)
    ensures
        archive_plan(ms, inp) matches Ok(p) ==> p.kinds.len() <= usize::MAX ==> counted(p),
{
    lemma_games_counted(ms, sorted_map::in_order::<String>(game_names(ms)), inp);
}

// ---------------------------------------------------------------------------
// Code
// ---------------------------------------------------------------------------

/// Whether a complete source container can be relocated whole to its
/// destination rather than repacked.
pub fn is_relocatable_archive(entries: &[MatchedRom], src: &str, ext: &str) -> (r: bool)
    ensures
        r == relocatable(types::match_views(entries@), src@, ext@),
{
    let ghost all = types::match_views(entries@);
    if entries.len() == 0 {
        return false;
    }
    let mut i: usize = 0;
    while i < entries.len()
        invariant
            i <= entries@.len(),
            all == types::match_views(entries@),
            forall|j: int| 0 <= j < i ==> (#[trigger] all[j]).archive_path is Some,
        decreases entries@.len() - i,
    {
        if entries[i].archive_path.is_none() {
            proof {
                assert(all[i as int].archive_path is None);
            }
            return false;
        }
        i = i + 1;
    }
    let tail = text::after_last_char(src, '.');
    text::eq_ignore_case(tail.as_str(), ext)
}

/// Chooses what is done for a game.
pub fn choose_archive_game_action<'a>(
    build_from: Option<&'a str>,
    dest: &str,
    game: &ArchiveGame,
    game_shared: bool,
    inputs: &ArchivePlanInputs,
) -> (r: ArchiveGameAction<'a>)
    requires
        build_from matches Some(src) ==> archive_game::is_container(game@, src@),
    ensures
        r.deep_view() == action_for(
            game@,
            build_from.deep_view(),
            dest@,
            game_shared,
            inputs.deep_view(),
        ),
{
    let torrentzip = text::str_eq(inputs.tag, "torrentzip");
    if game.is_complete(dest) && !torrentzip {
        return ArchiveGameAction::AlreadyCorrect;
    }
    match relocatable_source(build_from, dest, game, game_shared, inputs) {
        Some(src) => ArchiveGameAction::Relocate { src },
        None => ArchiveGameAction::Repack,
    }
}

fn relocatable_source<'a>(
    build_from: Option<&'a str>,
    dest: &str,
    game: &ArchiveGame,
    game_shared: bool,
    inputs: &ArchivePlanInputs,
) -> (r: Option<&'a str>)
    requires
        build_from matches Some(src) ==> archive_game::is_container(game@, src@),
    ensures
        ({
            let inp = inputs.deep_view();
            r.deep_view() == match build_from.deep_view() {
                Some(src) => if src != dest@ && source_policy::may_leave(
                    inp.dispositions,
                    root_of(game@, src),
                    dest@,
                ) && !game_shared && !inp.shared_containers.contains(src) && inp.tag
                    != "torrentzip"@ && relocatable(
                    archive_game::entries_of(game@, src),
                    src,
                    inp.ext,
                ) {
                    Some(src)
                } else {
                    None
                },
                None => None,
            }
        }),
{
    let src = match build_from {
        Some(src) => src,
        None => {
            return None;
        },
    };
    if text::str_eq(src, dest) {
        return None;
    }
    let entries = match game.entries(src) {
        Some(entries) => entries,
        None => {
            return None;
        },
    };
    proof {
        assert(types::match_views(entries@) =~= entries.deep_view());
        assert(entries.deep_view()[0].source_root == entries@[0].source_root@);
    }
    let torrentzip = text::str_eq(inputs.tag, "torrentzip");
    if may_move(inputs.dispositions, entries[0].source_root.as_str(), dest) && !game_shared
        && !inputs.shared_containers.contains(src) && !torrentzip && is_relocatable_archive(
        entries.as_slice(),
        src,
        inputs.ext,
    ) {
        Some(src)
    } else {
        None
    }
}

/// Whether a repack may consume what feeds it.
pub fn can_consume_repack_feeders(
    game: &ArchiveGame,
    build_from: Option<&str>,
    dest: &str,
    game_shared: bool,
    inputs: &ArchivePlanInputs,
) -> (r: bool)
    requires
        build_from matches Some(src) ==> archive_game::is_container(game@, src@),
    ensures
        r == consumes(game@, build_from.deep_view(), dest@, game_shared, inputs.deep_view()),
{
    let roots = game.feeder_roots(build_from);
    let ghost fed = archive_game::feeders(game@, build_from.deep_view());
    let ghost inp = inputs.deep_view();
    proof {
        assert(roots.deep_view().len() == roots@.len());
        assert(fed.map_values(|m: MatchView| m.source_root).len() == fed.len());
    }
    if game_shared || roots.len() == 0 {
        return false;
    }
    let mut i: usize = 0;
    while i < roots.len()
        invariant
            i <= roots@.len(),
            fed.len() == roots@.len(),
            roots.deep_view() == fed.map_values(|m: MatchView| m.source_root),
            fed == archive_game::feeders(game@, build_from.deep_view()),
            inp == inputs.deep_view(),
            forall|j: int|
                0 <= j < i ==> source_policy::may_leave(
                    inp.dispositions,
                    (#[trigger] fed[j]).source_root,
                    dest@,
                ),
        decreases roots@.len() - i,
    {
        proof {
            assert(roots.deep_view()[i as int] == fed[i as int].source_root);
        }
        if !may_delete(inputs.dispositions, roots[i], dest) {
            proof {
                assert(!source_policy::may_leave(
                    inp.dispositions,
                    fed[i as int].source_root,
                    dest@,
                ));
            }
            return false;
        }
        i = i + 1;
    }
    true
}

/// The container that a repack allows to drain.
pub fn drainable_repack_container<'a>(
    game: &ArchiveGame,
    dest: &str,
    build_from: Option<&'a str>,
    inputs: &ArchivePlanInputs,
) -> (r: Option<&'a str>)
    ensures
        r.deep_view() == drained(game@, dest@, build_from.deep_view(), inputs.deep_view()),
{
    let container = match build_from {
        Some(container) => container,
        None => {
            return None;
        },
    };
    if text::str_eq(container, dest) {
        return None;
    }
    match game.entries(container) {
        None => None,
        Some(entries) => {
            let first = &entries[0];
            proof {
                assert(entries.deep_view()[0] == first.deep_view());
            }
            if first.archive_path.is_some() && may_delete(
                inputs.dispositions,
                first.source_root.as_str(),
                dest,
            ) {
                Some(container)
            } else {
                None
            }
        },
    }
}

/// The duplicates of a game's archive that may go.
pub fn archive_dedup_delete_candidates<'a>(
    game: &'a ArchiveGame,
    dest: &str,
    build_from: Option<&str>,
    inputs: &ArchivePlanInputs,
) -> (r: Vec<&'a str>)
    ensures
        r.deep_view() == duplicates(game@, dest@, build_from.deep_view(), inputs.deep_view()),
{
    let ghost ms = game@;
    let ghost from = build_from.deep_view();
    let ghost inp = inputs.deep_view();
    let ghost order = sorted_map::in_order::<String>(archive_game::containers(ms));
    let ghost may_go = |p: Seq<char>| droppable(ms, p, dest@, from, inp);
    let n = game.container_count();
    let mut out: Vec<&'a str> = Vec::new();
    let mut i: usize = 0;
    proof {
        reveal(Seq::filter);
        assert(out.deep_view() =~= order.take(0).filter(may_go));
    }
    while i < n
        invariant
            i <= n,
            n == order.len(),
            ms == game@,
            from == build_from.deep_view(),
            inp == inputs.deep_view(),
            order == sorted_map::in_order::<String>(archive_game::containers(ms)),
            may_go == (|p: Seq<char>| droppable(ms, p, dest@, from, inp)),
            out.deep_view() == order.take(i as int).filter(may_go),
        decreases n - i,
    {
        let path: &'a str = game.container_at(i);
        proof {
            assert(order.take(i + 1).drop_last() =~= order.take(i as int));
            reveal_with_fuel(Seq::filter, 2);
        }
        let is_source = match build_from {
            Some(src) => text::str_eq(src, path),
            None => false,
        };
        let kept = text::str_eq(path, dest) || is_source || inputs.shared_containers.contains(path)
            || is_in_library(path, inputs.default_dest, inputs.dest_root);
        if !kept {
            if let Some(entries) = game.entries(path) {
                proof {
                    assert(entries.deep_view()[0] == entries@[0].deep_view());
                }
                if may_delete(inputs.dispositions, entries[0].source_root.as_str(), dest) {
                    let ghost before = out.deep_view();
                    out.push(path);
                    proof {
                        assert(out.deep_view() =~= before.push(path@));
                    }
                }
            }
        }
        i = i + 1;
    }
    proof {
        assert(order.take(i as int) =~= order);
    }
    out
}

fn plan_repack(
    game_name: &str,
    dest: &str,
    build_from: Option<&str>,
    game: &ArchiveGame,
    game_shared: bool,
    inputs: &ArchivePlanInputs,
) -> (r: Result<PlacementPlan, PlanError>)
    requires
        build_from matches Some(src) ==> archive_game::is_container(game@, src@),
    ensures
        agrees(
            r,
            repack_plan(
                game_name@,
                game@,
                dest@,
                build_from.deep_view(),
                game_shared,
                inputs.deep_view(),
            ),
        ),
{
    let sources = match game.source_refs_for(build_from) {
        Ok(sources) => sources,
        Err(error) => {
            return Err(PlanError::DatPath { game_name: game_name.to_owned(), error });
        },
    };
    let size = game.expected_size();
    let move_sources = can_consume_repack_feeders(game, build_from, dest, game_shared, inputs);
    let mut drains: Vec<DrainRecord> = Vec::new();
    if let Some(container) = drainable_repack_container(game, dest, build_from, inputs) {
        if let Some(entries) = game.entries(container) {
            match entries_to_rebuild(entries, dest) {
                Err(e) => {
                    return Err(PlanError::Path(e));
                },
                Ok(list) => {
                    drains.push(
                        DrainRecord {
                            container: container.to_owned(),
                            dest: dest.to_owned(),
                            entries: list,
                        },
                    );
                },
            }
        }
    }
    let mut kinds: Vec<OperationKind> = Vec::new();
    kinds.push(
        OperationKind::Repack {
            sources,
            dest: dest.to_owned(),
            format: inputs.tag.to_owned(),
            move_sources,
            size,
        },
    );
    let mut counts = PlacementPlanCounts::zero();
    counts.to_write = 1;
    counts.bytes = size;
    let p = PlacementPlan { kinds, counts, drains };
    proof {
        let model = repack_plan(
            game_name@,
            game@,
            dest@,
            build_from.deep_view(),
            game_shared,
            inputs.deep_view(),
        );
        assert(p.kinds.deep_view() =~= model->Ok_0.kinds);
        assert(p.drains.deep_view() =~= model->Ok_0.drains);
        assert(p.deep_view() =~= model->Ok_0);
    }
    Ok(p)
}

fn entry_bytes(entries: &Vec<MatchedRom>) -> (n: u64)
    ensures
        n == text::capped(archive_game::match_bytes(entries.deep_view())),
{
    let ghost all = entries.deep_view();
    let mut total: u64 = 0;
    let mut i: usize = 0;
    while i < entries.len()
        invariant
            i <= entries@.len(),
            all == entries.deep_view(),
            total == text::capped(archive_game::match_bytes(all.take(i as int))),
            archive_game::match_bytes(all.take(i as int)) >= 0,
        decreases entries@.len() - i,
    {
        proof {
            assert(all.take(i + 1).drop_last() =~= all.take(i as int));
        }
        total = total.saturating_add(entries[i].size as u64);
        i = i + 1;
    }
    proof {
        assert(all.take(i as int) =~= all);
    }
    total
}

fn plan_placing(
    game_name: &str,
    game: &ArchiveGame,
    dest: &str,
    build_from: Option<&str>,
    game_shared: bool,
    inputs: &ArchivePlanInputs,
) -> (r: Result<PlacementPlan, PlanError>)
    requires
        build_from.deep_view() == archive_game::built_from(game@, dest@),
        game_shared == archive_game::has_shared(game@, inputs.shared@),
    ensures
        agrees(r, placing_plan(game_name@, game@, dest@, inputs.deep_view())),
{
    proof {
        archive_game::law_complete_container_is_found(game@, dest@);
    }
    match choose_archive_game_action(build_from, dest, game, game_shared, inputs) {
        ArchiveGameAction::AlreadyCorrect => {
            let mut p = PlacementPlan::empty();
            p.counts.already_correct = game.expected_count();
            Ok(p)
        },
        ArchiveGameAction::Relocate { src } => {
            let mut p = PlacementPlan::empty();
            let size: u64 = match game.entries(src) {
                Some(entries) => entry_bytes(entries),
                None => 0,
            };
            p.kinds.push(
                OperationKind::Relocate { source: src.to_owned(), dest: dest.to_owned(), size },
            );
            p.counts.relocated = 1;
            p.counts.bytes = size;
            proof {
                assert(p.kinds.deep_view() =~= seq![
                    KindView::Relocate { source: src@, dest: dest@, size },
                ]);
            }
            Ok(p)
        },
        ArchiveGameAction::Repack => plan_repack(
            game_name,
            dest,
            build_from,
            game,
            game_shared,
            inputs,
        ),
    }
}

fn add_dedup_deletes(
    game: &ArchiveGame,
    dest: &str,
    build_from: Option<&str>,
    inputs: &ArchivePlanInputs,
    p: &mut PlacementPlan,
)
    ensures
        ({
            let gone = duplicates(game@, dest@, build_from.deep_view(), inputs.deep_view());
            final(p).deep_view() == (PlacementPlanView {
                kinds: old(p).deep_view().kinds + delete_kinds(gone, dest@),
                counts: types::merged(
                    old(p).counts,
                    (PlacementPlanCounts { deduped: gone.len() as usize, ..types::no_counts() }),
                ),
                ..old(p).deep_view()
            })
        }),
{
    let gone = archive_dedup_delete_candidates(game, dest, build_from, inputs);
    let ghost paths = gone.deep_view();
    let ghost before = p.deep_view();
    let ghost deletes = delete_kinds(paths, dest@);
    let mut i: usize = 0;
    proof {
        assert(before.kinds + deletes.take(0) =~= before.kinds);
    }
    while i < gone.len()
        invariant
            i <= gone@.len(),
            paths == gone.deep_view(),
            deletes == delete_kinds(paths, dest@),
            p.deep_view() == (PlacementPlanView {
                kinds: before.kinds + deletes.take(i as int),
                ..before
            }),
        decreases gone@.len() - i,
    {
        let ghost had = p.kinds.deep_view();
        p.kinds.push(
            OperationKind::Delete {
                path: gone[i].to_owned(),
                reason: dedup_reason(dest),
                rebuild: None,
            },
        );
        i = i + 1;
        proof {
            assert(paths[i - 1] == gone@[i - 1]@);
            assert(p.kinds.deep_view() =~= had.push(deletes[i - 1]));
            assert(before.kinds + deletes.take(i as int) =~= (before.kinds + deletes.take(
                i - 1,
            )).push(deletes[i - 1]));
        }
    }
    proof {
        assert(deletes.take(i as int) =~= deletes);
        assert(paths.len() == gone@.len());
    }
    let mut more = PlacementPlanCounts::zero();
    more.deduped = gone.len();
    p.counts.merge(more);
}

/// Plans the archive of one game.
pub fn plan_archive_game(
    game_name: &str,
    matches: Vec<MatchedRom>,
    inputs: &ArchivePlanInputs,
) -> (r: Result<PlacementPlan, PlanError>)
    ensures
        agrees(r, game_plan(game_name@, matches.deep_view(), inputs.deep_view())),
{
    let dest = match build_archive_dest_path(inputs.dest_root, game_name, inputs.ext) {
        Ok(dest) => dest,
        Err(e) => {
            return Err(PlanError::Path(e));
        },
    };
    let game = ArchiveGame::from_matches(matches);
    let game_shared = game.has_shared_content(inputs.shared);
    let built = game.build_from(dest.as_str());
    let build_from: Option<&str> = match &built {
        Some(s) => Some(s.as_str()),
        None => None,
    };
    let mut p = match plan_placing(
        game_name,
        &game,
        dest.as_str(),
        build_from,
        game_shared,
        inputs,
    ) {
        Ok(p) => p,
        Err(e) => {
            return Err(e);
        },
    };
    if !game_shared {
        add_dedup_deletes(&game, dest.as_str(), build_from, inputs, &mut p);
    }
    Ok(p)
}

/// Groups matches by game.
pub fn group_by_game(matches: &Vec<MatchedRom>) -> (games: SortedMap<String, Vec<MatchedRom>>)
    ensures
        games.linked(),
        games.keys() == sorted_map::in_order::<String>(game_names(matches.deep_view())),
        forall|g: Seq<char>| #[trigger]
            games@.contains_key(g) ==> games@[g].deep_view() == of_game(matches.deep_view(), g),
{
    let ghost ms = matches.deep_view();
    let mut games: SortedMap<String, Vec<MatchedRom>> = SortedMap::new();
    let mut i: usize = 0;
    while i < matches.len()
        invariant
            i <= matches@.len(),
            ms == matches.deep_view(),
            forall|g: Seq<char>|
                #[trigger] games@.contains_key(g) <==> game_names(ms.take(i as int)).contains(g),
            forall|g: Seq<char>| #[trigger]
                games@.contains_key(g) ==> games@[g].deep_view() == of_game(
                    ms.take(i as int),
                    g,
                ),
        decreases matches@.len() - i,
    {
        let m = &matches[i];
        let ghost t = ms.take(i as int);
        let ghost v = m.deep_view();
        let ghost g0 = v.game_name;
        let ghost before = games@;
        let mut list: Vec<MatchedRom> = match games.remove(&m.game_name) {
            Some(list) => list,
            None => Vec::new(),
        };
        let ghost had = list.deep_view();
        list.push(m.clone());
        proof {
            assert(list.deep_view() =~= had.push(v));
            assert(ms.take(i + 1) =~= t.push(v));
            if !before.contains_key(g0) {
                lemma_no_game(t, g0);
                assert(had =~= of_game(t, g0));
            }
        }
        games.insert(m.game_name.clone(), list);
        proof {
            assert forall|g: Seq<char>| #[trigger]
                games@.contains_key(g) <==> game_names(t.push(v)).contains(g) by {
                lemma_game_push(t, v, g);
                assert(before.contains_key(g) <==> game_names(t).contains(g));
            }
            assert forall|g: Seq<char>| #[trigger] games@.contains_key(g) implies games@[g].deep_view()
                == of_game(t.push(v), g) by {
                lemma_game_push(t, v, g);
                if g != g0 {
                    assert(before.contains_key(g));
                }
            }
        }
        i = i + 1;
    }
    proof {
        assert(ms.take(i as int) =~= ms);
    }
    let _ = games.len();
    let ghost order = games.keys();
    proof {
        assert forall|g: Seq<char>| #[trigger] game_names(ms).contains(g) <==> order.contains(
            g,
        ) by {
            assert(games@.contains_key(g) <==> order.contains(g));
        }
        sorted_map::lemma_in_order::<String>(order, game_names(ms));
    }
    games
}

/// Plans archive-format matches: game by game, in name order.
pub fn plan_archive_matches(matches: &Vec<MatchedRom>, inputs: &ArchivePlanInputs) -> (r: Result<
    PlacementPlan,
    PlanError,
>)
    ensures
        agrees(r, archive_plan(matches.deep_view(), inputs.deep_view())),
{
    let ghost ms = matches.deep_view();
    let ghost inp = inputs.deep_view();
    let games = group_by_game(matches);
    let n = games.len();
    let ghost order = games.keys();
    let mut total = PlacementPlan::empty();
    let mut k: usize = 0;
    while k < n
        invariant
            k <= n,
            n == order.len(),
            order == games.keys(),
            order == sorted_map::in_order::<String>(game_names(ms)),
            ms == matches.deep_view(),
            inp == inputs.deep_view(),
            games.linked(),
            forall|g: Seq<char>| #[trigger]
                games@.contains_key(g) ==> games@[g].deep_view() == of_game(ms, g),
            games_plan(ms, order.take(k as int), inp) == Ok::<PlacementPlanView, PlanErrorView>(
                total.deep_view(),
            ),
        decreases n - k,
    {
        let game_name = games.key_at(k);
        let list = games.value_at(k);
        proof {
            assert(games@.contains_key(order[k as int]));
            assert(list.deep_view() == of_game(ms, order[k as int]));
            assert(order.take(k + 1).drop_last() =~= order.take(k as int));
        }
        match plan_archive_game(game_name.as_str(), clone_matches(list), inputs) {
            Ok(p) => {
                total.join(p);
            },
            Err(e) => {
                proof {
                    lemma_games_err(ms, order, k + 1, inp);
                }
                return Err(e);
            },
        }
        k = k + 1;
    }
    proof {
        assert(order.take(k as int) =~= order);
    }
    Ok(total)
}

/// A copy of a list of matches.
pub fn clone_matches(list: &Vec<MatchedRom>) -> (r: Vec<MatchedRom>)
    ensures
        r.deep_view() == list.deep_view(),
{
    let mut r: Vec<MatchedRom> = Vec::new();
    let mut i: usize = 0;
    while i < list.len()
        invariant
            i <= list@.len(),
            r.deep_view() == list.deep_view().take(i as int),
        decreases list@.len() - i,
    {
        let ghost before = r.deep_view();
        r.push(list[i].clone());
        i = i + 1;
        proof {
            assert(r.deep_view() =~= before.push(list.deep_view()[i - 1]));
            assert(r.deep_view() =~= list.deep_view().take(i as int));
        }
    }
    proof {
        assert(list.deep_view().take(i as int) =~= list.deep_view());
    }
    r
}

proof fn lemma_game_push(t: Seq<MatchView>, v: MatchView, g: Seq<char>)
    ensures
        game_names(t.push(v)).contains(g) <==> game_names(t).contains(g) || v.game_name == g,
        of_game(t.push(v), g) == if v.game_name == g {
            of_game(t, g).push(v)
        } else {
            of_game(t, g)
        },
{
    reveal(Seq::filter);
    let u = t.push(v);
    assert(u.drop_last() =~= t);
    if game_names(t).contains(g) {
        let i = choose|i: int| 0 <= i < t.len() && (#[trigger] t[i]).game_name == g;
        assert(u[i] == t[i]);
    }
    if v.game_name == g {
        assert(u[t.len() as int] == v);
    }
    if game_names(u).contains(g) && v.game_name != g {
        let i = choose|i: int| 0 <= i < u.len() && (#[trigger] u[i]).game_name == g;
        assert(t[i] == u[i]);
    }
}

proof fn lemma_no_game(t: Seq<MatchView>, g: Seq<char>)
    requires
        !game_names(t).contains(g),
    ensures
        of_game(t, g) == Seq::<MatchView>::empty(),
{
    seqs::lemma_filter_members(t, |m: MatchView| m.game_name == g);
    if of_game(t, g).len() > 0 {
        let x = of_game(t, g)[0];
        assert(of_game(t, g).contains(x));
        assert(t.contains(x));
        let i = choose|i: int| 0 <= i < t.len() && t[i] == x;
        assert(t[i].game_name == g);
    }
    assert(of_game(t, g) =~= Seq::<MatchView>::empty());
}

proof fn lemma_games_err(ms: Seq<MatchView>, games: Seq<Seq<char>>, n: int, inp: InputsView)
    requires
        0 <= n <= games.len(),
        games_plan(ms, games.take(n), inp) is Err,
    ensures
        games_plan(ms, games, inp) == games_plan(ms, games.take(n), inp),
    decreases games.len(),
{
    if n == games.len() {
        assert(games.take(n) =~= games);
    } else {
        assert(games.drop_last().take(n) =~= games.take(n));
        lemma_games_err(ms, games.drop_last(), n, inp);
    }
}

} // verus!
