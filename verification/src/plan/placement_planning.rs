//! Planning of content that is stored loose: ROMs of loose-format collections,
//! and disk images always.

use super::archive_planning;
use super::archive_planning::{PlacementPlan, PlacementPlanView};
use super::destinations;
use super::destinations::{build_dest_path, build_disk_dest_path};
use super::error::{PlanError, PlanErrorView};
use super::source_policy;
use super::source_policy::{dedup_reason, is_in_library, may_delete, may_move};
use super::types;
use super::types::{
    CopyPlacement, KindView, MatchView, MatchedRom, OperationKind, PlacementPlanCounts,
    PlacementView, SourceRef, SourceRefView,
};
use crate::db::files::Disposition;
use crate::paths::PathErrorView;
use crate::seqs;
use crate::sorted_map::{SortedMap, SortedSet};
use crate::text;
use vstd::prelude::*;

verus! {

/// What content is laid out as.
#[derive(Clone, Copy, Debug, PartialEq, Eq, Structural)]
pub enum Layout {
    /// ROMs: flat for a single-ROM game, else in the game's folder
    Loose,
    /// Disk images: in the game's folder, with their own extension
    Disk,
}

/// What loose planning goes by.
pub struct LoosePlanInputs<'a> {
    pub dest_root: &'a str,
    pub default_dest: Option<&'a str>,
    pub shared: &'a SortedSet<String>,
    pub dispositions: &'a SortedMap<String, Disposition>,
}

#[verifier::ext_equal]
pub struct LooseInputsView {
    pub dest_root: Seq<char>,
    pub default_dest: Option<Seq<char>>,
    pub shared: Set<Seq<char>>,
    pub dispositions: Map<Seq<char>, Disposition>,
}

impl<'a> DeepView for LoosePlanInputs<'a> {
    type V = LooseInputsView;

    open spec fn deep_view(&self) -> LooseInputsView {
        LooseInputsView {
            dest_root: self.dest_root@,
            default_dest: self.default_dest.deep_view(),
            shared: self.shared@,
            dispositions: self.dispositions@,
        }
    }
}

/// What a match is a copy of: game, ROM name and SHA1.
pub type RomId = (String, String, String);

pub open spec fn rom_id(m: MatchView) -> (Seq<char>, Seq<char>, Seq<char>) {
    (m.game_name, m.rom_name, m.sha1)
}

/// The ROMs to place, each once, in the order they are met.
pub open spec fn wanted(ms: Seq<MatchView>) -> Seq<(Seq<char>, Seq<char>, Seq<char>)> {
    seqs::distinct(ms.map_values(|m: MatchView| rom_id(m)))
}

/// The copies of a ROM, in order.
pub open spec fn copies(
    ms: Seq<MatchView>,
    id: (Seq<char>, Seq<char>, Seq<char>),
) -> Seq<MatchView> {
    ms.filter(|m: MatchView| rom_id(m) == id)
}

/// Whether two matches are different ROMs of one game.
pub open spec fn differ(ms: Seq<MatchView>, game: Seq<char>, i: int, j: int) -> bool {
    &&& 0 <= i < ms.len()
    &&& 0 <= j < ms.len()
    &&& ms[i].game_name == game
    &&& ms[j].game_name == game
    &&& ms[i].rom_name != ms[j].rom_name
}

/// Whether a game has more than one ROM.
pub open spec fn several(ms: Seq<MatchView>, game: Seq<char>) -> bool {
    exists|i: int, j: int| #[trigger] differ(ms, game, i, j)
}

/// Where a ROM goes.
pub open spec fn dest_for(
    layout: Layout,
    ms: Seq<MatchView>,
    id: (Seq<char>, Seq<char>, Seq<char>),
    dest_root: Seq<char>,
) -> Result<Seq<char>, PathErrorView> {
    match layout {
        Layout::Loose => destinations::loose_dest(dest_root, id.0, id.1, several(ms, id.0)),
        Layout::Disk => destinations::disk_dest(dest_root, id.0, id.1),
    }
}

/// Whether a copy is a loose file at a path.
pub open spec fn loose_at(c: MatchView, path: Seq<char>) -> bool {
    c.archive_path is None && types::held_at(c) == path
}

/// Whether one of the copies is in place.
pub open spec fn in_place(cs: Seq<MatchView>, dest: Seq<char>) -> bool {
    exists|i: int| 0 <= i < cs.len() && loose_at(#[trigger] cs[i], dest)
}

/// A copy as the source of a loose file.
pub open spec fn plain_source(c: MatchView) -> SourceRefView {
    SourceRefView {
        path: types::held_at(c),
        archive_path: c.archive_path,
        sha1: c.sha1,
        entry_name: None,
    }
}

/// How a copy is put into place: moved where it is a loose file of no use
/// elsewhere whose source lets it go, else copied.
pub open spec fn place_kind(
    c: MatchView,
    dest: Seq<char>,
    shared: bool,
    inp: LooseInputsView,
) -> KindView {
    if c.archive_path is None && !shared && source_policy::may_leave(
        inp.dispositions,
        c.source_root,
        dest,
    ) {
        KindView::Move {
            source: plain_source(c),
            dest,
            size: c.size as u64,
            placement: PlacementView::LooseFile,
        }
    } else {
        KindView::Copy {
            source: plain_source(c),
            dest,
            size: c.size as u64,
            placement: PlacementView::LooseFile,
        }
    }
}

/// Whether a copy is a duplicate that may go: a loose file, neither in place nor
/// what is put into place, not in the library, and in a source that lets it go.
pub open spec fn droppable(
    c: MatchView,
    dest: Seq<char>,
    used: Option<Seq<char>>,
    inp: LooseInputsView,
) -> bool {
    &&& c.archive_path is None
    &&& types::held_at(c) != dest
    &&& used != Some(types::held_at(c))
    &&& !source_policy::in_library(types::held_at(c), inp.default_dest, inp.dest_root)
    &&& source_policy::may_leave(inp.dispositions, c.source_root, dest)
}

/// The duplicates that may go, each once.
pub open spec fn surplus(
    cs: Seq<MatchView>,
    dest: Seq<char>,
    used: Option<Seq<char>>,
    inp: LooseInputsView,
) -> Seq<Seq<char>> {
    seqs::distinct(
        cs.filter(|c: MatchView| droppable(c, dest, used, inp)).map_values(
            |c: MatchView| types::held_at(c),
        ),
    )
}

/// What is planned for one ROM and its copies.
pub open spec fn copy_plan(
    cs: Seq<MatchView>,
    dest: Seq<char>,
    shared: bool,
    inp: LooseInputsView,
) -> PlacementPlanView {
    let placed = in_place(cs, dest);
    let used = if placed {
        None
    } else {
        Some(types::held_at(cs[0]))
    };
    let gone = if shared {
        Seq::empty()
    } else {
        surplus(cs, dest, used, inp)
    };
    let first = if placed {
        Seq::empty()
    } else {
        seq![place_kind(cs[0], dest, shared, inp)]
    };
    PlacementPlanView {
        kinds: first + archive_planning::delete_kinds(gone, dest),
        counts: PlacementPlanCounts {
            already_correct: if placed {
                1
            } else {
                0
            },
            to_write: if placed {
                0
            } else {
                1
            },
            relocated: 0,
            deduped: gone.len() as usize,
            bytes: if placed {
                0
            } else {
                cs[0].size as u64
            },
        },
        drains: Seq::empty(),
    }
}

/// What is planned for some ROMs, one after the other.
pub open spec fn roms_plan(
    layout: Layout,
    ms: Seq<MatchView>,
    ids: Seq<(Seq<char>, Seq<char>, Seq<char>)>,
    inp: LooseInputsView,
) -> Result<PlacementPlanView, PlanErrorView>
    decreases ids.len(),
{
    if ids.len() == 0 {
        Ok(archive_planning::nothing())
    } else {
        let id = ids.last();
        match roms_plan(layout, ms, ids.drop_last(), inp) {
            Err(e) => Err(e),
            Ok(before) => match dest_for(layout, ms, id, inp.dest_root) {
                Err(e) => Err(PlanErrorView::Path(e)),
                Ok(dest) => Ok(
                    archive_planning::joined(
                        before,
                        copy_plan(copies(ms, id), dest, inp.shared.contains(id.2), inp),
                    ),
                ),
            },
        }
    }
}

/// What is planned for matches that are stored loose.
pub open spec fn loose_plan(layout: Layout, ms: Seq<MatchView>, inp: LooseInputsView) -> Result<
    PlacementPlanView,
    PlanErrorView,
> {
    roms_plan(layout, ms, wanted(ms), inp)
}

/// A ROM whose content also belongs elsewhere is only ever copied: never moved,
/// and no copy of it is deleted.
pub proof fn law_shared_rom_is_only_copied(
    cs: Seq<MatchView>,
    dest: Seq<char>,
    inp: LooseInputsView,
)
    ensures
        forall|i: int|
            0 <= i < copy_plan(cs, dest, true, inp).kinds.len() ==> (#[trigger] copy_plan(
                cs,
                dest,
                true,
                inp,
            ).kinds[i]) is Copy,
{
    assert(archive_planning::delete_kinds(Seq::<Seq<char>>::empty(), dest) =~= Seq::empty());
}

/// A ROM that is in place is left alone: nothing is written for it.
pub proof fn law_placed_rom_is_left_alone(
    cs: Seq<MatchView>,
    dest: Seq<char>,
    shared: bool,
    inp: LooseInputsView,
)
    requires
        in_place(cs, dest),
    ensures
        copy_plan(cs, dest, shared, inp).counts.to_write == 0,
        forall|i: int|
            0 <= i < copy_plan(cs, dest, shared, inp).kinds.len() ==> (#[trigger] copy_plan(
                cs,
                dest,
                shared,
                inp,
            ).kinds[i]) is Delete,
{
}

/// A copy in the library, the one in place and the one put into place are never
/// deleted as duplicates.
pub proof fn law_library_copies_are_kept(
    cs: Seq<MatchView>,
    dest: Seq<char>,
    used: Option<Seq<char>>,
    inp: LooseInputsView,
    path: Seq<char>,
)
    requires
        surplus(cs, dest, used, inp).contains(path),
    ensures
        path != dest,
        used != Some(path),
        !source_policy::in_library(path, inp.default_dest, inp.dest_root),
{
    let may_go = |c: MatchView| droppable(c, dest, used, inp);
    let x = cs.filter(may_go).map_values(|c: MatchView| types::held_at(c));
    seqs::lemma_distinct(x);
    assert(x.contains(path));
    let i = choose|i: int| 0 <= i < x.len() && x[i] == path;
    seqs::lemma_filter_members(cs, may_go);
    assert(cs.filter(may_go).contains(cs.filter(may_go)[i]));
}

/// Whether an operation puts one held copy, whole, into place: it reads the file
/// that holds the copy, the entry in it where the copy is one, and states the copy's
/// SHA1 and size; only a file of its own is moved.
pub open spec fn puts_copy(kind: KindView, m: MatchView, dest: Seq<char>) -> bool {
    match kind {
        KindView::Copy { source, dest: to, size, placement } => {
            &&& source.path == m.source_root + "/"@ + m.source_path
            &&& source.archive_path == m.archive_path
            &&& source.sha1 == m.sha1
            &&& source.entry_name is None
            &&& to == dest
            &&& size == m.size as u64
            &&& placement is LooseFile
        },
        KindView::Move { source, dest: to, size, placement } => {
            &&& source.path == m.source_root + "/"@ + m.source_path
            &&& source.archive_path is None
            &&& m.archive_path is None
            &&& source.sha1 == m.sha1
            &&& source.entry_name is None
            &&& to == dest
            &&& size == m.size as u64
            &&& placement is LooseFile
        },
        _ => false,
    }
}

/// Whether an operation deletes a file that holds a copy, and nothing but that copy.
pub open spec fn drops_copy(kind: KindView, m: MatchView) -> bool {
    kind matches KindView::Delete { path, reason: _, rebuild } && path == m.source_root + "/"@
        + m.source_path && rebuild is None && m.archive_path is None
}

/// Whether an operation is about one of some matches: it puts that copy where the
/// ROM belongs, or deletes it.
pub open spec fn about_a_match(
    kind: KindView,
    layout: Layout,
    ms: Seq<MatchView>,
    inp: LooseInputsView,
) -> bool {
    exists|j: int|
        0 <= j < ms.len() && ({
            let m = #[trigger] ms[j];
            match dest_for(layout, ms, (m.game_name, m.rom_name, m.sha1), inp.dest_root) {
                Ok(dest) => puts_copy(kind, m, dest) || (drops_copy(kind, m) && m.source_root
                    + "/"@ + m.source_path != dest),
                Err(_) => false,
            }
        })
}

proof fn lemma_copies_members(ms: Seq<MatchView>, id: (Seq<char>, Seq<char>, Seq<char>), i: int)
    requires
        0 <= i < copies(ms, id).len(),
    ensures
        ms.contains(copies(ms, id)[i]),
        copies(ms, id)[i].game_name == id.0,
        copies(ms, id)[i].rom_name == id.1,
        copies(ms, id)[i].sha1 == id.2,
{
    let f = |m: MatchView| rom_id(m) == id;
    seqs::lemma_filter_members(ms, f);
    assert(copies(ms, id).contains(copies(ms, id)[i]));
}

proof fn lemma_copy_plan_kinds(
    layout: Layout,
    ms: Seq<MatchView>,
    id: (Seq<char>, Seq<char>, Seq<char>),
    dest: Seq<char>,
    shared: bool,
    inp: LooseInputsView,
)
    requires
        copies(ms, id).len() > 0,
        dest_for(layout, ms, id, inp.dest_root) == Ok::<Seq<char>, PathErrorView>(dest),
    ensures
        ({
            let p = copy_plan(copies(ms, id), dest, shared, inp);
            forall|i: int|
                0 <= i < p.kinds.len() ==> about_a_match(#[trigger] p.kinds[i], layout, ms, inp)
        }),
{
    let cs = copies(ms, id);
    let p = copy_plan(cs, dest, shared, inp);
    let placed = in_place(cs, dest);
    let used = if placed {
        None
    } else {
        Some(types::held_at(cs[0]))
    };
    let gone = if shared {
        Seq::empty()
    } else {
        surplus(cs, dest, used, inp)
    };
    let n: int = if placed {
        0
    } else {
        1
    };
    assert forall|i: int| 0 <= i < p.kinds.len() implies about_a_match(
        #[trigger] p.kinds[i],
        layout,
        ms,
        inp,
    ) by {
        if i < n {
            lemma_copies_members(ms, id, 0);
            let j = choose|j: int| 0 <= j < ms.len() && ms[j] == cs[0];
            assert(p.kinds[i] == place_kind(cs[0], dest, shared, inp));
            assert(puts_copy(p.kinds[i], ms[j], dest));
        } else {
            let path = gone[i - n];
            assert(p.kinds[i] == archive_planning::delete_kinds(gone, dest)[i - n]);
            let may_go = |c: MatchView| droppable(c, dest, used, inp);
            let kept = cs.filter(may_go);
            let x = kept.map_values(|c: MatchView| types::held_at(c));
            seqs::lemma_distinct(x);
            assert(gone.contains(path));
            assert(x.contains(path));
            let k = choose|k: int| 0 <= k < x.len() && x[k] == path;
            seqs::lemma_filter_members(cs, may_go);
            assert(kept.contains(kept[k]));
            let c = choose|c: int| 0 <= c < cs.len() && cs[c] == kept[k];
            lemma_copies_members(ms, id, c);
            let j = choose|j: int| 0 <= j < ms.len() && ms[j] == cs[c];
            assert(drops_copy(p.kinds[i], ms[j]));
        }
    }
}

proof fn lemma_wanted_has_copies(ms: Seq<MatchView>, id: (Seq<char>, Seq<char>, Seq<char>))
    ensures
        wanted(ms).contains(id) <==> copies(ms, id).len() > 0,
{
    let ids = ms.map_values(|m: MatchView| rom_id(m));
    seqs::lemma_distinct(ids);
    let f = |m: MatchView| rom_id(m) == id;
    seqs::lemma_filter_members(ms, f);
    if wanted(ms).contains(id) {
        assert(ids.contains(id));
        let i = choose|i: int| 0 <= i < ids.len() && ids[i] == id;
        assert(ms.contains(ms[i]));
        assert(copies(ms, id).contains(ms[i]));
    }
    if copies(ms, id).len() > 0 {
        assert(copies(ms, id).contains(copies(ms, id)[0]));
        let i = choose|i: int| 0 <= i < ms.len() && ms[i] == copies(ms, id)[0];
        assert(ids[i] == id);
        assert(ids.contains(id));
    }
}

proof fn lemma_roms_plan_kinds(
    layout: Layout,
    ms: Seq<MatchView>,
    ids: Seq<(Seq<char>, Seq<char>, Seq<char>)>,
    inp: LooseInputsView,
)
    requires
        forall|i: int| 0 <= i < ids.len() ==> copies(ms, #[trigger] ids[i]).len() > 0,
    ensures
        roms_plan(layout, ms, ids, inp) matches Ok(p) ==> forall|i: int|
            0 <= i < p.kinds.len() ==> about_a_match(#[trigger] p.kinds[i], layout, ms, inp),
    decreases ids.len(),
{
    if ids.len() > 0 && roms_plan(layout, ms, ids, inp) is Ok {
        let rest = ids.drop_last();
        let id = ids.last();
        assert(ids[ids.len() - 1] == id);
        assert forall|i: int| 0 <= i < rest.len() implies copies(ms, #[trigger] rest[i]).len()
            > 0 by {
            assert(rest[i] == ids[i]);
        }
        lemma_roms_plan_kinds(layout, ms, rest, inp);
        let before = roms_plan(layout, ms, rest, inp)->Ok_0;
        let dest = dest_for(layout, ms, id, inp.dest_root)->Ok_0;
        lemma_copy_plan_kinds(layout, ms, id, dest, inp.shared.contains(id.2), inp);
        let more = copy_plan(copies(ms, id), dest, inp.shared.contains(id.2), inp);
        let p = roms_plan(layout, ms, ids, inp)->Ok_0;
        assert forall|i: int| 0 <= i < p.kinds.len() implies about_a_match(
            #[trigger] p.kinds[i],
            layout,
            ms,
            inp,
        ) by {
            if i < before.kinds.len() {
                assert(p.kinds[i] == before.kinds[i]);
            } else {
                assert(p.kinds[i] == more.kinds[i - before.kinds.len()]);
            }
        }
    }
}

/// Whatever is planned for loose storage is about held copies. A copy or move reads
/// one match whole: its file, its entry where the file is an archive, with the SHA1
/// and size of that same match; and it goes where that match's ROM belongs. A delete
/// takes a file that is such a copy, never an archive and never the destination.
/// Nothing else is planned.
pub proof fn law_operations_read_held_copies_whole(
    layout: Layout,
    ms: Seq<MatchView>,
    inp: LooseInputsView,
)
    ensures
        loose_plan(layout, ms, inp) matches Ok(p) ==> forall|i: int|
            0 <= i < p.kinds.len() ==> about_a_match(#[trigger] p.kinds[i], layout, ms, inp),
{
    assert forall|i: int| 0 <= i < wanted(ms).len() implies copies(
        ms,
        #[trigger] wanted(ms)[i],
    ).len() > 0 by {
        assert(wanted(ms).contains(wanted(ms)[i]));
        lemma_wanted_has_copies(ms, wanted(ms)[i]);
    }
    lemma_roms_plan_kinds(layout, ms, wanted(ms), inp);
}

/// Whether a ROM is at a place already: a copy of it is a file there.
pub open spec fn lies_at(ms: Seq<MatchView>, m: MatchView, dest: Seq<char>) -> bool {
    exists|k: int|
        0 <= k < ms.len() && (#[trigger] ms[k]).game_name == m.game_name && ms[k].rom_name
            == m.rom_name && ms[k].sha1 == m.sha1 && ms[k].archive_path is None
            && ms[k].source_root + "/"@ + ms[k].source_path == dest
}

/// Whether an operation of a list puts content with a SHA1 at a place.
pub open spec fn put_by_one(kinds: Seq<KindView>, sha1: Seq<char>, dest: Seq<char>) -> bool {
    exists|i: int|
        0 <= i < kinds.len() && match #[trigger] kinds[i] {
            KindView::Copy { source, dest: to, .. } => source.sha1 == sha1 && to == dest,
            KindView::Move { source, dest: to, .. } => source.sha1 == sha1 && to == dest,
            _ => false,
        }
}

proof fn lemma_put_joins(a: Seq<KindView>, b: Seq<KindView>, sha1: Seq<char>, dest: Seq<char>)
    ensures
        put_by_one(a, sha1, dest) ==> put_by_one(a + b, sha1, dest),
        put_by_one(b, sha1, dest) ==> put_by_one(a + b, sha1, dest),
{
    if put_by_one(a, sha1, dest) {
        let i = choose|i: int|
            0 <= i < a.len() && match #[trigger] a[i] {
                KindView::Copy { source, dest: to, .. } => source.sha1 == sha1 && to == dest,
                KindView::Move { source, dest: to, .. } => source.sha1 == sha1 && to == dest,
                _ => false,
            };
        assert((a + b)[i] == a[i]);
    }
    if put_by_one(b, sha1, dest) {
        let i = choose|i: int|
            0 <= i < b.len() && match #[trigger] b[i] {
                KindView::Copy { source, dest: to, .. } => source.sha1 == sha1 && to == dest,
                KindView::Move { source, dest: to, .. } => source.sha1 == sha1 && to == dest,
                _ => false,
            };
        assert((a + b)[a.len() + i] == b[i]);
    }
}

proof fn lemma_rom_is_put(
    layout: Layout,
    ms: Seq<MatchView>,
    ids: Seq<(Seq<char>, Seq<char>, Seq<char>)>,
    inp: LooseInputsView,
    m: MatchView,
)
    requires
        ms.contains(m),
        ids.contains((m.game_name, m.rom_name, m.sha1)),
    ensures
        roms_plan(layout, ms, ids, inp) matches Ok(p) ==> (dest_for(
            layout,
            ms,
            (m.game_name, m.rom_name, m.sha1),
            inp.dest_root,
        ) matches Ok(dest) && (lies_at(ms, m, dest) || put_by_one(p.kinds, m.sha1, dest))),
    decreases ids.len(),
{
    if roms_plan(layout, ms, ids, inp) is Ok {
        let id = (m.game_name, m.rom_name, m.sha1);
        let rest = ids.drop_last();
        let last = ids.last();
        let before = roms_plan(layout, ms, rest, inp)->Ok_0;
        let to = dest_for(layout, ms, last, inp.dest_root)->Ok_0;
        let shared = inp.shared.contains(last.2);
        let cs = copies(ms, last);
        let more = copy_plan(cs, to, shared, inp);
        let p = roms_plan(layout, ms, ids, inp)->Ok_0;
        if rest.contains(id) {
            lemma_rom_is_put(layout, ms, rest, inp, m);
            let dest = dest_for(layout, ms, id, inp.dest_root)->Ok_0;
            lemma_put_joins(before.kinds, more.kinds, m.sha1, dest);
        } else {
            let k = choose|k: int| 0 <= k < ids.len() && ids[k] == id;
            if k < rest.len() {
                assert(rest[k] == id);
            }
            assert(last == id);
            let f = |c: MatchView| rom_id(c) == id;
            seqs::lemma_filter_members(ms, f);
            assert(cs.contains(m));
            if in_place(cs, to) {
                let i = choose|i: int| 0 <= i < cs.len() && loose_at(#[trigger] cs[i], to);
                lemma_copies_members(ms, id, i);
                let j = choose|j: int| 0 <= j < ms.len() && ms[j] == cs[i];
                assert(ms[j].game_name == m.game_name);
                assert(lies_at(ms, m, to));
            } else {
                lemma_copies_members(ms, id, 0);
                assert(more.kinds[0] == place_kind(cs[0], to, shared, inp));
                assert(put_by_one(more.kinds, m.sha1, to));
                lemma_put_joins(before.kinds, more.kinds, m.sha1, to);
            }
        }
    }
}

/// Every matched ROM ends up where it belongs: a copy of it is a file there already,
/// or one is copied or moved there.
pub proof fn law_every_rom_is_placed(
    layout: Layout,
    ms: Seq<MatchView>,
    inp: LooseInputsView,
    m: MatchView,
)
    requires
        ms.contains(m),
    ensures
        loose_plan(layout, ms, inp) matches Ok(p) ==> (dest_for(
            layout,
            ms,
            (m.game_name, m.rom_name, m.sha1),
            inp.dest_root,
        ) matches Ok(dest) && (lies_at(ms, m, dest) || put_by_one(p.kinds, m.sha1, dest))),
{
    let id = (m.game_name, m.rom_name, m.sha1);
    let f = |c: MatchView| rom_id(c) == id;
    seqs::lemma_filter_members(ms, f);
    assert(copies(ms, id).contains(m));
    lemma_wanted_has_copies(ms, id);
    lemma_rom_is_put(layout, ms, wanted(ms), inp, m);
}

/// A ROM that is not in place is put there once, out of the first copy met: moved
/// exactly where that copy is a file of its own, its content belongs nowhere else and
/// its source lets it go, else copied.
pub proof fn law_moved_exactly_where_it_may_leave(
    cs: Seq<MatchView>,
    dest: Seq<char>,
    shared: bool,
    inp: LooseInputsView,
)
    requires
        cs.len() > 0,
        forall|i: int|
            0 <= i < cs.len() ==> !((#[trigger] cs[i]).archive_path is None && cs[i].source_root
                + "/"@ + cs[i].source_path == dest),
    ensures
        ({
            let p = copy_plan(cs, dest, shared, inp);
            let goes = cs[0].archive_path is None && !shared && source_policy::may_leave(
                inp.dispositions,
                cs[0].source_root,
                dest,
            );
            &&& p.kinds.len() > 0
            &&& puts_copy(p.kinds[0], cs[0], dest)
            &&& p.kinds[0] is Move <==> goes
            &&& p.kinds[0] is Copy <==> !goes
            &&& forall|i: int| 0 < i < p.kinds.len() ==> (#[trigger] p.kinds[i]) is Delete
        }),
{
}

/// Duplicates go: a file that holds a copy of content that belongs nowhere else, is
/// not where the ROM belongs, not in the library, and in a source that lets it go,
/// does not stay. It is deleted, or moved into place.
pub proof fn law_duplicates_do_not_stay(
    cs: Seq<MatchView>,
    dest: Seq<char>,
    inp: LooseInputsView,
    i: int,
)
    requires
        0 <= i < cs.len(),
        cs[i].archive_path is None,
        types::held_at(cs[i]) != dest,
        !source_policy::in_library(types::held_at(cs[i]), inp.default_dest, inp.dest_root),
        source_policy::may_leave(inp.dispositions, cs[i].source_root, dest),
        cs[0].archive_path is Some ==> types::held_at(cs[0]) != types::held_at(cs[i]),
        types::held_at(cs[0]) == types::held_at(cs[i]) ==> cs[0].source_root == cs[i].source_root,
    ensures
        exists|k: int|
            0 <= k < copy_plan(cs, dest, false, inp).kinds.len() && match #[trigger] copy_plan(
                cs,
                dest,
                false,
                inp,
            ).kinds[k] {
                KindView::Delete { path, .. } => path == types::held_at(cs[i]),
                KindView::Move { source, .. } => source.path == types::held_at(cs[i]),
                _ => false,
            },
{
    let p = copy_plan(cs, dest, false, inp);
    let placed = in_place(cs, dest);
    let used = if placed {
        None
    } else {
        Some(types::held_at(cs[0]))
    };
    let gone = surplus(cs, dest, used, inp);
    let path = types::held_at(cs[i]);
    if used == Some(path) {
        assert(p.kinds[0] == place_kind(cs[0], dest, false, inp));
        assert(p.kinds[0] is Move);
    } else {
        let may_go = |c: MatchView| droppable(c, dest, used, inp);
        let kept = cs.filter(may_go);
        let x = kept.map_values(|c: MatchView| types::held_at(c));
        seqs::lemma_filter_members(cs, may_go);
        assert(cs.contains(cs[i]));
        assert(kept.contains(cs[i]));
        let a = choose|a: int| 0 <= a < kept.len() && kept[a] == cs[i];
        assert(x[a] == path);
        seqs::lemma_distinct(x);
        assert(x.contains(path));
        assert(gone.contains(path));
        let b = choose|b: int| 0 <= b < gone.len() && gone[b] == path;
        let n: int = if placed {
            0
        } else {
            1
        };
        assert(p.kinds[n + b] == archive_planning::delete_kinds(gone, dest)[b]);
        assert(p.kinds[n + b] is Delete);
    }
}

/// A ROM of a game with one ROM lies flat below the collection's root; one of a game
/// with several lies in the game's folder, however many copies of each are held; a
/// disk image always does.
pub proof fn law_single_roms_lie_flat(
    ms: Seq<MatchView>,
    id: (Seq<char>, Seq<char>, Seq<char>),
    dest_root: Seq<char>,
)
    requires
        dest_root.len() > 0 && dest_root.last() != '/',
        id.0.len() > 0 && id.0.last() != '/',
    ensures
        dest_for(Layout::Loose, ms, id, dest_root) matches Ok(out) ==> out == if exists|
            i: int,
            j: int,
        |
            0 <= i < ms.len() && 0 <= j < ms.len() && (#[trigger] ms[i]).game_name == id.0 && (
            #[trigger] ms[j]).game_name == id.0 && ms[i].rom_name != ms[j].rom_name {
            dest_root + "/"@ + id.0 + "/"@ + id.1
        } else {
            dest_root + "/"@ + id.1
        },
        dest_for(Layout::Disk, ms, id, dest_root) matches Ok(out) ==> out == dest_root + "/"@ + id.0
            + "/"@ + id.1 + ".chd"@,
{
    destinations::law_destinations_are_named_after_game_and_rom(
        dest_root,
        id.0,
        id.1,
        Seq::empty(),
    );
    if exists|i: int, j: int|
        0 <= i < ms.len() && 0 <= j < ms.len() && (#[trigger] ms[i]).game_name == id.0 && (
        #[trigger] ms[j]).game_name == id.0 && ms[i].rom_name != ms[j].rom_name {
        let (i, j) = choose|i: int, j: int|
            0 <= i < ms.len() && 0 <= j < ms.len() && (#[trigger] ms[i]).game_name == id.0 && (
            #[trigger] ms[j]).game_name == id.0 && ms[i].rom_name != ms[j].rom_name;
        assert(differ(ms, id.0, i, j));
    } else if several(ms, id.0) {
        let (i, j) = choose|i: int, j: int| #[trigger] differ(ms, id.0, i, j);
        assert(ms[i].game_name == id.0 && ms[j].game_name == id.0);
    }
}

proof fn lemma_copy_counted(
    cs: Seq<MatchView>,
    dest: Seq<char>,
    shared: bool,
    inp: LooseInputsView,
)
    ensures
        copy_plan(cs, dest, shared, inp).kinds.len() <= usize::MAX ==> archive_planning::counted(
            copy_plan(cs, dest, shared, inp),
        ),
{
    let p = copy_plan(cs, dest, shared, inp);
    let placed = in_place(cs, dest);
    let used = if placed {
        None
    } else {
        Some(types::held_at(cs[0]))
    };
    let gone = if shared {
        Seq::empty()
    } else {
        surplus(cs, dest, used, inp)
    };
    let first = if placed {
        Seq::empty()
    } else {
        seq![place_kind(cs[0], dest, shared, inp)]
    };
    let ds = archive_planning::delete_kinds(gone, dest);
    let w = |k: KindView| k is Copy || k is Move || k is Repack;
    let r = |k: KindView| k is Relocate;
    let d = |k: KindView| k is Delete;
    reveal_with_fuel(Seq::filter, 2);
    if !placed {
        assert(first.drop_last() =~= Seq::empty());
    }
    archive_planning::lemma_deletes_filtered(gone, dest);
    Seq::filter_distributes_over_add(first, ds, w);
    Seq::filter_distributes_over_add(first, ds, r);
    Seq::filter_distributes_over_add(first, ds, d);
    archive_planning::lemma_placed_bytes(first, ds);
    archive_planning::lemma_placed_bytes(Seq::empty(), first);
}

proof fn lemma_roms_counted(
    layout: Layout,
    ms: Seq<MatchView>,
    ids: Seq<(Seq<char>, Seq<char>, Seq<char>)>,
    inp: LooseInputsView,
)
    ensures
        roms_plan(layout, ms, ids, inp) matches Ok(p) ==> p.kinds.len() <= usize::MAX
            ==> archive_planning::counted(p),
    decreases ids.len(),
{
    if ids.len() == 0 {
        reveal_with_fuel(Seq::filter, 2);
        archive_planning::lemma_placed_bytes(Seq::empty(), Seq::empty());
    } else if roms_plan(layout, ms, ids, inp) is Ok && roms_plan(
        layout,
        ms,
        ids,
        inp,
    )->Ok_0.kinds.len() <= usize::MAX {
        let rest = ids.drop_last();
        let id = ids.last();
        let dest = dest_for(layout, ms, id, inp.dest_root)->Ok_0;
        let shared = inp.shared.contains(id.2);
        lemma_roms_counted(layout, ms, rest, inp);
        lemma_copy_counted(copies(ms, id), dest, shared, inp);
        archive_planning::lemma_counted_joins(
            roms_plan(layout, ms, rest, inp)->Ok_0,
            copy_plan(copies(ms, id), dest, shared, inp),
        );
    }
}

/// The counts of a plan for loose storage are those of the operations planned.
pub proof fn law_loose_counts_are_of_the_operations(
    layout: Layout,
    ms: Seq<MatchView>,
    inp: LooseInputsView,
)
    ensures
        loose_plan(layout, ms, inp) matches Ok(p) ==> p.kinds.len() <= usize::MAX
            ==> archive_planning::counted(p),
{
    lemma_roms_counted(layout, ms, wanted(ms), inp);
}

/// The games that have more than one ROM.
pub fn multi_rom_games(matches: &Vec<MatchedRom>) -> (r: SortedSet<String>)
    ensures
        forall|g: Seq<char>| #[trigger] r@.contains(g) <==> several(matches.deep_view(), g),
{
    let ghost ms = matches.deep_view();
    let mut first: SortedMap<String, usize> = SortedMap::new();
    let mut multi: SortedSet<String> = SortedSet::new();
    let mut i: usize = 0;
    while i < matches.len()
        invariant
            i <= matches@.len(),
            ms == matches.deep_view(),
            forall|g: Seq<char>| #[trigger]
                first@.contains_key(g) ==> first@[g] < i && ms[first@[g] as int].game_name == g,
            forall|j: int| 0 <= j < i ==> first@.contains_key((#[trigger] ms[j]).game_name),
            forall|g: Seq<char>| #[trigger]
                multi@.contains(g) <==> several(ms.take(i as int), g),
        decreases matches@.len() - i,
    {
        let m = &matches[i];
        let ghost t = ms.take(i as int);
        let ghost u = ms.take(i + 1);
        let ghost v = m.deep_view();
        let ghost g0 = v.game_name;
        let ghost f0 = first@;
        let ghost m0 = multi@;
        match first.get(&m.game_name) {
            None => {
                first.insert(m.game_name.clone(), i);
                proof {
                    assert forall|g: Seq<char>| several(u, g) == several(t, g) by {
                        lemma_several_grows(ms, i as int, g);
                        if several(u, g) && !several(t, g) {
                            let (a, b) = choose|a: int, b: int| #[trigger] differ(u, g, a, b);
                            if a == i || b == i {
                                let other = if a == i {
                                    b
                                } else {
                                    a
                                };
                                assert(g == g0);
                                assert(f0.contains_key(ms[other].game_name));
                            } else {
                                assert(differ(t, g, a, b));
                            }
                        }
                    }
                }
            },
            Some(j) => {
                let j: usize = *j;
                let same = text::str_eq(matches[j].rom_name.as_str(), m.rom_name.as_str());
                if !same {
                    multi.insert(m.game_name.clone());
                }
                proof {
                    assert forall|g: Seq<char>| several(u, g) == (several(t, g) || (!same && g
                        == g0)) by {
                        lemma_several_grows(ms, i as int, g);
                        if !same && g == g0 {
                            assert(differ(u, g, j as int, i as int));
                        }
                        if several(u, g) && !several(t, g) {
                            let (a, b) = choose|a: int, b: int| #[trigger] differ(u, g, a, b);
                            if a == i || b == i {
                                let other = if a == i {
                                    b
                                } else {
                                    a
                                };
                                assert(g == g0);
                                if same {
                                    assert(differ(t, g, j as int, other));
                                }
                            } else {
                                assert(differ(t, g, a, b));
                            }
                        }
                    }
                }
            },
        }
        i = i + 1;
    }
    proof {
        assert(ms.take(i as int) =~= ms);
    }
    multi
}

proof fn lemma_several_grows(ms: Seq<MatchView>, i: int, g: Seq<char>)
    requires
        0 <= i < ms.len(),
    ensures
        several(ms.take(i), g) ==> several(ms.take(i + 1), g),
{
    if several(ms.take(i), g) {
        let (a, b) = choose|a: int, b: int| #[trigger] differ(ms.take(i), g, a, b);
        assert(differ(ms.take(i + 1), g, a, b));
    }
}

/// The matches at some positions.
spec fn at_positions(ms: Seq<MatchView>, positions: Seq<usize>) -> Seq<MatchView> {
    Seq::new(positions.len(), |k: int| ms[positions[k] as int])
}

/// Whether positions lead to the copies of a ROM.
spec fn positions_fit(
    map: Map<(Seq<char>, Seq<char>, Seq<char>), Vec<usize>>,
    ms: Seq<MatchView>,
    n: int,
) -> bool {
    forall|id: (Seq<char>, Seq<char>, Seq<char>)| #[trigger]
        map.contains_key(id) ==> at_positions(ms, map[id]@) == copies(ms.take(n), id) && forall|
            k: int,
        |
            0 <= k < map[id]@.len() ==> (#[trigger] map[id]@[k]) < n
}

/// The plan for one ROM whose copies stand at the given positions.
fn plan_copies(
    matches: &Vec<MatchedRom>,
    positions: &Vec<usize>,
    dest: &str,
    shared: bool,
    inputs: &LoosePlanInputs,
) -> (r: PlacementPlan)
    requires
        positions@.len() > 0,
        forall|k: int| 0 <= k < positions@.len() ==> (#[trigger] positions@[k]) < matches@.len(),
    ensures
        r.deep_view() == copy_plan(
            at_positions(matches.deep_view(), positions@),
            dest@,
            shared,
            inputs.deep_view(),
        ),
{
    let ghost cs = at_positions(matches.deep_view(), positions@);
    let ghost inp = inputs.deep_view();
    let mut placed = false;
    let mut i: usize = 0;
    while i < positions.len()
        invariant
            i <= positions@.len(),
            cs == at_positions(matches.deep_view(), positions@),
            forall|k: int|
                0 <= k < positions@.len() ==> (#[trigger] positions@[k]) < matches@.len(),
            placed == (exists|k: int| 0 <= k < i && loose_at(#[trigger] cs[k], dest@)),
        decreases positions@.len() - i,
    {
        let p: usize = positions[i];
        let c = &matches[p];
        proof {
            assert(cs[i as int] == c.deep_view());
        }
        if c.archive_path.is_none() {
            let at = c.location();
            if text::str_eq(at.as_str(), dest) {
                proof {
                    assert(loose_at(cs[i as int], dest@));
                }
                placed = true;
            }
        }
        i = i + 1;
    }
    let mut kinds: Vec<OperationKind> = Vec::new();
    let mut used: Option<String> = None;
    let mut bytes: u64 = 0;
    if !placed {
        let p: usize = positions[0];
        let c = &matches[p];
        proof {
            assert(cs[0] == c.deep_view());
        }
        let at = c.location();
        let source = SourceRef {
            path: c.location(),
            archive_path: text::clone_opt(&c.archive_path),
            sha1: c.sha1.clone(),
            entry_name: None,
        };
        bytes = c.size as u64;
        if c.archive_path.is_none() && !shared && may_move(
            inputs.dispositions,
            c.source_root.as_str(),
            dest,
        ) {
            kinds.push(
                OperationKind::Move {
                    source,
                    dest: dest.to_owned(),
                    size: bytes,
                    placement: CopyPlacement::LooseFile,
                },
            );
        } else {
            kinds.push(
                OperationKind::Copy {
                    source,
                    dest: dest.to_owned(),
                    size: bytes,
                    placement: CopyPlacement::LooseFile,
                },
            );
        }
        used = Some(at);
        proof {
            assert(kinds.deep_view() =~= seq![place_kind(cs[0], dest@, shared, inp)]);
        }
    } else {
        proof {
            assert(kinds.deep_view() =~= Seq::<KindView>::empty());
        }
    }
    let ghost first = kinds.deep_view();
    let ghost used_view = used.deep_view();
    let mut deduped: usize = 0;
    if !shared {
        let gone = surplus_paths(matches, positions, dest, &used, inputs);
        let ghost paths = gone.deep_view();
        let ghost deletes = archive_planning::delete_kinds(paths, dest@);
        let mut k: usize = 0;
        proof {
            assert(first + deletes.take(0) =~= first);
        }
        while k < gone.len()
            invariant
                k <= gone@.len(),
                paths == gone.deep_view(),
                deletes == archive_planning::delete_kinds(paths, dest@),
                kinds.deep_view() == first + deletes.take(k as int),
            decreases gone@.len() - k,
        {
            let ghost had = kinds.deep_view();
            kinds.push(
                OperationKind::Delete {
                    path: gone[k].clone(),
                    reason: dedup_reason(dest),
                    rebuild: None,
                },
            );
            k = k + 1;
            proof {
                assert(paths[k - 1] == gone@[k - 1]@);
                assert(kinds.deep_view() =~= had.push(deletes[k - 1]));
                assert(first + deletes.take(k as int) =~= (first + deletes.take(k - 1)).push(
                    deletes[k - 1],
                ));
            }
        }
        deduped = gone.len();
        proof {
            assert(deletes.take(k as int) =~= deletes);
            assert(paths.len() == gone@.len());
        }
    } else {
        proof {
            assert(archive_planning::delete_kinds(Seq::<Seq<char>>::empty(), dest@)
                =~= Seq::<KindView>::empty());
            assert(first + Seq::<KindView>::empty() =~= first);
        }
    }
    let counts = PlacementPlanCounts {
        already_correct: if placed {
            1
        } else {
            0
        },
        to_write: if placed {
            0
        } else {
            1
        },
        relocated: 0,
        deduped,
        bytes,
    };
    let r = PlacementPlan { kinds, counts, drains: Vec::new() };
    proof {
        assert(in_place(cs, dest@) == placed);
        assert(r.drains.deep_view() =~= Seq::empty());
        assert(r.deep_view() =~= copy_plan(cs, dest@, shared, inp));
    }
    r
}

fn surplus_paths(
    matches: &Vec<MatchedRom>,
    positions: &Vec<usize>,
    dest: &str,
    used: &Option<String>,
    inputs: &LoosePlanInputs,
) -> (r: Vec<String>)
    requires
        forall|k: int| 0 <= k < positions@.len() ==> (#[trigger] positions@[k]) < matches@.len(),
    ensures
        r.deep_view() == surplus(
            at_positions(matches.deep_view(), positions@),
            dest@,
            used.deep_view(),
            inputs.deep_view(),
        ),
{
    let ghost cs = at_positions(matches.deep_view(), positions@);
    let ghost inp = inputs.deep_view();
    let ghost may_go = |c: MatchView| droppable(c, dest@, used.deep_view(), inp);
    let ghost at = |c: MatchView| types::held_at(c);
    let mut out: Vec<String> = Vec::new();
    let mut seen: SortedSet<String> = SortedSet::new();
    let mut i: usize = 0;
    proof {
        reveal(Seq::filter);
        assert(cs.take(0).filter(may_go).map_values(at) =~= Seq::<Seq<char>>::empty());
        assert(out.deep_view() =~= seqs::distinct(cs.take(0).filter(may_go).map_values(at)));
    }
    while i < positions.len()
        invariant
            i <= positions@.len(),
            cs == at_positions(matches.deep_view(), positions@),
            inp == inputs.deep_view(),
            may_go == (|c: MatchView| droppable(c, dest@, used.deep_view(), inp)),
            at == (|c: MatchView| types::held_at(c)),
            forall|k: int|
                0 <= k < positions@.len() ==> (#[trigger] positions@[k]) < matches@.len(),
            out.deep_view() == seqs::distinct(cs.take(i as int).filter(may_go).map_values(at)),
            forall|p: Seq<char>| #[trigger]
                seen@.contains(p) <==> cs.take(i as int).filter(may_go).map_values(at).contains(
                    p,
                ),
        decreases positions@.len() - i,
    {
        let q: usize = positions[i];
        let c = &matches[q];
        let ghost x = cs.take(i as int).filter(may_go).map_values(at);
        let ghost y = cs.take(i + 1).filter(may_go).map_values(at);
        let ghost s0 = seen@;
        proof {
            assert(cs[i as int] == c.deep_view());
            assert(cs.take(i + 1).drop_last() =~= cs.take(i as int));
            reveal_with_fuel(Seq::filter, 2);
        }
        let path = c.location();
        let is_used = match used {
            Some(u) => text::str_eq(u.as_str(), path.as_str()),
            None => false,
        };
        let goes = c.archive_path.is_none() && !text::str_eq(path.as_str(), dest) && !is_used
            && !is_in_library(path.as_str(), inputs.default_dest, inputs.dest_root) && may_delete(
            inputs.dispositions,
            c.source_root.as_str(),
            dest,
        );
        let ghost pv = path@;
        if goes {
            proof {
                assert(y =~= x.push(pv));
                assert(x.push(pv).drop_last() =~= x);
            }
            if !seen.contains(path.as_str()) {
                let ghost before = out.deep_view();
                seen.insert(path.clone());
                out.push(path);
                proof {
                    assert(out.deep_view() =~= before.push(pv));
                }
            }
            proof {
                assert forall|p: Seq<char>| #[trigger] seen@.contains(p) <==> y.contains(p) by {
                    assert(s0.contains(p) <==> x.contains(p));
                    if x.contains(p) {
                        let j = choose|j: int| 0 <= j < x.len() && x[j] == p;
                        assert(y[j] == p);
                    }
                    if y.contains(p) {
                        let j = choose|j: int| 0 <= j < y.len() && y[j] == p;
                        if j < x.len() {
                            assert(x[j] == p);
                        }
                    }
                    assert(y[x.len() as int] == pv);
                }
            }
        } else {
            proof {
                assert(y =~= x);
            }
        }
        i = i + 1;
    }
    proof {
        assert(cs.take(i as int) =~= cs);
    }
    out
}

fn plan_layout(layout: Layout, matches: &Vec<MatchedRom>, inputs: &LoosePlanInputs) -> (r: Result<
    PlacementPlan,
    PlanError,
>)
    ensures
        archive_planning::agrees(
            r,
            loose_plan(layout, matches.deep_view(), inputs.deep_view()),
        ),
{
    let ghost ms = matches.deep_view();
    let ghost inp = inputs.deep_view();
    let ghost ids_of = |m: MatchView| rom_id(m);
    let mut ids: Vec<RomId> = Vec::new();
    let mut index: SortedMap<RomId, Vec<usize>> = SortedMap::new();
    let mut i: usize = 0;
    proof {
        assert(ms.take(0).map_values(ids_of) =~= Seq::empty());
        assert(ids.deep_view() =~= wanted(ms.take(0)));
    }
    while i < matches.len()
        invariant
            i <= matches@.len(),
            ms == matches.deep_view(),
            ids_of == (|m: MatchView| rom_id(m)),
            ids.deep_view() == wanted(ms.take(i as int)),
            forall|id: (Seq<char>, Seq<char>, Seq<char>)| #[trigger]
                index@.contains_key(id) <==> ms.take(i as int).map_values(ids_of).contains(id),
            positions_fit(index@, ms, i as int),
        decreases matches@.len() - i,
    {
        let m = &matches[i];
        let ghost t = ms.take(i as int);
        let ghost v = m.deep_view();
        let ghost id0 = rom_id(v);
        let ghost x = t.map_values(ids_of);
        let ghost y = ms.take(i + 1).map_values(ids_of);
        let ghost index0 = index@;
        let id: RomId = (m.game_name.clone(), m.rom_name.clone(), m.sha1.clone());
        proof {
            assert(ms.take(i + 1) =~= t.push(v));
            assert(y =~= x.push(id0));
            assert(x.push(id0).drop_last() =~= x);
            assert(t.push(v).drop_last() =~= t);
        }
        let mut list: Vec<usize> = match index.remove(&id) {
            Some(list) => list,
            None => {
                let ghost before = ids.deep_view();
                ids.push((m.game_name.clone(), m.rom_name.clone(), m.sha1.clone()));
                proof {
                    assert(ids.deep_view() =~= before.push(id0));
                }
                Vec::new()
            },
        };
        let ghost had = list@;
        proof {
            if !index0.contains_key(id0) {
                lemma_no_copies(t, id0);
                assert(at_positions(ms, had) =~= copies(t, id0));
            }
        }
        list.push(i);
        proof {
            assert(at_positions(ms, list@) =~= at_positions(ms, had).push(v));
        }
        index.insert(id, list);
        proof {
            assert forall|q: (Seq<char>, Seq<char>, Seq<char>)| #[trigger]
                index@.contains_key(q) <==> y.contains(q) by {
                assert(index0.contains_key(q) <==> x.contains(q));
                if x.contains(q) {
                    let j = choose|j: int| 0 <= j < x.len() && x[j] == q;
                    assert(y[j] == q);
                }
                if y.contains(q) {
                    let j = choose|j: int| 0 <= j < y.len() && y[j] == q;
                    if j < x.len() {
                        assert(x[j] == q);
                    }
                }
                assert(y[x.len() as int] == id0);
            }
            assert forall|q: (Seq<char>, Seq<char>, Seq<char>)| #[trigger]
                index@.contains_key(q) implies at_positions(ms, index@[q]@) == copies(
                ms.take(i + 1),
                q,
            ) && forall|k: int|
                0 <= k < index@[q]@.len() ==> (#[trigger] index@[q]@[k]) < i + 1 by {
                reveal(Seq::filter);
                if q != id0 {
                    assert(index0.contains_key(q));
                    assert forall|k: int| 0 <= k < index@[q]@.len() implies (
                    #[trigger] index@[q]@[k]) < i + 1 by {
                        assert(index0[q]@[k] < i);
                    }
                } else if index0.contains_key(id0) {
                    assert forall|k: int| 0 <= k < list@.len() implies (#[trigger] list@[k]) < i
                        + 1 by {
                        if k < had.len() {
                            assert(index0[id0]@[k] < i);
                        }
                    }
                }
            }
        }
        i = i + 1;
    }
    proof {
        assert(ms.take(i as int) =~= ms);
    }
    let multi = multi_rom_games(matches);
    let ghost all = wanted(ms);
    let mut total = PlacementPlan::empty();
    let mut k: usize = 0;
    while k < ids.len()
        invariant
            k <= ids@.len(),
            ms == matches.deep_view(),
            inp == inputs.deep_view(),
            ids_of == (|m: MatchView| rom_id(m)),
            all == wanted(ms),
            ids.deep_view() == all,
            forall|g: Seq<char>| #[trigger] multi@.contains(g) <==> several(ms, g),
            forall|id: (Seq<char>, Seq<char>, Seq<char>)| #[trigger]
                index@.contains_key(id) <==> ms.map_values(ids_of).contains(id),
            positions_fit(index@, ms, ms.len() as int),
            roms_plan(layout, ms, all.take(k as int), inp) == Ok::<
                PlacementPlanView,
                PlanErrorView,
            >(total.deep_view()),
        decreases ids@.len() - k,
    {
        let id = &ids[k];
        proof {
            assert(ids.deep_view()[k as int] == all[k as int]);
            assert(all.take(k + 1).drop_last() =~= all.take(k as int));
        }
        let built = match layout {
            Layout::Loose => build_dest_path(
                inputs.dest_root,
                id.0.as_str(),
                id.1.as_str(),
                multi.contains(id.0.as_str()),
            ),
            Layout::Disk => build_disk_dest_path(inputs.dest_root, id.0.as_str(), id.1.as_str()),
        };
        let dest = match built {
            Ok(dest) => dest,
            Err(e) => {
                proof {
                    lemma_roms_err(layout, ms, all, k + 1, inp);
                }
                return Err(PlanError::Path(e));
            },
        };
        let shared = inputs.shared.contains(id.2.as_str());
        proof {
            seqs::lemma_distinct(ms.map_values(ids_of));
            assert(all.contains(all[k as int]));
            assert(ms.map_values(ids_of).contains(all[k as int]));
            assert(index@.contains_key(id.deep_view()));
            assert(ms.take(ms.len() as int) =~= ms);
            lemma_some_copy(ms, all[k as int]);
        }
        if let Some(positions) = index.get(id) {
            proof {
                assert(at_positions(ms, positions@) == copies(ms, all[k as int]));
                assert(at_positions(ms, positions@).len() == positions@.len());
            }
            let p = plan_copies(matches, positions, dest.as_str(), shared, inputs);
            total.join(p);
        }
        k = k + 1;
    }
    proof {
        assert(all.take(k as int) =~= all);
    }
    Ok(total)
}

proof fn lemma_no_copies(t: Seq<MatchView>, id: (Seq<char>, Seq<char>, Seq<char>))
    requires
        !t.map_values(|m: MatchView| rom_id(m)).contains(id),
    ensures
        copies(t, id) == Seq::<MatchView>::empty(),
{
    let x = t.map_values(|m: MatchView| rom_id(m));
    seqs::lemma_filter_members(t, |m: MatchView| rom_id(m) == id);
    if copies(t, id).len() > 0 {
        let c = copies(t, id)[0];
        assert(copies(t, id).contains(c));
        assert(t.contains(c));
        let i = choose|i: int| 0 <= i < t.len() && t[i] == c;
        assert(x[i] == id);
    }
    assert(copies(t, id) =~= Seq::<MatchView>::empty());
}

proof fn lemma_some_copy(t: Seq<MatchView>, id: (Seq<char>, Seq<char>, Seq<char>))
    requires
        t.map_values(|m: MatchView| rom_id(m)).contains(id),
    ensures
        copies(t, id).len() > 0,
{
    let x = t.map_values(|m: MatchView| rom_id(m));
    seqs::lemma_filter_members(t, |m: MatchView| rom_id(m) == id);
    let i = choose|i: int| 0 <= i < x.len() && x[i] == id;
    assert(t.contains(t[i]));
    assert(copies(t, id).contains(t[i]));
}

proof fn lemma_roms_err(
    layout: Layout,
    ms: Seq<MatchView>,
    ids: Seq<(Seq<char>, Seq<char>, Seq<char>)>,
    n: int,
    inp: LooseInputsView,
)
    requires
        0 <= n <= ids.len(),
        roms_plan(layout, ms, ids.take(n), inp) is Err,
    ensures
        roms_plan(layout, ms, ids, inp) == roms_plan(layout, ms, ids.take(n), inp),
    decreases ids.len(),
{
    if n == ids.len() {
        assert(ids.take(n) =~= ids);
    } else {
        assert(ids.drop_last().take(n) =~= ids.take(n));
        lemma_roms_err(layout, ms, ids.drop_last(), n, inp);
    }
}

/// Plans ROMs that are stored loose.
pub fn plan_loose_matches(matches: &Vec<MatchedRom>, inputs: &LoosePlanInputs) -> (r: Result<
    PlacementPlan,
    PlanError,
>)
    ensures
        archive_planning::agrees(
            r,
            loose_plan(Layout::Loose, matches.deep_view(), inputs.deep_view()),
        ),
{
    plan_layout(Layout::Loose, matches, inputs)
}

/// Plans disk images, which are stored loose whatever the collection's format.
pub fn plan_disk_matches(matches: &Vec<MatchedRom>, inputs: &LoosePlanInputs) -> (r: Result<
    PlacementPlan,
    PlanError,
>)
    ensures
        archive_planning::agrees(
            r,
            loose_plan(Layout::Disk, matches.deep_view(), inputs.deep_view()),
        ),
{
    plan_layout(Layout::Disk, matches, inputs)
}

} // verus!
