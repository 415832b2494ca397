//! Completeness: which ROMs each game needs under a merge mode, which of them
//! the inventory holds, and the totals over both.

use super::types::{DatGame, DatRom, GameView, MergeMode, RomView};
use crate::seqs;
use crate::sorted_map::{Key, SortedMap, SortedSet};
use crate::text;
use crate::text::Rank;
use std::collections::HashMap;
use vstd::prelude::*;

verus! {

broadcast use vstd::std_specs::hash::group_hash_axioms;

/// How a required ROM is identified: SHA1 where the DAT has one, else MD5, else
/// CRC32 with the size.
#[derive(Debug, PartialEq, Eq)]
pub enum RomKey {
    Sha1(String),
    Md5(String),
    CrcSize(String, i64),
}

#[verifier::ext_equal]
pub enum RomKeyView {
    Sha1(Seq<char>),
    Md5(Seq<char>),
    CrcSize(Seq<char>, i64),
}

impl DeepView for RomKey {
    type V = RomKeyView;

    open spec fn deep_view(&self) -> RomKeyView {
        match self {
            RomKey::Sha1(s) => RomKeyView::Sha1(s@),
            RomKey::Md5(s) => RomKeyView::Md5(s@),
            RomKey::CrcSize(s, n) => RomKeyView::CrcSize(s@, *n),
        }
    }
}

impl Clone for RomKey {
    fn clone(&self) -> (r: Self)
        ensures
            r.deep_view() == self.deep_view(),
    {
        match self {
            RomKey::Sha1(s) => RomKey::Sha1(s.clone()),
            RomKey::Md5(s) => RomKey::Md5(s.clone()),
            RomKey::CrcSize(s, n) => RomKey::CrcSize(s.clone(), *n),
        }
    }
}

/// The order of texts paired with a number.
pub open spec fn pair_before(a: (Seq<char>, i64), b: (Seq<char>, i64)) -> bool {
    text::before(a.0, b.0) || (a.0 == b.0 && a.1 < b.1)
}

impl Key for (String, i64) {
    open spec fn precedes(a: (Seq<char>, i64), b: (Seq<char>, i64)) -> bool {
        pair_before(a, b)
    }

    proof fn lemma_irreflexive(a: (Seq<char>, i64)) {
        <String as Key>::lemma_irreflexive(a.0);
    }

    proof fn lemma_transitive(a: (Seq<char>, i64), b: (Seq<char>, i64), c: (Seq<char>, i64)) {
        if text::before(a.0, b.0) && text::before(b.0, c.0) {
            <String as Key>::lemma_transitive(a.0, b.0, c.0);
        }
    }

    proof fn lemma_total(a: (Seq<char>, i64), b: (Seq<char>, i64)) {
        <String as Key>::lemma_total(a.0, b.0);
    }

    fn rank(&self, other: &Self) -> (r: Rank) {
        match text::str_rank(self.0.as_str(), other.0.as_str()) {
            Rank::Before => Rank::Before,
            Rank::After => Rank::After,
            Rank::Same => if self.1 < other.1 {
                Rank::Before
            } else if other.1 < self.1 {
                Rank::After
            } else {
                Rank::Same
            },
        }
    }
}

/// The order of keys: by kind, then by hash, then by size.
pub open spec fn key_before(a: RomKeyView, b: RomKeyView) -> bool {
    match (a, b) {
        (RomKeyView::Sha1(x), RomKeyView::Sha1(y)) => text::before(x, y),
        (RomKeyView::Sha1(_), _) => true,
        (RomKeyView::Md5(_), RomKeyView::Sha1(_)) => false,
        (RomKeyView::Md5(x), RomKeyView::Md5(y)) => text::before(x, y),
        (RomKeyView::Md5(_), RomKeyView::CrcSize(_, _)) => true,
        (RomKeyView::CrcSize(x, m), RomKeyView::CrcSize(y, n)) => pair_before((x, m), (y, n)),
        (RomKeyView::CrcSize(_, _), _) => false,
    }
}

impl Key for RomKey {
    open spec fn precedes(a: RomKeyView, b: RomKeyView) -> bool {
        key_before(a, b)
    }

    proof fn lemma_irreflexive(a: RomKeyView) {
        match a {
            RomKeyView::Sha1(x) => <String as Key>::lemma_irreflexive(x),
            RomKeyView::Md5(x) => <String as Key>::lemma_irreflexive(x),
            RomKeyView::CrcSize(x, _) => <String as Key>::lemma_irreflexive(x),
        }
    }

    proof fn lemma_transitive(a: RomKeyView, b: RomKeyView, c: RomKeyView) {
        match (a, b, c) {
            (RomKeyView::Sha1(x), RomKeyView::Sha1(y), RomKeyView::Sha1(z)) =>
                <String as Key>::lemma_transitive(x, y, z),
            (RomKeyView::Md5(x), RomKeyView::Md5(y), RomKeyView::Md5(z)) =>
                <String as Key>::lemma_transitive(x, y, z),
            (RomKeyView::CrcSize(x, k), RomKeyView::CrcSize(y, m), RomKeyView::CrcSize(z, n)) =>
                <(String, i64) as Key>::lemma_transitive((x, k), (y, m), (z, n)),
            _ => {},
        }
    }

    proof fn lemma_total(a: RomKeyView, b: RomKeyView) {
        match (a, b) {
            (RomKeyView::Sha1(x), RomKeyView::Sha1(y)) => <String as Key>::lemma_total(x, y),
            (RomKeyView::Md5(x), RomKeyView::Md5(y)) => <String as Key>::lemma_total(x, y),
            (RomKeyView::CrcSize(x, _), RomKeyView::CrcSize(y, _)) =>
                <String as Key>::lemma_total(x, y),
            _ => {},
        }
    }

    fn rank(&self, other: &Self) -> (r: Rank) {
        match (self, other) {
            (RomKey::Sha1(x), RomKey::Sha1(y)) => text::str_rank(x.as_str(), y.as_str()),
            (RomKey::Sha1(_), _) => Rank::Before,
            (RomKey::Md5(_), RomKey::Sha1(_)) => Rank::After,
            (RomKey::Md5(x), RomKey::Md5(y)) => text::str_rank(x.as_str(), y.as_str()),
            (RomKey::Md5(_), RomKey::CrcSize(_, _)) => Rank::Before,
            (RomKey::CrcSize(x, m), RomKey::CrcSize(y, n)) => {
                match text::str_rank(x.as_str(), y.as_str()) {
                    Rank::Before => Rank::Before,
                    Rank::After => Rank::After,
                    Rank::Same => if *m < *n {
                        Rank::Before
                    } else if *n < *m {
                        Rank::After
                    } else {
                        Rank::Same
                    },
                }
            },
            (RomKey::CrcSize(_, _), _) => Rank::After,
        }
    }
}

/// Whether two keys are the same.
fn same_key(a: &RomKey, b: &RomKey) -> (r: bool)
    ensures
        r == (a.deep_view() == b.deep_view()),
{
    let rank = a.rank(b);
    proof {
        RomKey::lemma_irreflexive(a.deep_view());
    }
    match rank {
        Rank::Same => true,
        _ => false,
    }
}

/// The key of hashes and a size: the best hash there is.
pub open spec fn key_from(
    sha1: Option<Seq<char>>,
    md5: Option<Seq<char>>,
    crc32: Option<Seq<char>>,
    size: i64,
) -> Option<RomKeyView> {
    match (sha1, md5, crc32) {
        (Some(s), _, _) => Some(RomKeyView::Sha1(s)),
        (None, Some(m), _) => Some(RomKeyView::Md5(m)),
        (None, None, Some(c)) => Some(RomKeyView::CrcSize(c, size)),
        (None, None, None) => None,
    }
}

/// The key of a DAT ROM, or none where it carries no usable hash.
pub open spec fn key_of(rom: RomView) -> Option<RomKeyView> {
    key_from(rom.sha1, rom.md5, rom.crc32, rom.size)
}

fn rom_key(rom: &DatRom) -> (r: Option<RomKey>)
    ensures
        r.deep_view() == key_of(rom.deep_view()),
{
    match &rom.sha1 {
        Some(sha1) => Some(RomKey::Sha1(sha1.clone())),
        None => match &rom.md5 {
            Some(md5) => Some(RomKey::Md5(md5.clone())),
            None => match &rom.crc32 {
                Some(crc) => Some(RomKey::CrcSize(crc.clone(), rom.size)),
                None => None,
            },
        },
    }
}

// ---------------------------------------------------------------------------
// Requirements
// ---------------------------------------------------------------------------

/// ROM requirement for a game, accounting for merge mode.
#[derive(Debug)]
pub struct GameRomRequirements {
    /// Game name
    pub game_name: String,
    /// Is this game a clone (has a parent)
    pub is_clone: bool,
    /// Is this game a BIOS set
    pub is_bios: bool,
    /// Is this game a device set
    pub is_device: bool,
    /// Match keys of the ROMs required for this game to be complete
    pub required_roms: Vec<RomKey>,
    /// Number of ROMs with nodump status (excluded from completeness)
    pub nodump_count: usize,
}

#[verifier::ext_equal]
pub struct RequirementView {
    pub game_name: Seq<char>,
    pub is_clone: bool,
    pub is_bios: bool,
    pub is_device: bool,
    pub required_roms: Seq<RomKeyView>,
    pub nodump_count: usize,
}

impl DeepView for GameRomRequirements {
    type V = RequirementView;

    open spec fn deep_view(&self) -> RequirementView {
        RequirementView {
            game_name: self.game_name@,
            is_clone: self.is_clone,
            is_bios: self.is_bios,
            is_device: self.is_device,
            required_roms: self.required_roms.deep_view(),
            nodump_count: self.nodump_count,
        }
    }
}

/// Options for filtering games in ROM requirement calculations.
#[derive(Clone, Copy, Debug, PartialEq, Eq, Structural)]
pub struct RequirementOptions {
    /// Exclude mechanical sets (slot machines, etc.)
    pub exclude_mechanical: bool,
    /// Exclude BIOS sets from main count (still tracked separately)
    pub exclude_bios: bool,
    /// Exclude device sets from main count (still tracked separately)
    pub exclude_devices: bool,
}

pub open spec fn game_views(games: Seq<DatGame>) -> Seq<GameView> {
    Seq::new(games.len(), |i: int| games[i].deep_view())
}

/// The ROMs listed under a game.
pub open spec fn roms_of(roms: Map<i64, Vec<DatRom>>, game_id: i64) -> Seq<RomView> {
    if roms.contains_key(game_id) {
        roms[game_id].deep_view()
    } else {
        Seq::empty()
    }
}

pub open spec fn nodump(rom: RomView) -> bool {
    rom.status == "nodump"@
}

/// A number that does not grow beyond the largest `usize`.
pub open spec fn capped_count(n: nat) -> usize {
    if n > usize::MAX {
        usize::MAX
    } else {
        n as usize
    }
}

/// How many of the ROMs were never dumped.
pub open spec fn nodumps(roms: Seq<RomView>) -> nat
    decreases roms.len(),
{
    if roms.len() == 0 {
        0
    } else {
        nodumps(roms.drop_last()) + (if nodump(roms.last()) {
            1nat
        } else {
            0nat
        })
    }
}

/// The keys that a game needs of its own ROMs. In split mode a clone's ROMs with
/// a merge tag live in the parent.
pub open spec fn own_keys(roms: Seq<RomView>, mode: MergeMode, is_clone: bool) -> Seq<RomKeyView>
    decreases roms.len(),
{
    if roms.len() == 0 {
        Seq::empty()
    } else {
        let before = own_keys(roms.drop_last(), mode, is_clone);
        let rom = roms.last();
        if nodump(rom) || (mode is Split && is_clone && rom.merge_tag is Some) || key_of(
            rom,
        ) is None {
            before
        } else {
            before.push(key_of(rom)->0)
        }
    }
}

/// Keys with those of a clone's ROMs added, each once.
pub open spec fn absorbing(keys: Seq<RomKeyView>, roms: Seq<RomView>) -> Seq<RomKeyView>
    decreases roms.len(),
{
    if roms.len() == 0 {
        keys
    } else {
        let before = absorbing(keys, roms.drop_last());
        let rom = roms.last();
        if nodump(rom) || key_of(rom) is None || before.contains(key_of(rom)->0) {
            before
        } else {
            before.push(key_of(rom)->0)
        }
    }
}

/// Whether a game is a clone of another.
pub open spec fn clone_of(game: GameView, parent: GameView) -> bool {
    game.parent_name == Some(parent.name)
}

/// The keys of a parent that also holds the ROMs of its clones.
pub open spec fn with_clones(
    keys: Seq<RomKeyView>,
    games: Seq<GameView>,
    roms: Map<i64, Vec<DatRom>>,
    parent: GameView,
) -> Seq<RomKeyView>
    decreases games.len(),
{
    if games.len() == 0 {
        keys
    } else {
        let before = with_clones(keys, games.drop_last(), roms, parent);
        if clone_of(games.last(), parent) {
            absorbing(before, roms_of(roms, games.last().id))
        } else {
            before
        }
    }
}

/// How many ROMs of a parent's clones were never dumped.
pub open spec fn clone_nodumps(
    games: Seq<GameView>,
    roms: Map<i64, Vec<DatRom>>,
    parent: GameView,
) -> nat
    decreases games.len(),
{
    if games.len() == 0 {
        0
    } else {
        clone_nodumps(games.drop_last(), roms, parent) + (if clone_of(games.last(), parent) {
            nodumps(roms_of(roms, games.last().id))
        } else {
            0nat
        })
    }
}

/// Whether a game is counted at all.
pub open spec fn counts(game: GameView, mode: MergeMode, options: RequirementOptions) -> bool {
    &&& !(options.exclude_mechanical && game.is_mechanical)
    &&& !(options.exclude_bios && game.is_bios)
    &&& !(options.exclude_devices && game.is_device)
    &&& !(mode is Merged && game.parent_name is Some)
}

/// What a game needs to be complete.
pub open spec fn requirement(
    game: GameView,
    games: Seq<GameView>,
    roms: Map<i64, Vec<DatRom>>,
    mode: MergeMode,
) -> RequirementView {
    let is_clone = game.parent_name is Some;
    let own = own_keys(roms_of(roms, game.id), mode, is_clone);
    let missing = nodumps(roms_of(roms, game.id));
    RequirementView {
        game_name: game.name,
        is_clone,
        is_bios: game.is_bios,
        is_device: game.is_device,
        required_roms: if mode is Merged {
            with_clones(own, games, roms, game)
        } else {
            own
        },
        nodump_count: capped_count(
            if mode is Merged {
                missing + clone_nodumps(games, roms, game)
            } else {
                missing
            },
        ),
    }
}

/// What the first `n` games need, in order.
pub open spec fn requirements(
    games: Seq<GameView>,
    n: int,
    roms: Map<i64, Vec<DatRom>>,
    mode: MergeMode,
    options: RequirementOptions,
) -> Seq<RequirementView>
    decreases n,
{
    if n <= 0 {
        Seq::empty()
    } else {
        let before = requirements(games, n - 1, roms, mode, options);
        if counts(games[n - 1], mode, options) {
            before.push(requirement(games[n - 1], games, roms, mode))
        } else {
            before
        }
    }
}

/// In split mode a clone needs nothing that carries a merge tag: adding or
/// taking away such ROMs does not change what it needs.
pub proof fn law_split_clone_ignores_inherited(roms: Seq<RomView>, rom: RomView)
    requires
        rom.merge_tag is Some,
    ensures
        own_keys(roms.push(rom), MergeMode::Split, true) == own_keys(
            roms,
            MergeMode::Split,
            true,
        ),
{
    assert(roms.push(rom).drop_last() =~= roms);
}

/// In merged mode no clone is counted, so no clone stands among the requirements.
pub proof fn law_merged_has_no_clones(
    games: Seq<GameView>,
    n: int,
    roms: Map<i64, Vec<DatRom>>,
    options: RequirementOptions,
)
    requires
        0 <= n <= games.len(),
    ensures
        forall|i: int|
            0 <= i < requirements(games, n, roms, MergeMode::Merged, options).len()
                ==> !(#[trigger] requirements(
                games,
                n,
                roms,
                MergeMode::Merged,
                options,
            )[i]).is_clone,
    decreases n,
{
    if n > 0 {
        law_merged_has_no_clones(games, n - 1, roms, options);
        let before = requirements(games, n - 1, roms, MergeMode::Merged, options);
        let now = requirements(games, n, roms, MergeMode::Merged, options);
        assert forall|i: int| 0 <= i < now.len() implies !(#[trigger] now[i]).is_clone by {
            if i < before.len() {
                assert(now[i] == before[i]);
            }
        }
    }
}

/// A ROM is identified by its SHA1 wherever it has one, whatever else is known of
/// it; without one by its MD5; without either by CRC32 and size together. Only a ROM
/// without any hash has no key.
pub proof fn law_key_is_the_best_hash(rom: RomView)
    ensures
        rom.sha1 matches Some(s) ==> key_of(rom) == Some(RomKeyView::Sha1(s)),
        rom.sha1 is None && rom.md5 is Some ==> key_of(rom) == Some(RomKeyView::Md5(rom.md5->0)),
        rom.sha1 is None && rom.md5 is None && rom.crc32 is Some ==> key_of(rom) == Some(
            RomKeyView::CrcSize(rom.crc32->0, rom.size),
        ),
        key_of(rom) is None <==> rom.sha1 is None && rom.md5 is None && rom.crc32 is None,
{
}

/// Whether one of some ROMs was dumped and has a key; those with a merge tag aside
/// where these do not count.
pub open spec fn dumped_with_key(roms: Seq<RomView>, untagged: bool, k: RomKeyView) -> bool {
    exists|i: int|
        0 <= i < roms.len() && (#[trigger] roms[i]).status != "nodump"@ && key_of(roms[i]) == Some(
            k,
        ) && (untagged ==> roms[i].merge_tag is None)
}

proof fn lemma_dumped_push(roms: Seq<RomView>, untagged: bool, k: RomKeyView)
    requires
        roms.len() > 0,
    ensures
        dumped_with_key(roms, untagged, k) <==> dumped_with_key(roms.drop_last(), untagged, k) || (
        roms.last().status != "nodump"@ && key_of(roms.last()) == Some(k) && (untagged
            ==> roms.last().merge_tag is None)),
{
    let rest = roms.drop_last();
    if dumped_with_key(rest, untagged, k) {
        let i = choose|i: int|
            0 <= i < rest.len() && (#[trigger] rest[i]).status != "nodump"@ && key_of(rest[i])
                == Some(k) && (untagged ==> rest[i].merge_tag is None);
        assert(roms[i] == rest[i]);
    }
    assert(roms[roms.len() - 1] == roms.last());
    if dumped_with_key(roms, untagged, k) {
        let i = choose|i: int|
            0 <= i < roms.len() && (#[trigger] roms[i]).status != "nodump"@ && key_of(roms[i])
                == Some(k) && (untagged ==> roms[i].merge_tag is None);
        if i < rest.len() {
            assert(rest[i] == roms[i]);
        }
    }
}

proof fn lemma_own_keys(roms: Seq<RomView>, mode: MergeMode, is_clone: bool, k: RomKeyView)
    ensures
        own_keys(roms, mode, is_clone).contains(k) <==> dumped_with_key(
            roms,
            mode is Split && is_clone,
            k,
        ),
    decreases roms.len(),
{
    if roms.len() > 0 {
        lemma_own_keys(roms.drop_last(), mode, is_clone, k);
        lemma_dumped_push(roms, mode is Split && is_clone, k);
        if key_of(roms.last()) is Some {
            lemma_push_contains(
                own_keys(roms.drop_last(), mode, is_clone),
                key_of(roms.last())->0,
            );
        }
    }
}

proof fn lemma_absorbing(keys: Seq<RomKeyView>, roms: Seq<RomView>, k: RomKeyView)
    ensures
        absorbing(keys, roms).contains(k) <==> keys.contains(k) || dumped_with_key(
            roms,
            false,
            k,
        ),
    decreases roms.len(),
{
    if roms.len() > 0 {
        lemma_absorbing(keys, roms.drop_last(), k);
        lemma_dumped_push(roms, false, k);
        if key_of(roms.last()) is Some {
            lemma_push_contains(absorbing(keys, roms.drop_last()), key_of(roms.last())->0);
        }
    }
}

/// Whether a clone of a parent has a dumped ROM with a key.
pub open spec fn clone_with_key(
    games: Seq<GameView>,
    roms: Map<i64, Vec<DatRom>>,
    parent: Seq<char>,
    k: RomKeyView,
) -> bool {
    exists|i: int|
        0 <= i < games.len() && (#[trigger] games[i]).parent_name == Some(parent)
            && dumped_with_key(roms_of(roms, games[i].id), false, k)
}

proof fn lemma_with_clones(
    keys: Seq<RomKeyView>,
    games: Seq<GameView>,
    roms: Map<i64, Vec<DatRom>>,
    parent: GameView,
    k: RomKeyView,
)
    ensures
        with_clones(keys, games, roms, parent).contains(k) <==> keys.contains(k) || clone_with_key(
            games,
            roms,
            parent.name,
            k,
        ),
    decreases games.len(),
{
    if games.len() > 0 {
        let rest = games.drop_last();
        lemma_with_clones(keys, rest, roms, parent, k);
        lemma_absorbing(
            with_clones(keys, rest, roms, parent),
            roms_of(roms, games.last().id),
            k,
        );
        if clone_with_key(rest, roms, parent.name, k) {
            let i = choose|i: int|
                0 <= i < rest.len() && (#[trigger] rest[i]).parent_name == Some(parent.name)
                    && dumped_with_key(roms_of(roms, rest[i].id), false, k);
            assert(games[i] == rest[i]);
        }
        assert(games[games.len() - 1] == games.last());
        if clone_with_key(games, roms, parent.name, k) {
            let i = choose|i: int|
                0 <= i < games.len() && (#[trigger] games[i]).parent_name == Some(parent.name)
                    && dumped_with_key(roms_of(roms, games[i].id), false, k);
            if i < rest.len() {
                assert(rest[i] == games[i]);
            }
        }
    }
}

/// What a game requires under each merge mode. Not merged: the key of every ROM
/// listed under it that was dumped. Split: the same, but of a clone only the ROMs
/// without a merge tag, the others being its parent's. Merged: its own and those of
/// its clones. Nothing else is ever required, and nothing that was never dumped.
pub proof fn law_merge_mode_decides_what_is_required(
    game: GameView,
    games: Seq<GameView>,
    roms: Map<i64, Vec<DatRom>>,
    k: RomKeyView,
)
    ensures
        requirement(game, games, roms, MergeMode::NonMerged).required_roms.contains(k)
            <==> dumped_with_key(roms_of(roms, game.id), false, k),
        requirement(game, games, roms, MergeMode::Split).required_roms.contains(k)
            <==> dumped_with_key(roms_of(roms, game.id), game.parent_name is Some, k),
        requirement(game, games, roms, MergeMode::Merged).required_roms.contains(k)
            <==> dumped_with_key(roms_of(roms, game.id), false, k) || clone_with_key(
            games,
            roms,
            game.name,
            k,
        ),
{
    let own = roms_of(roms, game.id);
    let is_clone = game.parent_name is Some;
    lemma_own_keys(own, MergeMode::NonMerged, is_clone, k);
    lemma_own_keys(own, MergeMode::Split, is_clone, k);
    lemma_own_keys(own, MergeMode::Merged, is_clone, k);
    lemma_with_clones(own_keys(own, MergeMode::Merged, is_clone), games, roms, game, k);
}

proof fn lemma_nodumps(roms: Seq<RomView>)
    ensures
        nodumps(roms) == roms.filter(|r: RomView| r.status == "nodump"@).len(),
    decreases roms.len(),
{
    reveal(Seq::filter);
    if roms.len() > 0 {
        lemma_nodumps(roms.drop_last());
    }
}

/// A requirement speaks of its game, and tells how many of the game's own ROMs were
/// never dumped; in merged mode those of clones come on top.
pub proof fn law_requirement_speaks_of_its_game(
    game: GameView,
    games: Seq<GameView>,
    roms: Map<i64, Vec<DatRom>>,
    mode: MergeMode,
)
    ensures
        ({
            let r = requirement(game, games, roms, mode);
            let undumped = roms_of(roms, game.id).filter(
                |r: RomView| r.status == "nodump"@,
            ).len();
            &&& r.game_name == game.name
            &&& r.is_clone == (game.parent_name is Some)
            &&& r.is_bios == game.is_bios
            &&& r.is_device == game.is_device
            &&& !(mode is Merged) && undumped <= usize::MAX ==> r.nodump_count == undumped
            &&& mode is Merged && undumped <= usize::MAX ==> r.nodump_count >= undumped
        }),
{
    lemma_nodumps(roms_of(roms, game.id));
}

/// The games that are counted stand in their order, each once: all but the
/// mechanical, BIOS and device sets that the options leave out and, in merged mode,
/// the clones.
pub proof fn law_counted_games_keep_their_order(
    games: Seq<GameView>,
    n: int,
    roms: Map<i64, Vec<DatRom>>,
    mode: MergeMode,
    options: RequirementOptions,
)
    requires
        0 <= n <= games.len(),
    ensures
        requirements(games, n, roms, mode, options) == games.take(n).filter(
            |g: GameView|
                !(options.exclude_mechanical && g.is_mechanical) && !(options.exclude_bios
                    && g.is_bios) && !(options.exclude_devices && g.is_device) && !(mode is Merged
                    && g.parent_name is Some),
        ).map_values(|g: GameView| requirement(g, games, roms, mode)),
    decreases n,
{
    let counted = |g: GameView|
        !(options.exclude_mechanical && g.is_mechanical) && !(options.exclude_bios && g.is_bios)
            && !(options.exclude_devices && g.is_device) && !(mode is Merged
            && g.parent_name is Some);
    let made = |g: GameView| requirement(g, games, roms, mode);
    reveal(Seq::filter);
    if n == 0 {
        assert(games.take(0).filter(counted).map_values(made) =~= Seq::empty());
    } else {
        law_counted_games_keep_their_order(games, n - 1, roms, mode, options);
        assert(games.take(n).drop_last() =~= games.take(n - 1));
        assert(games.take(n).last() == games[n - 1]);
        let before = games.take(n - 1).filter(counted);
        if counted(games[n - 1]) {
            assert(games.take(n).filter(counted) == before.push(games[n - 1]));
            assert(before.push(games[n - 1]).map_values(made) =~= before.map_values(made).push(
                made(games[n - 1]),
            ));
        } else {
            assert(games.take(n).filter(counted) == before);
        }
    }
}

/// ROM requirements for all games of a version, accounting for merge mode.
pub fn calculate_rom_requirements(
    games: &[DatGame],
    roms: &HashMap<i64, Vec<DatRom>>,
    merge_mode: MergeMode,
    exclude_mechanical: bool,
) -> (r: Vec<GameRomRequirements>)
    ensures
        r.deep_view() == requirements(
            game_views(games@),
            games@.len() as int,
            roms@,
            merge_mode,
            (RequirementOptions { exclude_mechanical, exclude_bios: false, exclude_devices: false }),
        ),
{
    let options = RequirementOptions {
        exclude_mechanical,
        exclude_bios: false,
        exclude_devices: false,
    };
    calculate_rom_requirements_with_options(games, roms, merge_mode, &options)
}

/// ROM requirements with full filtering options.
pub fn calculate_rom_requirements_with_options(
    games: &[DatGame],
    roms: &HashMap<i64, Vec<DatRom>>,
    merge_mode: MergeMode,
    options: &RequirementOptions,
) -> (r: Vec<GameRomRequirements>)
    ensures
        r.deep_view() == requirements(
            game_views(games@),
            games@.len() as int,
            roms@,
            merge_mode,
            *options,
        ),
{
    let ghost all = game_views(games@);
    let mut out: Vec<GameRomRequirements> = Vec::new();
    let mut i: usize = 0;
    while i < games.len()
        invariant
            i <= games@.len(),
            all == game_views(games@),
            out.deep_view() == requirements(all, i as int, roms@, merge_mode, *options),
        decreases games@.len() - i,
    {
        let game = &games[i];
        let skip = (options.exclude_mechanical && game.is_mechanical) || (options.exclude_bios
            && game.is_bios) || (options.exclude_devices && game.is_device) || (merge_mode
            == MergeMode::Merged && game.parent_name.is_some());
        if !skip {
            let ghost before = out.deep_view();
            out.push(game_requirement(game, games, roms, merge_mode));
            proof {
                assert(out.deep_view() =~= before.push(
                    requirement(all[i as int], all, roms@, merge_mode),
                ));
            }
        }
        i = i + 1;
    }
    out
}

fn game_requirement(
    game: &DatGame,
    games: &[DatGame],
    roms: &HashMap<i64, Vec<DatRom>>,
    merge_mode: MergeMode,
) -> (r: GameRomRequirements)
    ensures
        r.deep_view() == requirement(game.deep_view(), game_views(games@), roms@, merge_mode),
{
    let ghost all = game_views(games@);
    let is_clone = game.parent_name.is_some();
    let mut required: Vec<RomKey> = Vec::new();
    let mut missing: usize = 0;
    if let Some(list) = roms.get(&game.id) {
        let ghost own = list.deep_view();
        let mut j: usize = 0;
        proof {
            assert(required.deep_view() =~= Seq::<RomKeyView>::empty());
        }
        while j < list.len()
            invariant
                j <= list@.len(),
                own == list.deep_view(),
                required.deep_view() == own_keys(own.take(j as int), merge_mode, is_clone),
                missing == capped_count(nodumps(own.take(j as int))),
            decreases list@.len() - j,
        {
            let rom = &list[j];
            proof {
                assert(own.take(j + 1).drop_last() =~= own.take(j as int));
            }
            if text::str_eq(rom.status.as_str(), "nodump") {
                missing = missing.saturating_add(1);
            } else if !(merge_mode == MergeMode::Split && is_clone && rom.merge_tag.is_some()) {
                if let Some(key) = rom_key(rom) {
                    let ghost before = required.deep_view();
                    required.push(key);
                    proof {
                        assert(required.deep_view() =~= before.push(key.deep_view()));
                    }
                }
            }
            j = j + 1;
        }
        proof {
            assert(own.take(j as int) =~= own);
        }
    } else {
        proof {
            assert(required.deep_view() =~= Seq::<RomKeyView>::empty());
        }
    }
    if merge_mode == MergeMode::Merged {
        let ghost own = required.deep_view();
        let ghost own_missing = nodumps(roms_of(roms@, game.id));
        let mut k: usize = 0;
        while k < games.len()
            invariant
                k <= games@.len(),
                all == game_views(games@),
                required.deep_view() == with_clones(
                    own,
                    all.take(k as int),
                    roms@,
                    game.deep_view(),
                ),
                missing == capped_count(
                    own_missing + clone_nodumps(all.take(k as int), roms@, game.deep_view()),
                ),
            decreases games@.len() - k,
        {
            proof {
                assert(all.take(k + 1).drop_last() =~= all.take(k as int));
            }
            let other = &games[k];
            let is_child = match &other.parent_name {
                Some(p) => text::str_eq(p.as_str(), game.name.as_str()),
                None => false,
            };
            if is_child {
                let n = absorb(&mut required, roms.get(&other.id));
                missing = missing.saturating_add(n);
            }
            k = k + 1;
        }
        proof {
            assert(all.take(k as int) =~= all);
        }
    }
    GameRomRequirements {
        game_name: game.name.clone(),
        is_clone,
        is_bios: game.is_bios,
        is_device: game.is_device,
        required_roms: required,
        nodump_count: missing,
    }
}

/// Adds the keys of a clone's ROMs that are not yet among the keys, and says how
/// many of the ROMs were never dumped.
fn absorb(required: &mut Vec<RomKey>, list: Option<&Vec<DatRom>>) -> (n: usize)
    ensures
        ({
            let roms = match list {
                Some(l) => l.deep_view(),
                None => Seq::<RomView>::empty(),
            };
            &&& final(required).deep_view() == absorbing(old(required).deep_view(), roms)
            &&& n == capped_count(nodumps(roms))
        }),
{
    let list = match list {
        Some(list) => list,
        None => {
            return 0;
        },
    };
    let ghost roms = list.deep_view();
    let ghost start = required.deep_view();
    let mut missing: usize = 0;
    let mut j: usize = 0;
    while j < list.len()
        invariant
            j <= list@.len(),
            roms == list.deep_view(),
            required.deep_view() == absorbing(start, roms.take(j as int)),
            missing == capped_count(nodumps(roms.take(j as int))),
        decreases list@.len() - j,
    {
        let rom = &list[j];
        proof {
            assert(roms.take(j + 1).drop_last() =~= roms.take(j as int));
        }
        if text::str_eq(rom.status.as_str(), "nodump") {
            missing = missing.saturating_add(1);
        } else if let Some(key) = rom_key(rom) {
            if !has_key(required, &key) {
                let ghost before = required.deep_view();
                required.push(key);
                proof {
                    assert(required.deep_view() =~= before.push(key.deep_view()));
                }
            }
        }
        j = j + 1;
    }
    proof {
        assert(roms.take(j as int) =~= roms);
    }
    missing
}

fn has_key(keys: &Vec<RomKey>, key: &RomKey) -> (r: bool)
    ensures
        r == keys.deep_view().contains(key.deep_view()),
{
    let mut i: usize = 0;
    while i < keys.len()
        invariant
            i <= keys@.len(),
            forall|j: int| 0 <= j < i ==> (#[trigger] keys.deep_view()[j]) != key.deep_view(),
        decreases keys@.len() - i,
    {
        if same_key(&keys[i], key) {
            proof {
                assert(keys.deep_view()[i as int] == key.deep_view());
            }
            return true;
        }
        i = i + 1;
    }
    false
}

/// Groups ROMs under their games: each game's ROMs in the order of the rows, and no
/// game without any.
pub fn group_roms_by_game(rows: Vec<DatRom>) -> (r: HashMap<i64, Vec<DatRom>>)
    ensures
        forall|id: i64|
            #[trigger] roms_of(r@, id) == rows.deep_view().filter(|m: RomView| m.game_id == id),
        forall|id: i64| #[trigger] r@.contains_key(id) <==> roms_of(r@, id).len() > 0,
{
    let ghost all = rows.deep_view();
    let mut map: HashMap<i64, Vec<DatRom>> = HashMap::new();
    let mut pending = seqs::reversed(rows);
    proof {
        assert(seqs::rev(pending.deep_view()) =~= all);
        assert(all.take(0) =~= Seq::<RomView>::empty());
    }
    let ghost mut done: int = 0;
    while pending.len() > 0
        invariant
            0 <= done <= all.len(),
            all.take(done) + seqs::rev(pending.deep_view()) == all,
            forall|id: i64|
                #[trigger] roms_of(map@, id) == all.take(done).filter(
                    |m: RomView| m.game_id == id,
                ),
            forall|id: i64| #[trigger] map@.contains_key(id) <==> roms_of(map@, id).len() > 0,
        decreases pending@.len(),
    {
        let ghost p0 = pending.deep_view();
        let ghost m0 = map@;
        if let Some(row) = pending.pop() {
            let id: i64 = row.game_id;
            let ghost view = row.deep_view();
            proof {
                assert(pending.deep_view() =~= p0.drop_last());
                assert(seqs::rev(p0)[0] == view);
                assert((all.take(done) + seqs::rev(p0))[done] == view);
                assert(all[done] == view);
                assert(all.take(done + 1) =~= all.take(done).push(view));
                assert(all.take(done + 1) + seqs::rev(pending.deep_view()) =~= all);
            }
            let mut list: Vec<DatRom> = match map.remove(&id) {
                Some(list) => list,
                None => Vec::new(),
            };
            let ghost had = list.deep_view();
            list.push(row);
            proof {
                assert(list.deep_view() =~= had.push(view));
                assert(had =~= roms_of(m0, id));
            }
            map.insert(id, list);
            proof {
                assert forall|k: i64| #[trigger]
                    roms_of(map@, k) == all.take(done + 1).filter(
                        |m: RomView| m.game_id == k,
                    ) by {
                    assert(roms_of(m0, k) == all.take(done).filter(|m: RomView| m.game_id == k));
                    assert(all.take(done + 1).drop_last() =~= all.take(done));
                    reveal_with_fuel(Seq::filter, 2);
                }
                done = done + 1;
            }
        }
    }
    proof {
        assert(all.take(done) =~= all);
    }
    map
}

// ---------------------------------------------------------------------------
// Presence
// ---------------------------------------------------------------------------

/// The hashes that the file inventory was found to hold.
pub struct Inventory {
    /// SHA1s of files, with or without their header
    pub sha1s: SortedSet<String>,
    pub md5s: SortedSet<String>,
    /// CRC32s of files, with their sizes
    pub crc_sizes: SortedSet<(String, i64)>,
}

/// Whether the inventory holds a key.
pub open spec fn held(inventory: Inventory, key: RomKeyView) -> bool {
    match key {
        RomKeyView::Sha1(s) => inventory.sha1s@.contains(s),
        RomKeyView::Md5(m) => inventory.md5s@.contains(m),
        RomKeyView::CrcSize(c, n) => inventory.crc_sizes@.contains((c, n)),
    }
}

/// Is a required ROM present in the file inventory?
pub fn rom_present(inventory: &Inventory, key: &RomKey) -> (r: bool)
    ensures
        r == held(*inventory, key.deep_view()),
{
    match key {
        RomKey::Sha1(s) => inventory.sha1s.contains(s.as_str()),
        RomKey::Md5(m) => inventory.md5s.contains(m.as_str()),
        RomKey::CrcSize(c, n) => inventory.crc_sizes.has(&(c.clone(), *n)),
    }
}

/// Which of the keys the inventory holds.
pub fn present_keys(keys: &SortedSet<RomKey>, inventory: &Inventory) -> (r: SortedSet<RomKey>)
    ensures
        forall|k: RomKeyView|
            #[trigger] r@.contains(k) <==> keys@.contains(k) && held(*inventory, k),
{
    let mut present: SortedSet<RomKey> = SortedSet::new();
    let n = keys.len();
    let ghost members = keys.members();
    let mut i: usize = 0;
    while i < n
        invariant
            i <= n,
            n == members.len(),
            members == keys.members(),
            keys.linked(),
            forall|k: RomKeyView|
                #[trigger] present@.contains(k) <==> members.take(i as int).contains(k) && held(
                    *inventory,
                    k,
                ),
        decreases n - i,
    {
        let key = keys.member_at(i);
        let ghost before = present@;
        if rom_present(inventory, key) {
            present.insert(key.clone());
        }
        proof {
            assert(members.take(i + 1) =~= members.take(i as int).push(members[i as int]));
            assert forall|k: RomKeyView| #[trigger]
                present@.contains(k) <==> members.take(i + 1).contains(k) && held(
                    *inventory,
                    k,
                ) by {
                assert(before.contains(k) <==> members.take(i as int).contains(k) && held(
                    *inventory,
                    k,
                ));
                let t = members.take(i as int);
                let u = members.take(i + 1);
                if t.contains(k) {
                    let j = choose|j: int| 0 <= j < t.len() && t[j] == k;
                    assert(u[j] == k);
                }
                if u.contains(k) {
                    let j = choose|j: int| 0 <= j < u.len() && u[j] == k;
                    if j < t.len() {
                        assert(t[j] == k);
                    }
                }
                if k == members[i as int] {
                    assert(u[i as int] == k);
                }
            }
        }
        i = i + 1;
    }
    proof {
        assert(members.take(i as int) =~= members);
        assert forall|k: RomKeyView|
            #[trigger] present@.contains(k) <==> keys@.contains(k) && held(*inventory, k) by {
            assert(keys@.contains(k) <==> keys.members().contains(k));
        }
    }
    present
}

/// How many values one inventory query binds at most.
pub const BATCH: usize = 400;

/// The hashes to look up, kind by kind.
pub struct KeyBatches {
    pub sha1s: Vec<String>,
    pub md5s: Vec<String>,
    pub crc_sizes: Vec<(String, i64)>,
}

/// Whether a list of hashes names exactly the keys of its kind.
pub open spec fn lists_keys(b: KeyBatches, keys: Set<RomKeyView>) -> bool {
    &&& forall|s: Seq<char>|
        #[trigger] b.sha1s.deep_view().contains(s) <==> keys.contains(RomKeyView::Sha1(s))
    &&& forall|s: Seq<char>|
        #[trigger] b.md5s.deep_view().contains(s) <==> keys.contains(RomKeyView::Md5(s))
    &&& forall|p: (Seq<char>, i64)|
        #[trigger] b.crc_sizes.deep_view().contains(p) <==> keys.contains(
            RomKeyView::CrcSize(p.0, p.1),
        )
}

proof fn lemma_push_contains<A>(s: Seq<A>, x: A)
    ensures
        forall|y: A| #[trigger] s.push(x).contains(y) <==> s.contains(y) || y == x,
{
    assert forall|y: A| #[trigger] s.push(x).contains(y) <==> s.contains(y) || y == x by {
        if s.contains(y) {
            let i = choose|i: int| 0 <= i < s.len() && s[i] == y;
            assert(s.push(x)[i] == y);
        }
        if y == x {
            assert(s.push(x)[s.len() as int] == y);
        }
        if s.push(x).contains(y) {
            let i = choose|i: int| 0 <= i < s.push(x).len() && s.push(x)[i] == y;
            if i < s.len() {
                assert(s[i] == y);
            }
        }
    }
}

/// A key is held where the hash that it goes by is: by SHA1 or MD5 alone, by CRC only
/// together with the size.
pub proof fn law_keys_are_held_by_their_hash(
    inventory: Inventory,
    hash: Seq<char>,
    size: i64,
)
    ensures
        held(inventory, RomKeyView::Sha1(hash)) <==> inventory.sha1s@.contains(hash),
        held(inventory, RomKeyView::Md5(hash)) <==> inventory.md5s@.contains(hash),
        held(inventory, RomKeyView::CrcSize(hash, size)) <==> inventory.crc_sizes@.contains(
            (hash, size),
        ),
{
}

/// Every key is looked up, by the kind of hash it has, and nothing else is.
pub proof fn law_every_key_is_looked_up(b: KeyBatches, keys: Set<RomKeyView>, k: RomKeyView)
    requires
        lists_keys(b, keys),
    ensures
        keys.contains(k) <==> match k {
            RomKeyView::Sha1(s) => b.sha1s.deep_view().contains(s),
            RomKeyView::Md5(m) => b.md5s.deep_view().contains(m),
            RomKeyView::CrcSize(c, n) => b.crc_sizes.deep_view().contains((c, n)),
        },
{
    match k {
        RomKeyView::Sha1(s) => {
            assert(b.sha1s.deep_view().contains(s) <==> keys.contains(k));
        },
        RomKeyView::Md5(m) => {
            assert(b.md5s.deep_view().contains(m) <==> keys.contains(k));
        },
        RomKeyView::CrcSize(c, n) => {
            let p = (c, n);
            assert(b.crc_sizes.deep_view().contains(p) <==> keys.contains(
                RomKeyView::CrcSize(p.0, p.1),
            ));
        },
    }
}

/// Sorts keys by the hash that they are looked up with.
pub fn key_batches(keys: &SortedSet<RomKey>) -> (b: KeyBatches)
    ensures
        lists_keys(b, keys@),
{
    let mut b = KeyBatches { sha1s: Vec::new(), md5s: Vec::new(), crc_sizes: Vec::new() };
    let n = keys.len();
    let ghost members = keys.members();
    let mut i: usize = 0;
    while i < n
        invariant
            i <= n,
            n == members.len(),
            members == keys.members(),
            lists_keys(b, members.take(i as int).to_set()),
        decreases n - i,
    {
        let ghost t = members.take(i as int);
        let ghost u = members.take(i + 1);
        let key = keys.member_at(i);
        let ghost old_b = b;
        let ghost v = key.deep_view();
        proof {
            assert(u =~= t.push(v));
            lemma_push_contains(t, v);
        }
        match key {
            RomKey::Sha1(s) => {
                b.sha1s.push(s.clone());
                proof {
                    assert(b.sha1s.deep_view() =~= old_b.sha1s.deep_view().push(s@));
                    lemma_push_contains(old_b.sha1s.deep_view(), s@);
                }
            },
            RomKey::Md5(m) => {
                b.md5s.push(m.clone());
                proof {
                    assert(b.md5s.deep_view() =~= old_b.md5s.deep_view().push(m@));
                    lemma_push_contains(old_b.md5s.deep_view(), m@);
                }
            },
            RomKey::CrcSize(c, sz) => {
                b.crc_sizes.push((c.clone(), *sz));
                proof {
                    assert(b.crc_sizes.deep_view() =~= old_b.crc_sizes.deep_view().push((c@, *sz)));
                    lemma_push_contains(old_b.crc_sizes.deep_view(), (c@, *sz));
                }
            },
        }
        proof {
            assert(forall|k: RomKeyView| #[trigger]
                u.to_set().contains(k) <==> t.to_set().contains(k) || k == v);
        }
        i = i + 1;
    }
    proof {
        assert(members.take(i as int) =~= members);
        assert(members.to_set() =~= keys@);
    }
    b
}

/// `?,?,...`: bound-parameter placeholders for an SQL `IN` clause.
pub open spec fn placeholder_text(n: nat) -> Seq<char>
    decreases n,
{
    if n == 0 {
        Seq::empty()
    } else if n == 1 {
        seq!['?']
    } else {
        placeholder_text((n - 1) as nat).push(',').push('?')
    }
}

/// There are as many placeholders as values, with a comma between each two.
pub proof fn law_one_placeholder_for_each_value(n: nat, i: int)
    ensures
        placeholder_text(n).len() == (if n == 0 {
            0
        } else {
            2 * n - 1
        }),
        0 <= i < placeholder_text(n).len() ==> placeholder_text(n)[i] == (if i % 2 == 0 {
            '?'
        } else {
            ','
        }),
    decreases n,
{
    if n > 1 {
        law_one_placeholder_for_each_value((n - 1) as nat, i);
    }
}

/// That many bound-parameter placeholders, separated by commas.
pub fn placeholders(n: usize) -> (s: String)
    ensures
        s@ == placeholder_text(n as nat),
{
    let mut s = String::new();
    let mut i: usize = 0;
    while i < n
        invariant
            i <= n,
            s@ == placeholder_text(i as nat),
        decreases n - i,
    {
        if i > 0 {
            s.push(',');
        }
        s.push('?');
        i = i + 1;
        proof {
            if i == 1 {
                assert(s@ =~= seq!['?']);
            }
        }
    }
    s
}

/// The hashes and the size of one ROM row.
#[derive(Debug)]
pub struct RomHashes {
    pub sha1: Option<String>,
    pub md5: Option<String>,
    pub crc32: Option<String>,
    pub size: i64,
}

#[verifier::ext_equal]
pub struct HashesView {
    pub sha1: Option<Seq<char>>,
    pub md5: Option<Seq<char>>,
    pub crc32: Option<Seq<char>>,
    pub size: i64,
}

impl DeepView for RomHashes {
    type V = HashesView;

    open spec fn deep_view(&self) -> HashesView {
        HashesView {
            sha1: self.sha1.deep_view(),
            md5: self.md5.deep_view(),
            crc32: self.crc32.deep_view(),
            size: self.size,
        }
    }
}

/// The size of each key: that of the first row which has it.
pub open spec fn sizes_of(rows: Seq<HashesView>) -> Map<RomKeyView, i64>
    decreases rows.len(),
{
    if rows.len() == 0 {
        Map::empty()
    } else {
        let before = sizes_of(rows.drop_last());
        let row = rows.last();
        match key_from(row.sha1, row.md5, row.crc32, row.size) {
            None => before,
            Some(key) => if before.contains_key(key) {
                before
            } else {
                before.insert(key, row.size)
            },
        }
    }
}

/// The size of a key is that of the first row with the key; a key has a size exactly
/// where some row has the key.
pub proof fn law_first_row_gives_the_size(rows: Seq<HashesView>, i: int)
    requires
        0 <= i < rows.len(),
    ensures
        key_from(rows[i].sha1, rows[i].md5, rows[i].crc32, rows[i].size) matches Some(key) ==> {
            &&& sizes_of(rows).contains_key(key)
            &&& (forall|j: int|
                0 <= j < i ==> key_from(
                    (#[trigger] rows[j]).sha1,
                    rows[j].md5,
                    rows[j].crc32,
                    rows[j].size,
                ) != Some(key)) ==> sizes_of(rows)[key] == rows[i].size
        },
        forall|key: RomKeyView| #[trigger]
            sizes_of(rows).contains_key(key) ==> exists|j: int|
                0 <= j < rows.len() && key_from(
                    (#[trigger] rows[j]).sha1,
                    rows[j].md5,
                    rows[j].crc32,
                    rows[j].size,
                ) == Some(key),
    decreases rows.len(),
{
    let rest = rows.drop_last();
    let last = rows.last();
    assert(rows[rows.len() - 1] == last);
    assert forall|j: int| 0 <= j < rest.len() implies rest[j] == #[trigger] rows[j] by {}
    if rest.len() > 0 {
        law_first_row_gives_the_size(
            rest,
            if i < rest.len() {
                i
            } else {
                0
            },
        );
    }
    assert forall|key: RomKeyView| #[trigger] sizes_of(rows).contains_key(key) implies exists|j: int|
        0 <= j < rows.len() && key_from(
            (#[trigger] rows[j]).sha1,
            rows[j].md5,
            rows[j].crc32,
            rows[j].size,
        ) == Some(key) by {
        if sizes_of(rest).contains_key(key) {
            let j = choose|j: int|
                0 <= j < rest.len() && key_from(
                    (#[trigger] rest[j]).sha1,
                    rest[j].md5,
                    rest[j].crc32,
                    rest[j].size,
                ) == Some(key);
            assert(rows[j] == rest[j]);
        }
    }
    if i == rows.len() - 1 {
        if let Some(key) = key_from(last.sha1, last.md5, last.crc32, last.size) {
            if sizes_of(rest).contains_key(key) {
                let j = choose|j: int|
                    0 <= j < rest.len() && key_from(
                        (#[trigger] rest[j]).sha1,
                        rest[j].md5,
                        rest[j].crc32,
                        rest[j].size,
                    ) == Some(key);
                assert(rows[j] == rest[j]);
            }
        }
    }
}

/// Maps each ROM match key to its size, so that byte totals can be summed over
/// the same unique keys that are counted.
pub fn rom_sizes_by_key(rows: Vec<RomHashes>) -> (r: SortedMap<RomKey, i64>)
    ensures
        r@ == sizes_of(rows.deep_view()),
{
    let ghost all = rows.deep_view();
    let mut map: SortedMap<RomKey, i64> = SortedMap::new();
    let mut i: usize = 0;
    while i < rows.len()
        invariant
            i <= rows@.len(),
            all == rows.deep_view(),
            map@ == sizes_of(all.take(i as int)),
        decreases rows@.len() - i,
    {
        let row = &rows[i];
        proof {
            assert(all.take(i + 1).drop_last() =~= all.take(i as int));
        }
        let key: Option<RomKey> = match &row.sha1 {
            Some(s) => Some(RomKey::Sha1(s.clone())),
            None => match &row.md5 {
                Some(m) => Some(RomKey::Md5(m.clone())),
                None => match &row.crc32 {
                    Some(c) => Some(RomKey::CrcSize(c.clone(), row.size)),
                    None => None,
                },
            },
        };
        if let Some(key) = key {
            if !map.contains_key(&key) {
                map.insert(key, row.size);
            }
        }
        i = i + 1;
    }
    proof {
        assert(all.take(i as int) =~= all);
    }
    map
}

// ---------------------------------------------------------------------------
// Totals
// ---------------------------------------------------------------------------

/// Statistics for merge-mode aware completeness.
#[derive(Clone, Copy, Debug, PartialEq, Eq, Structural)]
pub struct MergeModeStats {
    /// Total games (accounting for merge mode - clones excluded in merged mode)
    pub total_games: usize,
    /// Games that are complete (have all required ROMs)
    pub complete_games: usize,
    /// Games that are partially complete
    pub partial_games: usize,
    /// Games with no ROMs at all
    pub missing_games: usize,
    /// Total unique ROMs required (accounting for merge mode)
    pub total_roms: usize,
    /// ROMs we have
    pub have_roms: usize,
    /// Nodump ROMs excluded from calculations
    pub nodump_roms: usize,
    /// Number of BIOS sets included in counts
    pub bios_sets: usize,
    /// Number of device sets included in counts
    pub device_sets: usize,
    /// Total size in bytes of the unique required ROMs
    pub total_bytes: u64,
    /// Total size in bytes of the required ROMs we have
    pub have_bytes: u64,
}

pub open spec fn requirement_views(reqs: Seq<GameRomRequirements>) -> Seq<RequirementView> {
    Seq::new(reqs.len(), |i: int| reqs[i].deep_view())
}

/// All required keys, game by game.
pub open spec fn all_keys(reqs: Seq<RequirementView>) -> Seq<RomKeyView>
    decreases reqs.len(),
{
    if reqs.len() == 0 {
        Seq::empty()
    } else {
        all_keys(reqs.drop_last()) + reqs.last().required_roms
    }
}

/// How many of the keys are in a set.
pub open spec fn among(keys: Seq<RomKeyView>, have: Set<RomKeyView>) -> nat
    decreases keys.len(),
{
    if keys.len() == 0 {
        0
    } else {
        among(keys.drop_last(), have) + (if have.contains(keys.last()) {
            1nat
        } else {
            0nat
        })
    }
}

/// The size of a key; zero where it is unknown or negative.
pub open spec fn size_of_key(sizes: Map<RomKeyView, i64>, key: RomKeyView) -> nat {
    if sizes.contains_key(key) && sizes[key] > 0 {
        sizes[key] as nat
    } else {
        0
    }
}

/// The bytes of the keys that are in a set.
pub open spec fn bytes_among(
    keys: Seq<RomKeyView>,
    have: Set<RomKeyView>,
    sizes: Map<RomKeyView, i64>,
) -> nat
    decreases keys.len(),
{
    if keys.len() == 0 {
        0
    } else {
        bytes_among(keys.drop_last(), have, sizes) + (if have.contains(keys.last()) {
            size_of_key(sizes, keys.last())
        } else {
            0nat
        })
    }
}

/// How much of a game is there.
#[derive(Clone, Copy, Debug, PartialEq, Eq, Structural)]
pub enum Completeness {
    Complete,
    Partial,
    Missing,
}

/// A game is complete with all its ROMs (or where it needs none), partial with
/// some, missing with none.
pub open spec fn completeness(keys: Seq<RomKeyView>, have: Set<RomKeyView>) -> Completeness {
    if among(keys, have) == keys.len() {
        Completeness::Complete
    } else if among(keys, have) > 0 {
        Completeness::Partial
    } else {
        Completeness::Missing
    }
}

/// How many games have a completeness.
pub open spec fn games_with(
    reqs: Seq<RequirementView>,
    have: Set<RomKeyView>,
    c: Completeness,
) -> nat
    decreases reqs.len(),
{
    if reqs.len() == 0 {
        0
    } else {
        games_with(reqs.drop_last(), have, c) + (if completeness(reqs.last().required_roms, have)
            == c {
            1nat
        } else {
            0nat
        })
    }
}

pub open spec fn nodumps_in(reqs: Seq<RequirementView>) -> nat
    decreases reqs.len(),
{
    if reqs.len() == 0 {
        0
    } else {
        nodumps_in(reqs.drop_last()) + reqs.last().nodump_count as nat
    }
}

pub open spec fn bios_in(reqs: Seq<RequirementView>) -> nat
    decreases reqs.len(),
{
    if reqs.len() == 0 {
        0
    } else {
        bios_in(reqs.drop_last()) + (if reqs.last().is_bios {
            1nat
        } else {
            0nat
        })
    }
}

pub open spec fn devices_in(reqs: Seq<RequirementView>) -> nat
    decreases reqs.len(),
{
    if reqs.len() == 0 {
        0
    } else {
        devices_in(reqs.drop_last()) + (if reqs.last().is_device {
            1nat
        } else {
            0nat
        })
    }
}

/// Whether statistics are those of some requirements, given the held keys and
/// the sizes. ROMs are counted and sized once, however many games need them.
pub open spec fn totals(
    s: MergeModeStats,
    reqs: Seq<RequirementView>,
    have: Set<RomKeyView>,
    sizes: Map<RomKeyView, i64>,
) -> bool {
    let unique = seqs::distinct(all_keys(reqs));
    &&& s.total_games == reqs.len()
    &&& s.complete_games == games_with(reqs, have, Completeness::Complete)
    &&& s.partial_games == games_with(reqs, have, Completeness::Partial)
    &&& s.missing_games == games_with(reqs, have, Completeness::Missing)
    &&& s.total_roms == capped_count(unique.len())
    &&& s.have_roms == capped_count(among(unique, have))
    &&& s.nodump_roms == capped_count(nodumps_in(reqs))
    &&& s.bios_sets == bios_in(reqs)
    &&& s.device_sets == devices_in(reqs)
    &&& s.total_bytes == text::capped(bytes_among(unique, Set::full(), sizes) as int)
    &&& s.have_bytes == text::capped(bytes_among(unique, have, sizes) as int)
}

proof fn lemma_among_bound(
    keys: Seq<RomKeyView>,
    have: Set<RomKeyView>,
    sizes: Map<RomKeyView, i64>,
)
    ensures
        among(keys, have) <= keys.len(),
        bytes_among(keys, have, sizes) <= bytes_among(keys, Set::full(), sizes),
    decreases keys.len(),
{
    if keys.len() > 0 {
        lemma_among_bound(keys.drop_last(), have, sizes);
    }
}

proof fn lemma_games_add_up(reqs: Seq<RequirementView>, have: Set<RomKeyView>)
    ensures
        games_with(reqs, have, Completeness::Complete) + games_with(
            reqs,
            have,
            Completeness::Partial,
        ) + games_with(reqs, have, Completeness::Missing) == reqs.len(),
    decreases reqs.len(),
{
    if reqs.len() > 0 {
        lemma_games_add_up(reqs.drop_last(), have);
    }
}

/// Every game is complete, partial or missing; and of ROMs and bytes there is
/// never more at hand than is required.
pub proof fn law_totals_are_consistent(
    s: MergeModeStats,
    reqs: Seq<RequirementView>,
    have: Set<RomKeyView>,
    sizes: Map<RomKeyView, i64>,
)
    requires
        totals(s, reqs, have, sizes),
    ensures
        s.complete_games + s.partial_games + s.missing_games == s.total_games,
        s.have_roms <= s.total_roms,
        s.have_bytes <= s.total_bytes,
{
    lemma_games_add_up(reqs, have);
    lemma_among_bound(seqs::distinct(all_keys(reqs)), have, sizes);
}

proof fn lemma_among_all(keys: Seq<RomKeyView>, have: Set<RomKeyView>)
    ensures
        among(keys, have) <= keys.len(),
        among(keys, have) == keys.len() <==> forall|i: int|
            0 <= i < keys.len() ==> have.contains(#[trigger] keys[i]),
        among(keys, have) == 0 <==> forall|i: int|
            0 <= i < keys.len() ==> !have.contains(#[trigger] keys[i]),
    decreases keys.len(),
{
    if keys.len() > 0 {
        let rest = keys.drop_last();
        lemma_among_all(rest, have);
        assert(keys[keys.len() - 1] == keys.last());
        assert forall|i: int| 0 <= i < rest.len() implies rest[i] == #[trigger] keys[i] by {}
        if among(rest, have) == rest.len() {
            assert forall|i: int| 0 <= i < rest.len() implies have.contains(#[trigger] keys[i]) by {
                assert(rest[i] == keys[i]);
            }
        } else {
            let i = choose|i: int| 0 <= i < rest.len() && !have.contains(#[trigger] rest[i]);
            assert(!have.contains(keys[i]));
        }
        if among(rest, have) == 0 {
            assert forall|i: int| 0 <= i < rest.len() implies !have.contains(#[trigger] keys[i]) by {
                assert(rest[i] == keys[i]);
            }
        } else {
            let i = choose|i: int| 0 <= i < rest.len() && have.contains(#[trigger] rest[i]);
            assert(have.contains(keys[i]));
        }
    }
}

/// A game is complete exactly where every key that it requires is held, missing
/// exactly where it requires some and none of them is held, and partial where some
/// are held and some are not.
pub proof fn law_complete_means_every_key_is_held(keys: Seq<RomKeyView>, have: Set<RomKeyView>)
    ensures
        completeness(keys, have) is Complete <==> forall|i: int|
            0 <= i < keys.len() ==> have.contains(#[trigger] keys[i]),
        completeness(keys, have) is Missing <==> keys.len() > 0 && forall|i: int|
            0 <= i < keys.len() ==> !have.contains(#[trigger] keys[i]),
        completeness(keys, have) is Partial <==> (exists|i: int|
            0 <= i < keys.len() && have.contains(#[trigger] keys[i])) && (exists|i: int|
            0 <= i < keys.len() && !have.contains(#[trigger] keys[i])),
{
    lemma_among_all(keys, have);
    if keys.len() > 0 {
        assert(have.contains(keys[0]) || !have.contains(keys[0]));
    }
}

/// Whether every key that a game requires is held.
pub open spec fn all_held(r: RequirementView, have: Set<RomKeyView>) -> bool {
    forall|i: int|
        0 <= i < r.required_roms.len() ==> have.contains(#[trigger] r.required_roms[i])
}

/// Whether no key that a game requires is held.
pub open spec fn none_held(r: RequirementView, have: Set<RomKeyView>) -> bool {
    forall|i: int|
        0 <= i < r.required_roms.len() ==> !have.contains(#[trigger] r.required_roms[i])
}

proof fn lemma_games_filtered(reqs: Seq<RequirementView>, have: Set<RomKeyView>)
    ensures
        games_with(reqs, have, Completeness::Complete) == reqs.filter(
            |r: RequirementView| all_held(r, have),
        ).len(),
        games_with(reqs, have, Completeness::Missing) == reqs.filter(
            |r: RequirementView| r.required_roms.len() > 0 && none_held(r, have),
        ).len(),
        bios_in(reqs) == reqs.filter(|r: RequirementView| r.is_bios).len(),
        devices_in(reqs) == reqs.filter(|r: RequirementView| r.is_device).len(),
    decreases reqs.len(),
{
    reveal(Seq::filter);
    if reqs.len() > 0 {
        lemma_games_filtered(reqs.drop_last(), have);
        law_complete_means_every_key_is_held(reqs.last().required_roms, have);
    }
}

/// The totals count games by what is held of them: complete those of which every key
/// is held, missing those that require some key and of which none is held, partial
/// all others.
pub proof fn law_totals_count_games_by_what_is_held(
    s: MergeModeStats,
    reqs: Seq<RequirementView>,
    have: Set<RomKeyView>,
    sizes: Map<RomKeyView, i64>,
)
    requires
        totals(s, reqs, have, sizes),
    ensures
        s.total_games == reqs.len(),
        s.complete_games == reqs.filter(|r: RequirementView| all_held(r, have)).len(),
        s.missing_games == reqs.filter(
            |r: RequirementView| r.required_roms.len() > 0 && none_held(r, have),
        ).len(),
        s.partial_games == s.total_games - s.complete_games - s.missing_games,
        s.bios_sets == reqs.filter(|r: RequirementView| r.is_bios).len(),
        s.device_sets == reqs.filter(|r: RequirementView| r.is_device).len(),
{
    lemma_games_add_up(reqs, have);
    lemma_games_filtered(reqs, have);
}

/// Whether some game requires a key.
pub open spec fn required_by_some(reqs: Seq<RequirementView>, k: RomKeyView) -> bool {
    exists|i: int| 0 <= i < reqs.len() && (#[trigger] reqs[i]).required_roms.contains(k)
}

proof fn lemma_all_keys(reqs: Seq<RequirementView>, k: RomKeyView)
    ensures
        all_keys(reqs).contains(k) <==> required_by_some(reqs, k),
    decreases reqs.len(),
{
    if reqs.len() > 0 {
        let rest = reqs.drop_last();
        let a = all_keys(rest);
        let b = reqs.last().required_roms;
        lemma_all_keys(rest, k);
        if a.contains(k) {
            let i = choose|i: int| 0 <= i < a.len() && a[i] == k;
            assert((a + b)[i] == k);
            let j = choose|j: int|
                0 <= j < rest.len() && (#[trigger] rest[j]).required_roms.contains(k);
            assert(reqs[j] == rest[j]);
        }
        if b.contains(k) {
            let i = choose|i: int| 0 <= i < b.len() && b[i] == k;
            assert((a + b)[a.len() + i] == k);
            assert(reqs[reqs.len() - 1].required_roms.contains(k));
        }
        if (a + b).contains(k) {
            let i = choose|i: int| 0 <= i < (a + b).len() && (a + b)[i] == k;
            if i < a.len() {
                assert(a[i] == k);
            } else {
                assert(b[i - a.len()] == k);
            }
        }
        if required_by_some(reqs, k) {
            let j = choose|j: int|
                0 <= j < reqs.len() && (#[trigger] reqs[j]).required_roms.contains(k);
            if j < rest.len() {
                assert(rest[j] == reqs[j]);
            }
        }
    }
}

/// Whether a list holds each required key once, and nothing else.
pub open spec fn lists_required(u: Seq<RomKeyView>, reqs: Seq<RequirementView>) -> bool {
    &&& u.no_duplicates()
    &&& forall|k: RomKeyView| #[trigger] u.contains(k) <==> required_by_some(reqs, k)
}

proof fn lemma_among_filter(
    u: Seq<RomKeyView>,
    have: Set<RomKeyView>,
    sizes: Map<RomKeyView, i64>,
)
    ensures
        among(u, have) == u.filter(|k: RomKeyView| have.contains(k)).len(),
    decreases u.len(),
{
    reveal(Seq::filter);
    if u.len() > 0 {
        lemma_among_filter(u.drop_last(), have, sizes);
    }
}

proof fn lemma_among_append(
    a: Seq<RomKeyView>,
    b: Seq<RomKeyView>,
    have: Set<RomKeyView>,
    sizes: Map<RomKeyView, i64>,
)
    ensures
        among(a + b, have) == among(a, have) + among(b, have),
        bytes_among(a + b, have, sizes) == bytes_among(a, have, sizes) + bytes_among(
            b,
            have,
            sizes,
        ),
    decreases b.len(),
{
    if b.len() == 0 {
        assert(a + b =~= a);
    } else {
        assert((a + b).drop_last() =~= a + b.drop_last());
        assert((a + b).last() == b.last());
        lemma_among_append(a, b.drop_last(), have, sizes);
    }
}

/// Lists of the same keys, each once, have as many of them, of which as many are
/// held, and which come to as many bytes.
proof fn lemma_same_keys(
    u: Seq<RomKeyView>,
    w: Seq<RomKeyView>,
    have: Set<RomKeyView>,
    sizes: Map<RomKeyView, i64>,
)
    requires
        u.no_duplicates(),
        w.no_duplicates(),
        forall|k: RomKeyView| #[trigger] u.contains(k) <==> w.contains(k),
    ensures
        u.len() == w.len(),
        among(u, have) == among(w, have),
        bytes_among(u, have, sizes) == bytes_among(w, have, sizes),
    decreases u.len(),
{
    if u.len() == 0 {
        if w.len() > 0 {
            assert(w.contains(w[0]));
            assert(u.contains(w[0]));
        }
    } else {
        let x = u.last();
        assert(u[u.len() - 1] == x);
        assert(u.contains(x));
        let i = choose|i: int| 0 <= i < w.len() && w[i] == x;
        let head = w.take(i);
        let tail = w.skip(i + 1);
        let one = seq![x];
        let rest = head + tail;
        assert(w =~= head + one + tail);
        lemma_among_append(head + one, tail, have, sizes);
        lemma_among_append(head, one, have, sizes);
        lemma_among_append(head, tail, have, sizes);
        assert(one.drop_last() =~= Seq::empty());
        assert(among(one.drop_last(), have) == 0);
        assert(bytes_among(one.drop_last(), have, sizes) == 0);
        let before = u.drop_last();
        assert forall|a: int, b: int| 0 <= a < rest.len() && 0 <= b < rest.len() && a
            != b implies rest[a] != rest[b] by {
            let a2 = if a < i {
                a
            } else {
                a + 1
            };
            let b2 = if b < i {
                b
            } else {
                b + 1
            };
            assert(rest[a] == w[a2] && rest[b] == w[b2]);
        }
        assert forall|k: RomKeyView| #[trigger] before.contains(k) <==> rest.contains(k) by {
            assert(u.contains(k) <==> w.contains(k));
            if before.contains(k) {
                let j = choose|j: int| 0 <= j < before.len() && before[j] == k;
                assert(u[j] == k && u[j] != u[u.len() - 1]);
                let m = choose|m: int| 0 <= m < w.len() && w[m] == k;
                if m < i {
                    assert(rest[m] == k);
                } else {
                    assert(rest[m - 1] == k);
                }
            }
            if rest.contains(k) {
                let m = choose|m: int| 0 <= m < rest.len() && rest[m] == k;
                let m2 = if m < i {
                    m
                } else {
                    m + 1
                };
                assert(w[m2] == k && m2 != i);
                assert(w.contains(k));
                let j = choose|j: int| 0 <= j < u.len() && u[j] == k;
                assert(k != x);
                assert(before[j] == k);
            }
        }
        lemma_same_keys(before, rest, have, sizes);
    }
}

/// ROMs and bytes are counted over the keys that any game requires, each once,
/// however many games share it and whatever order they come in; those at hand over
/// the keys among them that are held.
pub proof fn law_each_required_rom_counts_once(
    s: MergeModeStats,
    reqs: Seq<RequirementView>,
    have: Set<RomKeyView>,
    sizes: Map<RomKeyView, i64>,
    u: Seq<RomKeyView>,
)
    requires
        totals(s, reqs, have, sizes),
        lists_required(u, reqs),
        u.len() <= usize::MAX,
    ensures
        s.total_roms == u.len(),
        s.have_roms == u.filter(|k: RomKeyView| have.contains(k)).len(),
        byte_sum(u, sizes) <= u64::MAX ==> s.total_bytes == byte_sum(u, sizes),
        byte_sum(u.filter(|k: RomKeyView| have.contains(k)), sizes) <= u64::MAX ==> s.have_bytes
            == byte_sum(u.filter(|k: RomKeyView| have.contains(k)), sizes),
{
    let unique = seqs::distinct(all_keys(reqs));
    seqs::lemma_distinct(all_keys(reqs));
    assert forall|k: RomKeyView| #[trigger] unique.contains(k) <==> u.contains(k) by {
        lemma_all_keys(reqs, k);
        assert(u.contains(k) <==> required_by_some(reqs, k));
        assert(unique.contains(k) <==> all_keys(reqs).contains(k));
    }
    lemma_same_keys(unique, u, have, sizes);
    lemma_same_keys(unique, u, Set::full(), sizes);
    lemma_among_filter(u, have, sizes);
    lemma_among_all(u, have);
    lemma_byte_sum(u, have, sizes);
}

/// The sizes of keys added up; one that is unknown or negative counts nothing.
pub open spec fn byte_sum(u: Seq<RomKeyView>, sizes: Map<RomKeyView, i64>) -> int {
    u.fold_left(
        0int,
        |sum: int, k: RomKeyView|
            sum + if sizes.contains_key(k) && sizes[k] > 0 {
                sizes[k] as int
            } else {
                0
            },
    )
}

proof fn lemma_byte_sum(u: Seq<RomKeyView>, have: Set<RomKeyView>, sizes: Map<RomKeyView, i64>)
    ensures
        byte_sum(u, sizes) == bytes_among(u, Set::full(), sizes),
        byte_sum(u.filter(|k: RomKeyView| have.contains(k)), sizes) == bytes_among(u, have, sizes),
    decreases u.len(),
{
    reveal(Seq::filter);
    reveal_with_fuel(Seq::fold_left, 2);
    if u.len() > 0 {
        let held = |k: RomKeyView| have.contains(k);
        lemma_byte_sum(u.drop_last(), have, sizes);
        if have.contains(u.last()) {
            let f = u.filter(held);
            assert(f.drop_last() =~= u.drop_last().filter(held));
            assert(f.last() == u.last());
        }
    }
}

/// The keys that any of the games requires.
pub fn required_keys(reqs: &[GameRomRequirements]) -> (r: SortedSet<RomKey>)
    ensures
        forall|k: RomKeyView|
            #[trigger] r@.contains(k) <==> all_keys(requirement_views(reqs@)).contains(k),
{
    let ghost all = requirement_views(reqs@);
    let mut set: SortedSet<RomKey> = SortedSet::new();
    let mut i: usize = 0;
    while i < reqs.len()
        invariant
            i <= reqs@.len(),
            all == requirement_views(reqs@),
            forall|k: RomKeyView|
                #[trigger] set@.contains(k) <==> all_keys(all.take(i as int)).contains(k),
        decreases reqs@.len() - i,
    {
        let ghost before = all_keys(all.take(i as int));
        let ghost keys = reqs@[i as int].required_roms.deep_view();
        proof {
            assert(all.take(i + 1).drop_last() =~= all.take(i as int));
            assert(before + keys.take(0) =~= before);
        }
        let mut j: usize = 0;
        while j < reqs[i as usize].required_roms.len()
            invariant
                i < reqs@.len(),
                j <= reqs@[i as int].required_roms@.len(),
                keys == reqs@[i as int].required_roms.deep_view(),
                forall|k: RomKeyView|
                    #[trigger] set@.contains(k) <==> (before + keys.take(j as int)).contains(k),
            decreases reqs@[i as int].required_roms@.len() - j,
        {
            let key = &reqs[i].required_roms[j];
            let ghost s0 = set@;
            set.insert(key.clone());
            proof {
                let a = before + keys.take(j as int);
                assert(before + keys.take(j + 1) =~= a.push(key.deep_view()));
                lemma_push_contains(a, key.deep_view());
            }
            j = j + 1;
        }
        proof {
            assert(keys.take(j as int) =~= keys);
        }
        i = i + 1;
    }
    proof {
        assert(all.take(i as int) =~= all);
    }
    set
}

/// Merge-mode aware completeness statistics: over the requirements of a
/// version's games, the keys that the inventory holds and the sizes of keys.
pub fn calculate_merge_mode_stats(
    reqs: &[GameRomRequirements],
    have: &SortedSet<RomKey>,
    size_by_key: &SortedMap<RomKey, i64>,
) -> (s: MergeModeStats)
    ensures
        totals(s, requirement_views(reqs@), have@, size_by_key@),
{
    let ghost all = requirement_views(reqs@);
    let mut s = MergeModeStats {
        total_games: reqs.len(),
        complete_games: 0,
        partial_games: 0,
        missing_games: 0,
        total_roms: 0,
        have_roms: 0,
        nodump_roms: 0,
        bios_sets: 0,
        device_sets: 0,
        total_bytes: 0,
        have_bytes: 0,
    };
    let mut seen: SortedSet<RomKey> = SortedSet::new();
    let mut i: usize = 0;
    while i < reqs.len()
        invariant
            i <= reqs@.len(),
            all == requirement_views(reqs@),
            s.total_games == reqs@.len(),
            totals(
                (MergeModeStats { total_games: i, ..s }),
                all.take(i as int),
                have@,
                size_by_key@,
            ),
            forall|k: RomKeyView|
                #[trigger] seen@.contains(k) <==> all_keys(all.take(i as int)).contains(k),
        decreases reqs@.len() - i,
    {
        let req = &reqs[i];
        let ghost before = all_keys(all.take(i as int));
        let ghost keys = req.required_roms.deep_view();
        let ghost s0 = s;
        proof {
            assert(all.take(i + 1).drop_last() =~= all.take(i as int));
            lemma_games_add_up(all.take(i as int), have@);
            lemma_bound_sets(all.take(i as int));
            assert(before + keys.take(0) =~= before);
        }
        let mut held_here: usize = 0;
        let mut j: usize = 0;
        while j < req.required_roms.len()
            invariant
                i < reqs@.len(),
                req == reqs@[i as int],
                j <= req.required_roms@.len(),
                keys == req.required_roms.deep_view(),
                held_here <= j,
                held_here == among(keys.take(j as int), have@),
                s == (MergeModeStats {
                    total_roms: s.total_roms,
                    have_roms: s.have_roms,
                    total_bytes: s.total_bytes,
                    have_bytes: s.have_bytes,
                    ..s0
                }),
                ({
                    let unique = seqs::distinct(before + keys.take(j as int));
                    &&& s.total_roms == capped_count(unique.len())
                    &&& s.have_roms == capped_count(among(unique, have@))
                    &&& s.total_bytes == text::capped(
                        bytes_among(unique, Set::full(), size_by_key@) as int,
                    )
                    &&& s.have_bytes == text::capped(
                        bytes_among(unique, have@, size_by_key@) as int,
                    )
                }),
                forall|k: RomKeyView|
                    #[trigger] seen@.contains(k) <==> (before + keys.take(j as int)).contains(k),
            decreases req.required_roms@.len() - j,
        {
            let key = &req.required_roms[j];
            let ghost a = before + keys.take(j as int);
            let ghost v = key.deep_view();
            proof {
                assert(keys.take(j + 1).drop_last() =~= keys.take(j as int));
                assert(before + keys.take(j + 1) =~= a.push(v));
                assert(a.push(v).drop_last() =~= a);
                lemma_push_contains(a, v);
            }
            let mine = have.has(key);
            if mine {
                held_here = held_here + 1;
            }
            if !seen.has(key) {
                let size: u64 = match size_by_key.get(key) {
                    Some(n) => if *n > 0 {
                        *n as u64
                    } else {
                        0
                    },
                    None => 0,
                };
                proof {
                    let d = seqs::distinct(a);
                    assert(seqs::distinct(a.push(v)) == d.push(v));
                    assert(d.push(v).drop_last() =~= d);
                }
                s.total_roms = s.total_roms.saturating_add(1);
                s.total_bytes = s.total_bytes.saturating_add(size);
                if mine {
                    s.have_roms = s.have_roms.saturating_add(1);
                    s.have_bytes = s.have_bytes.saturating_add(size);
                }
                seen.insert(key.clone());
            }
            j = j + 1;
        }
        proof {
            assert(keys.take(j as int) =~= keys);
        }
        if held_here == req.required_roms.len() {
            s.complete_games = s.complete_games + 1;
        } else if held_here > 0 {
            s.partial_games = s.partial_games + 1;
        } else {
            s.missing_games = s.missing_games + 1;
        }
        s.nodump_roms = s.nodump_roms.saturating_add(req.nodump_count);
        if req.is_bios {
            s.bios_sets = s.bios_sets + 1;
        }
        if req.is_device {
            s.device_sets = s.device_sets + 1;
        }
        i = i + 1;
    }
    proof {
        assert(all.take(i as int) =~= all);
    }
    s
}

proof fn lemma_bound_sets(reqs: Seq<RequirementView>)
    ensures
        bios_in(reqs) <= reqs.len(),
        devices_in(reqs) <= reqs.len(),
    decreases reqs.len(),
{
    if reqs.len() > 0 {
        lemma_bound_sets(reqs.drop_last());
    }
}

} // verus!
