//! Matching: which held files have the content that the ROMs of a DAT ask for,
//! and which content and containers more than one of them depends on.

use super::types::{MatchView, MatchedRom};
use crate::db::dats::stats;
use crate::db::dats::stats::RomKeyView;
use crate::db::dats::types::{DatRom, MergeMode, RomView};
use crate::seqs;
use crate::sorted_map::{SortedMap, SortedSet};
use crate::text;
use vstd::prelude::*;

verus! {

/// A ROM as a DAT lists it.
pub struct ListedRom {
    /// The version of the DAT
    pub version_id: i64,
    pub game_name: String,
    /// Whether the game is a clone of another
    pub is_clone: bool,
    pub rom: DatRom,
}

#[verifier::ext_equal]
pub struct ListedView {
    pub version_id: i64,
    pub game_name: Seq<char>,
    pub is_clone: bool,
    pub rom: RomView,
}

impl DeepView for ListedRom {
    type V = ListedView;

    open spec fn deep_view(&self) -> ListedView {
        ListedView {
            version_id: self.version_id,
            game_name: self.game_name@,
            is_clone: self.is_clone,
            rom: self.rom.deep_view(),
        }
    }
}

/// A file that is held, at one of its locations.
pub struct HeldFile {
    pub sha1: String,
    pub md5: Option<String>,
    pub crc32: Option<String>,
    pub size: i64,
    pub source_root: String,
    /// The path below the source root
    pub source_path: String,
    /// The entry inside the file at that path, where it is an archive
    pub archive_path: Option<String>,
}

#[verifier::ext_equal]
pub struct HeldView {
    pub sha1: Seq<char>,
    pub md5: Option<Seq<char>>,
    pub crc32: Option<Seq<char>>,
    pub size: i64,
    pub source_root: Seq<char>,
    pub source_path: Seq<char>,
    pub archive_path: Option<Seq<char>>,
}

impl DeepView for HeldFile {
    type V = HeldView;

    open spec fn deep_view(&self) -> HeldView {
        HeldView {
            sha1: self.sha1@,
            md5: self.md5.deep_view(),
            crc32: self.crc32.deep_view(),
            size: self.size,
            source_root: self.source_root@,
            source_path: self.source_path@,
            archive_path: self.archive_path.deep_view(),
        }
    }
}

/// Whether a file has the content of a ROM, by the best hash that the DAT gives.
pub open spec fn fits(rom: RomView, f: HeldView) -> bool {
    match stats::key_of(rom) {
        Some(RomKeyView::Sha1(s)) => f.sha1 == s,
        Some(RomKeyView::Md5(m)) => f.md5 == Some(m),
        Some(RomKeyView::CrcSize(c, n)) => f.crc32 == Some(c) && f.size == n,
        None => false,
    }
}

/// Whether a ROM is one that a clone inherits from its parent.
pub open spec fn inherited(l: ListedView) -> bool {
    l.is_clone && l.rom.merge_tag is Some
}

/// A match of a ROM with a file.
pub open spec fn match_of(l: ListedView, f: HeldView) -> MatchView {
    MatchView {
        game_name: l.game_name,
        rom_name: l.rom.name,
        sha1: f.sha1,
        size: f.size,
        source_path: f.source_path,
        source_root: f.source_root,
        archive_path: f.archive_path,
        is_disk: l.rom.is_disk,
    }
}

/// The matches of one ROM, in the order of the files.
pub open spec fn matches_of(l: ListedView, held: Seq<HeldView>) -> Seq<MatchView> {
    held.filter(|f: HeldView| fits(l.rom, f)).map_values(|f: HeldView| match_of(l, f))
}

/// The matches of some ROMs, one after the other. Where asked to, the ROMs that
/// clones inherit are left out: they belong to the parent.
pub open spec fn matched(
    listed: Seq<ListedView>,
    held: Seq<HeldView>,
    drop_inherited: bool,
) -> Seq<MatchView>
    decreases listed.len(),
{
    if listed.len() == 0 {
        Seq::empty()
    } else {
        let before = matched(listed.drop_last(), held, drop_inherited);
        if drop_inherited && inherited(listed.last()) {
            before
        } else {
            before + matches_of(listed.last(), held)
        }
    }
}

/// Whether a file has the content of a ROM.
pub fn rom_fits(rom: &DatRom, f: &HeldFile) -> (r: bool)
    ensures
        r == fits(rom.deep_view(), f.deep_view()),
{
    match (&rom.sha1, &rom.md5, &rom.crc32) {
        (Some(s), _, _) => text::str_eq(f.sha1.as_str(), s.as_str()),
        (None, Some(m), _) => match &f.md5 {
            Some(have) => text::str_eq(have.as_str(), m.as_str()),
            None => false,
        },
        (None, None, Some(c)) => match &f.crc32 {
            Some(have) => text::str_eq(have.as_str(), c.as_str()) && f.size == rom.size,
            None => false,
        },
        (None, None, None) => false,
    }
}

fn add_matches(out: &mut Vec<MatchedRom>, l: &ListedRom, held: &Vec<HeldFile>)
    ensures
        final(out).deep_view() == old(out).deep_view() + matches_of(
            l.deep_view(),
            held.deep_view(),
        ),
{
    let ghost fs = held.deep_view();
    let ghost lv = l.deep_view();
    let ghost start = out.deep_view();
    let mut k: usize = 0;
    proof {
        reveal(Seq::filter);
        assert(matches_of(lv, fs.take(0)) =~= Seq::empty());
        assert(start + Seq::<MatchView>::empty() =~= start);
    }
    while k < held.len()
        invariant
            k <= held@.len(),
            fs == held.deep_view(),
            lv == l.deep_view(),
            out.deep_view() == start + matches_of(lv, fs.take(k as int)),
        decreases held@.len() - k,
    {
        let f = &held[k];
        let ghost before = out.deep_view();
        proof {
            assert(fs.take(k + 1).drop_last() =~= fs.take(k as int));
            reveal_with_fuel(Seq::filter, 2);
        }
        if rom_fits(&l.rom, f) {
            out.push(
                MatchedRom {
                    game_name: l.game_name.clone(),
                    rom_name: l.rom.name.clone(),
                    sha1: f.sha1.clone(),
                    size: f.size,
                    source_path: f.source_path.clone(),
                    source_root: f.source_root.clone(),
                    archive_path: text::clone_opt(&f.archive_path),
                    is_disk: l.rom.is_disk,
                },
            );
            proof {
                let m = match_of(lv, fs[k as int]);
                assert(out.deep_view() =~= before.push(m));
                assert(matches_of(lv, fs.take(k + 1)) =~= matches_of(lv, fs.take(k as int)).push(
                    m,
                ));
                assert(out.deep_view() =~= start + matches_of(lv, fs.take(k + 1)));
            }
        } else {
            proof {
                assert(matches_of(lv, fs.take(k + 1)) =~= matches_of(lv, fs.take(k as int)));
            }
        }
        k = k + 1;
    }
    proof {
        assert(fs.take(k as int) =~= fs);
    }
}

/// Finds the matches of a DAT's ROMs among the files that are held.
pub fn find_matched_roms(
    listed: &Vec<ListedRom>,
    held: &Vec<HeldFile>,
    drop_inherited: bool,
) -> (r: Vec<MatchedRom>)
    ensures
        r.deep_view() == matched(listed.deep_view(), held.deep_view(), drop_inherited),
{
    let ghost ls = listed.deep_view();
    let ghost fs = held.deep_view();
    let mut r: Vec<MatchedRom> = Vec::new();
    let mut i: usize = 0;
    proof {
        assert(r.deep_view() =~= matched(ls.take(0), fs, drop_inherited));
    }
    while i < listed.len()
        invariant
            i <= listed@.len(),
            ls == listed.deep_view(),
            fs == held.deep_view(),
            r.deep_view() == matched(ls.take(i as int), fs, drop_inherited),
        decreases listed@.len() - i,
    {
        let l = &listed[i];
        proof {
            assert(ls.take(i + 1).drop_last() =~= ls.take(i as int));
        }
        if !(drop_inherited && l.is_clone && l.rom.merge_tag.is_some()) {
            add_matches(&mut r, l, held);
        }
        i = i + 1;
    }
    proof {
        assert(ls.take(i as int) =~= ls);
    }
    r
}

/// The matches of a collection in its merge mode: in split mode a clone is placed
/// with its own ROMs only.
pub fn load_collection_matches(
    listed: &Vec<ListedRom>,
    held: &Vec<HeldFile>,
    mode: MergeMode,
) -> (r: Vec<MatchedRom>)
    ensures
        r.deep_view() == matched(listed.deep_view(), held.deep_view(), mode is Split),
{
    find_matched_roms(listed, held, mode == MergeMode::Split)
}

/// Counts matches, but no further than one past a limit: that is enough to tell
/// that there are too many.
pub fn count_match_rows_capped(
    listed: &Vec<ListedRom>,
    held: &Vec<HeldFile>,
    limit: usize,
) -> (r: usize)
    requires
        limit < usize::MAX,
    ensures
        ({
            let rows = matched(listed.deep_view(), held.deep_view(), false).len();
            r == (if rows > limit {
                limit + 1
            } else {
                rows as int
            })
        }),
{
    let ghost ls = listed.deep_view();
    let ghost fs = held.deep_view();
    let mut n: usize = 0;
    let mut i: usize = 0;
    while i < listed.len()
        invariant
            i <= listed@.len(),
            ls == listed.deep_view(),
            fs == held.deep_view(),
            n <= limit,
            limit < usize::MAX,
            n == matched(ls.take(i as int), fs, false).len(),
        decreases listed@.len() - i,
    {
        let l = &listed[i];
        let ghost lv = l.deep_view();
        let ghost base = n as int;
        let mut k: usize = 0;
        proof {
            assert(ls.take(i + 1).drop_last() =~= ls.take(i as int));
            reveal(Seq::filter);
            assert(matches_of(lv, fs.take(0)).len() == 0);
        }
        while k < held.len()
            invariant
                k <= held@.len(),
                i < listed@.len(),
                ls == listed.deep_view(),
                fs == held.deep_view(),
                lv == l.deep_view(),
                lv == ls[i as int],
                ls.take(i + 1).drop_last() == ls.take(i as int),
                base == matched(ls.take(i as int), fs, false).len(),
                n <= limit,
                limit < usize::MAX,
                n == base + matches_of(lv, fs.take(k as int)).len(),
            decreases held@.len() - k,
        {
            proof {
                assert(fs.take(k + 1).drop_last() =~= fs.take(k as int));
                reveal_with_fuel(Seq::filter, 2);
            }
            if rom_fits(&l.rom, &held[k]) {
                if n == limit {
                    proof {
                        lemma_matches_grow(lv, fs, k + 1);
                        lemma_matched_grows(ls, fs, i + 1);
                        assert(matched(ls.take(i + 1), fs, false).len() == base + matches_of(
                            lv,
                            fs,
                        ).len());
                    }
                    return limit + 1;
                }
                n = n + 1;
            }
            k = k + 1;
        }
        proof {
            assert(fs.take(k as int) =~= fs);
        }
        i = i + 1;
    }
    proof {
        assert(ls.take(i as int) =~= ls);
    }
    n
}

proof fn lemma_matches_grow(l: ListedView, held: Seq<HeldView>, n: int)
    requires
        0 <= n <= held.len(),
    ensures
        matches_of(l, held.take(n)).len() <= matches_of(l, held).len(),
    decreases held.len(),
{
    if n == held.len() {
        assert(held.take(n) =~= held);
    } else {
        assert(held.drop_last().take(n) =~= held.take(n));
        lemma_matches_grow(l, held.drop_last(), n);
        reveal(Seq::filter);
    }
}

proof fn lemma_matched_grows(listed: Seq<ListedView>, held: Seq<HeldView>, n: int)
    requires
        0 <= n <= listed.len(),
    ensures
        matched(listed.take(n), held, false).len() <= matched(listed, held, false).len(),
    decreases listed.len(),
{
    if n == listed.len() {
        assert(listed.take(n) =~= listed);
    } else {
        assert(listed.drop_last().take(n) =~= listed.take(n));
        lemma_matched_grows(listed.drop_last(), held, n);
    }
}

/// In split mode a clone keeps only what is its own: no match of a ROM that it
/// inherits is left.
pub proof fn law_split_leaves_inherited_to_parent(
    listed: Seq<ListedView>,
    held: Seq<HeldView>,
    i: int,
)
    requires
        0 <= i < matched(listed, held, true).len(),
    ensures
        exists|j: int, k: int|
            0 <= j < listed.len() && 0 <= k < held.len() && !inherited(listed[j]) && fits(
                listed[j].rom,
                held[k],
            ) && matched(listed, held, true)[i] == #[trigger] match_of(listed[j], held[k]),
    decreases listed.len(),
{
    let l = listed.last();
    let before = matched(listed.drop_last(), held, true);
    let all = matched(listed, held, true);
    if i < before.len() {
        law_split_leaves_inherited_to_parent(listed.drop_last(), held, i);
        let (j, k) = choose|j: int, k: int|
            0 <= j < listed.drop_last().len() && 0 <= k < held.len() && !inherited(
                listed.drop_last()[j],
            ) && fits(listed.drop_last()[j].rom, held[k]) && before[i] == #[trigger] match_of(
                listed.drop_last()[j],
                held[k],
            );
        assert(listed[j] == listed.drop_last()[j]);
        assert(all[i] == match_of(listed[j], held[k]));
    } else {
        let f = |h: HeldView| fits(l.rom, h);
        let m = i - before.len();
        seqs::lemma_filter_members(held, f);
        let h = held.filter(f)[m];
        assert(held.filter(f).contains(h));
        let k = choose|k: int| 0 <= k < held.len() && held[k] == h;
        let j = listed.len() - 1;
        assert(all[i] == match_of(listed[j], held[k]));
    }
}

/// A file has the content of a ROM by the best hash that the DAT gives: by SHA1
/// wherever the ROM has one, and then by nothing else; else by MD5; else by CRC32 and
/// size together. A ROM without a hash is matched by nothing.
pub proof fn law_best_hash_decides(rom: RomView, f: HeldView)
    ensures
        rom.sha1 is Some ==> (fits(rom, f) <==> Some(f.sha1) == rom.sha1),
        rom.sha1 is None && rom.md5 is Some ==> (fits(rom, f) <==> f.md5 == rom.md5),
        rom.sha1 is None && rom.md5 is None && rom.crc32 is Some ==> (fits(rom, f) <==> f.crc32
            == rom.crc32 && f.size == rom.size),
        rom.sha1 is None && rom.md5 is None && rom.crc32 is None ==> !fits(rom, f),
{
}

/// Whether a match is of a listed ROM with a held file: named by the DAT, located,
/// hashed and sized by the file.
pub open spec fn is_match(m: MatchView, l: ListedView, f: HeldView) -> bool {
    &&& m.game_name == l.game_name
    &&& m.rom_name == l.rom.name
    &&& m.is_disk == l.rom.is_disk
    &&& m.sha1 == f.sha1
    &&& m.size == f.size
    &&& m.source_root == f.source_root
    &&& m.source_path == f.source_path
    &&& m.archive_path == f.archive_path
}

/// The matches are those of the listed ROMs with the files that have their content:
/// each such pair gives one, and nothing else does; only what a clone inherits is left
/// out, where that is asked for.
pub proof fn law_matches_pair_roms_with_their_files(
    listed: Seq<ListedView>,
    held: Seq<HeldView>,
    drop_inherited: bool,
    m: MatchView,
)
    ensures
        matched(listed, held, drop_inherited).contains(m) <==> exists|j: int, k: int|
            0 <= j < listed.len() && 0 <= k < held.len() && fits(
                (#[trigger] listed[j]).rom,
                #[trigger] held[k],
            ) && is_match(m, listed[j], held[k]) && !(drop_inherited && listed[j].is_clone
                && listed[j].rom.merge_tag is Some),
    decreases listed.len(),
{
    if listed.len() > 0 {
        let rest = listed.drop_last();
        let l = listed.last();
        let before = matched(rest, held, drop_inherited);
        let more = matches_of(l, held);
        let all = matched(listed, held, drop_inherited);
        let f = |h: HeldView| fits(l.rom, h);
        let kept = held.filter(f);
        law_matches_pair_roms_with_their_files(rest, held, drop_inherited, m);
        seqs::lemma_filter_members(held, f);
        let skipped = drop_inherited && inherited(l);
        if all.contains(m) {
            let i = choose|i: int| 0 <= i < all.len() && all[i] == m;
            if i < before.len() {
                assert(before[i] == m);
                let (j, k) = choose|j: int, k: int|
                    0 <= j < rest.len() && 0 <= k < held.len() && fits(
                        (#[trigger] rest[j]).rom,
                        #[trigger] held[k],
                    ) && is_match(m, rest[j], held[k]) && !(drop_inherited && rest[j].is_clone
                        && rest[j].rom.merge_tag is Some);
                assert(listed[j] == rest[j]);
            } else {
                let h = kept[i - before.len()];
                assert(kept.contains(h));
                let k = choose|k: int| 0 <= k < held.len() && held[k] == h;
                assert(more[i - before.len()] == m);
                assert(is_match(m, listed[listed.len() - 1], held[k]));
            }
        }
        if exists|j: int, k: int|
            0 <= j < listed.len() && 0 <= k < held.len() && fits(
                (#[trigger] listed[j]).rom,
                #[trigger] held[k],
            ) && is_match(m, listed[j], held[k]) && !(drop_inherited && listed[j].is_clone
                && listed[j].rom.merge_tag is Some) {
            let (j, k) = choose|j: int, k: int|
                0 <= j < listed.len() && 0 <= k < held.len() && fits(
                    (#[trigger] listed[j]).rom,
                    #[trigger] held[k],
                ) && is_match(m, listed[j], held[k]) && !(drop_inherited && listed[j].is_clone
                    && listed[j].rom.merge_tag is Some);
            if j < rest.len() {
                assert(rest[j] == listed[j]);
                assert(before.contains(m));
                let i = choose|i: int| 0 <= i < before.len() && before[i] == m;
                assert(all[i] == m);
            } else {
                assert(held.contains(held[k]));
                assert(kept.contains(held[k]));
                let i = choose|i: int| 0 <= i < kept.len() && kept[i] == held[k];
                assert(more[i] =~= m);
                assert(all[before.len() + i] == m);
            }
        }
    }
}

// ---------------------------------------------------------------------------
// What several entries depend on
// ---------------------------------------------------------------------------

/// That an entry depends on something: on content, or on a container.
pub struct Claim {
    pub label: String,
    pub version_id: i64,
    pub game_name: String,
    pub rom_name: String,
}

#[verifier::ext_equal]
pub struct ClaimView {
    pub label: Seq<char>,
    pub owner: (i64, Seq<char>, Seq<char>),
}

impl DeepView for Claim {
    type V = ClaimView;

    open spec fn deep_view(&self) -> ClaimView {
        ClaimView {
            label: self.label@,
            owner: (self.version_id, self.game_name@, self.rom_name@),
        }
    }
}

/// Whether two claims on a label come from different owners.
pub open spec fn at_odds(claims: Seq<ClaimView>, label: Seq<char>, i: int, j: int) -> bool {
    &&& 0 <= i < claims.len()
    &&& 0 <= j < claims.len()
    &&& claims[i].label == label
    &&& claims[j].label == label
    &&& claims[i].owner != claims[j].owner
}

/// Whether more than one owner claims a label.
pub open spec fn contested(claims: Seq<ClaimView>, label: Seq<char>) -> bool {
    exists|i: int, j: int| #[trigger] at_odds(claims, label, i, j)
}

fn same_owner(a: &Claim, b: &Claim) -> (r: bool)
    ensures
        r == (a.deep_view().owner == b.deep_view().owner),
{
    a.version_id == b.version_id && text::str_eq(a.game_name.as_str(), b.game_name.as_str())
        && text::str_eq(a.rom_name.as_str(), b.rom_name.as_str())
}

proof fn lemma_contested_grows(claims: Seq<ClaimView>, i: int, label: Seq<char>)
    requires
        0 <= i < claims.len(),
    ensures
        contested(claims.take(i), label) ==> contested(claims.take(i + 1), label),
{
    if contested(claims.take(i), label) {
        let (a, b) = choose|a: int, b: int| #[trigger] at_odds(claims.take(i), label, a, b);
        assert(at_odds(claims.take(i + 1), label, a, b));
    }
}

/// The labels that more than one owner claims.
pub fn contested_labels(claims: &Vec<Claim>) -> (r: SortedSet<String>)
    ensures
        forall|n: Seq<char>| #[trigger] r@.contains(n) <==> contested(claims.deep_view(), n),
{
    let ghost cs = claims.deep_view();
    let mut first: SortedMap<String, usize> = SortedMap::new();
    let mut r: SortedSet<String> = SortedSet::new();
    let mut i: usize = 0;
    while i < claims.len()
        invariant
            i <= claims@.len(),
            cs == claims.deep_view(),
            forall|n: Seq<char>| #[trigger]
                first@.contains_key(n) ==> first@[n] < i && cs[first@[n] as int].label == n,
            forall|j: int| 0 <= j < i ==> first@.contains_key((#[trigger] cs[j]).label),
            forall|n: Seq<char>| #[trigger] r@.contains(n) <==> contested(cs.take(i as int), n),
        decreases claims@.len() - i,
    {
        let c = &claims[i];
        let ghost t = cs.take(i as int);
        let ghost u = cs.take(i + 1);
        let ghost label = c.label@;
        let ghost had = first@;
        match first.get(&c.label) {
            None => {
                first.insert(c.label.clone(), i);
                proof {
                    assert forall|n: Seq<char>| contested(u, n) == contested(t, n) by {
                        lemma_contested_grows(cs, i as int, n);
                        if contested(u, n) && !contested(t, n) {
                            let (a, b) = choose|a: int, b: int| #[trigger] at_odds(u, n, a, b);
                            if a == i || b == i {
                                let other = if a == i {
                                    b
                                } else {
                                    a
                                };
                                assert(n == label);
                                assert(had.contains_key(cs[other].label));
                            } else {
                                assert(at_odds(t, n, a, b));
                            }
                        }
                    }
                }
            },
            Some(j) => {
                let j: usize = *j;
                let same = same_owner(&claims[j], c);
                if !same {
                    r.insert(c.label.clone());
                }
                proof {
                    assert forall|n: Seq<char>| contested(u, n) == (contested(t, n) || (!same && n
                        == label)) by {
                        lemma_contested_grows(cs, i as int, n);
                        if !same && n == label {
                            assert(at_odds(u, n, j as int, i as int));
                        }
                        if contested(u, n) && !contested(t, n) {
                            let (a, b) = choose|a: int, b: int| #[trigger] at_odds(u, n, a, b);
                            if a == i || b == i {
                                let other = if a == i {
                                    b
                                } else {
                                    a
                                };
                                assert(n == label);
                                if same {
                                    assert(at_odds(t, n, j as int, other));
                                }
                            } else {
                                assert(at_odds(t, n, a, b));
                            }
                        }
                    }
                }
            },
        }
        i = i + 1;
    }
    proof {
        assert(cs.take(i as int) =~= cs);
    }
    r
}

/// The claims of a ROM on content.
pub open spec fn content_claim(l: ListedView, f: HeldView) -> ClaimView {
    ClaimView { label: f.sha1, owner: (l.version_id, l.game_name, l.rom.name) }
}

/// The claims of a game on containers.
pub open spec fn container_claim(l: ListedView, f: HeldView) -> ClaimView {
    ClaimView {
        label: f.source_root + "/"@ + f.source_path,
        owner: (l.version_id, l.game_name, Seq::empty()),
    }
}

/// Whether a ROM finds its content in a file, and, where containers are asked
/// about, inside an archive.
pub open spec fn relies_on(l: ListedView, f: HeldView, containers: bool) -> bool {
    fits(l.rom, f) && (containers ==> f.archive_path is Some)
}

/// The claims of one ROM.
pub open spec fn claims_of(l: ListedView, held: Seq<HeldView>, containers: bool) -> Seq<ClaimView> {
    held.filter(|f: HeldView| relies_on(l, f, containers)).map_values(
        |f: HeldView|
            if containers {
                container_claim(l, f)
            } else {
                content_claim(l, f)
            },
    )
}

/// The claims of all ROMs.
pub open spec fn all_claims(
    listed: Seq<ListedView>,
    held: Seq<HeldView>,
    containers: bool,
) -> Seq<ClaimView>
    decreases listed.len(),
{
    if listed.len() == 0 {
        Seq::empty()
    } else {
        all_claims(listed.drop_last(), held, containers) + claims_of(
            listed.last(),
            held,
            containers,
        )
    }
}

fn add_claims(out: &mut Vec<Claim>, l: &ListedRom, held: &Vec<HeldFile>, containers: bool)
    ensures
        final(out).deep_view() == old(out).deep_view() + claims_of(
            l.deep_view(),
            held.deep_view(),
            containers,
        ),
{
    let ghost fs = held.deep_view();
    let ghost lv = l.deep_view();
    let ghost start = out.deep_view();
    let mut k: usize = 0;
    proof {
        reveal(Seq::filter);
        assert(claims_of(lv, fs.take(0), containers) =~= Seq::empty());
        assert(start + Seq::<ClaimView>::empty() =~= start);
    }
    while k < held.len()
        invariant
            k <= held@.len(),
            fs == held.deep_view(),
            lv == l.deep_view(),
            out.deep_view() == start + claims_of(lv, fs.take(k as int), containers),
        decreases held@.len() - k,
    {
        let f = &held[k];
        let ghost before = out.deep_view();
        proof {
            assert(fs.take(k + 1).drop_last() =~= fs.take(k as int));
            reveal_with_fuel(Seq::filter, 2);
        }
        if rom_fits(&l.rom, f) && (!containers || f.archive_path.is_some()) {
            let c = if containers {
                Claim {
                    label: text::concat3(f.source_root.as_str(), "/", f.source_path.as_str()),
                    version_id: l.version_id,
                    game_name: l.game_name.clone(),
                    rom_name: String::new(),
                }
            } else {
                Claim {
                    label: f.sha1.clone(),
                    version_id: l.version_id,
                    game_name: l.game_name.clone(),
                    rom_name: l.rom.name.clone(),
                }
            };
            out.push(c);
            proof {
                let want = if containers {
                    container_claim(lv, fs[k as int])
                } else {
                    content_claim(lv, fs[k as int])
                };
                assert(c.deep_view() == want);
                assert(out.deep_view() =~= before.push(want));
                assert(claims_of(lv, fs.take(k + 1), containers) =~= claims_of(
                    lv,
                    fs.take(k as int),
                    containers,
                ).push(want));
                assert(out.deep_view() =~= start + claims_of(lv, fs.take(k + 1), containers));
            }
        } else {
            proof {
                assert(claims_of(lv, fs.take(k + 1), containers) =~= claims_of(
                    lv,
                    fs.take(k as int),
                    containers,
                ));
            }
        }
        k = k + 1;
    }
    proof {
        assert(fs.take(k as int) =~= fs);
    }
}

fn gather_claims(listed: &Vec<ListedRom>, held: &Vec<HeldFile>, containers: bool) -> (r: Vec<Claim>)
    ensures
        r.deep_view() == all_claims(listed.deep_view(), held.deep_view(), containers),
{
    let ghost ls = listed.deep_view();
    let ghost fs = held.deep_view();
    let mut r: Vec<Claim> = Vec::new();
    let mut i: usize = 0;
    proof {
        assert(r.deep_view() =~= all_claims(ls.take(0), fs, containers));
    }
    while i < listed.len()
        invariant
            i <= listed@.len(),
            ls == listed.deep_view(),
            fs == held.deep_view(),
            r.deep_view() == all_claims(ls.take(i as int), fs, containers),
        decreases listed@.len() - i,
    {
        proof {
            assert(ls.take(i + 1).drop_last() =~= ls.take(i as int));
        }
        add_claims(&mut r, &listed[i], held, containers);
        i = i + 1;
    }
    proof {
        assert(ls.take(i as int) =~= ls);
    }
    r
}

proof fn lemma_claimed(listed: Seq<ListedView>, held: Seq<HeldView>, containers: bool, i: int, k: int)
    requires
        0 <= i < listed.len(),
        0 <= k < held.len(),
        relies_on(listed[i], held[k], containers),
    ensures
        all_claims(listed, held, containers).contains(
            if containers {
                container_claim(listed[i], held[k])
            } else {
                content_claim(listed[i], held[k])
            },
        ),
    decreases listed.len(),
{
    let l = listed.last();
    let before = all_claims(listed.drop_last(), held, containers);
    let now = claims_of(l, held, containers);
    let claim = if containers {
        container_claim(listed[i], held[k])
    } else {
        content_claim(listed[i], held[k])
    };
    let all = all_claims(listed, held, containers);
    if i < listed.len() - 1 {
        assert(listed.drop_last()[i] == listed[i]);
        lemma_claimed(listed.drop_last(), held, containers, i, k);
        let n = choose|n: int| 0 <= n < before.len() && before[n] == claim;
        assert(all[n] == claim);
    } else {
        let f = |h: HeldView| relies_on(l, h, containers);
        seqs::lemma_filter_members(held, f);
        assert(held.contains(held[k]));
        assert(held.filter(f).contains(held[k]));
        let n = choose|n: int| 0 <= n < held.filter(f).len() && held.filter(f)[n] == held[k];
        assert(now[n] == claim);
        assert(all[before.len() + n] == claim);
    }
}

/// Content that is not shared serves one ROM: any two listed ROMs that it fits are
/// the same ROM of the same game of the same version. So a file of it that is
/// moved or deleted is missed by no other.
pub proof fn law_unshared_content_serves_one_rom(
    listed: Seq<ListedView>,
    held: Seq<HeldView>,
    i: int,
    j: int,
    k: int,
    m: int,
)
    requires
        0 <= i < listed.len() && 0 <= j < listed.len(),
        0 <= k < held.len() && 0 <= m < held.len(),
        fits(listed[i].rom, held[k]) && fits(listed[j].rom, held[m]),
        held[k].sha1 == held[m].sha1,
        !contested(all_claims(listed, held, false), held[k].sha1),
    ensures
        listed[i].version_id == listed[j].version_id,
        listed[i].game_name == listed[j].game_name,
        listed[i].rom.name == listed[j].rom.name,
{
    lemma_claimed(listed, held, false, i, k);
    lemma_claimed(listed, held, false, j, m);
    let all = all_claims(listed, held, false);
    let a = choose|a: int| 0 <= a < all.len() && all[a] == content_claim(listed[i], held[k]);
    let b = choose|b: int| 0 <= b < all.len() && all[b] == content_claim(listed[j], held[m]);
    assert(!at_odds(all, held[k].sha1, a, b));
}

/// An archive that is not shared serves one game, so that moving it whole strands
/// no other.
pub proof fn law_unshared_container_serves_one_game(
    listed: Seq<ListedView>,
    held: Seq<HeldView>,
    i: int,
    j: int,
    k: int,
    m: int,
)
    requires
        0 <= i < listed.len() && 0 <= j < listed.len(),
        0 <= k < held.len() && 0 <= m < held.len(),
        relies_on(listed[i], held[k], true) && relies_on(listed[j], held[m], true),
        container_claim(listed[i], held[k]).label == container_claim(listed[j], held[m]).label,
        !contested(
            all_claims(listed, held, true),
            container_claim(listed[i], held[k]).label,
        ),
    ensures
        listed[i].version_id == listed[j].version_id,
        listed[i].game_name == listed[j].game_name,
{
    lemma_claimed(listed, held, true, i, k);
    lemma_claimed(listed, held, true, j, m);
    let all = all_claims(listed, held, true);
    let a = choose|a: int| 0 <= a < all.len() && all[a] == container_claim(listed[i], held[k]);
    let b = choose|b: int| 0 <= b < all.len() && all[b] == container_claim(listed[j], held[m]);
    assert(!at_odds(all, container_claim(listed[i], held[k]).label, a, b));
}

proof fn lemma_claims_come_from(
    listed: Seq<ListedView>,
    held: Seq<HeldView>,
    containers: bool,
    n: int,
)
    requires
        0 <= n < all_claims(listed, held, containers).len(),
    ensures
        exists|i: int, k: int|
            0 <= i < listed.len() && 0 <= k < held.len() && relies_on(
                #[trigger] listed[i],
                #[trigger] held[k],
                containers,
            ) && all_claims(listed, held, containers)[n] == if containers {
                container_claim(listed[i], held[k])
            } else {
                content_claim(listed[i], held[k])
            },
    decreases listed.len(),
{
    let rest = listed.drop_last();
    let l = listed.last();
    let before = all_claims(rest, held, containers);
    let all = all_claims(listed, held, containers);
    if n < before.len() {
        lemma_claims_come_from(rest, held, containers, n);
        let (i, k) = choose|i: int, k: int|
            0 <= i < rest.len() && 0 <= k < held.len() && relies_on(
                #[trigger] rest[i],
                #[trigger] held[k],
                containers,
            ) && before[n] == if containers {
                container_claim(rest[i], held[k])
            } else {
                content_claim(rest[i], held[k])
            };
        assert(listed[i] == rest[i]);
        assert(all[n] == before[n]);
    } else {
        let f = |h: HeldView| relies_on(l, h, containers);
        seqs::lemma_filter_members(held, f);
        let h = held.filter(f)[n - before.len()];
        assert(held.filter(f).contains(h));
        let k = choose|k: int| 0 <= k < held.len() && held[k] == h;
        assert(listed[listed.len() - 1] == l);
        assert(relies_on(listed[listed.len() - 1], held[k], containers));
    }
}

/// Content counts as shared only where it belongs to two entries: files with that
/// SHA1 have the content of two listed ROMs that differ in version, game or name.
pub proof fn law_shared_content_has_two_owners(
    listed: Seq<ListedView>,
    held: Seq<HeldView>,
    sha1: Seq<char>,
)
    requires
        contested(all_claims(listed, held, false), sha1),
    ensures
        exists|i: int, j: int|
            0 <= i < listed.len() && 0 <= j < listed.len() && wants_content(
                #[trigger] listed[i],
                held,
                sha1,
            ) && wants_content(#[trigger] listed[j], held, sha1) && (listed[i].version_id
                != listed[j].version_id || listed[i].game_name != listed[j].game_name
                || listed[i].rom.name != listed[j].rom.name),
{
    let all = all_claims(listed, held, false);
    let (a, b) = choose|a: int, b: int| #[trigger] at_odds(all, sha1, a, b);
    lemma_claims_come_from(listed, held, false, a);
    lemma_claims_come_from(listed, held, false, b);
    let (i, k) = choose|i: int, k: int|
        0 <= i < listed.len() && 0 <= k < held.len() && relies_on(
            #[trigger] listed[i],
            #[trigger] held[k],
            false,
        ) && all[a] == content_claim(listed[i], held[k]);
    let (j, m) = choose|j: int, m: int|
        0 <= j < listed.len() && 0 <= m < held.len() && relies_on(
            #[trigger] listed[j],
            #[trigger] held[m],
            false,
        ) && all[b] == content_claim(listed[j], held[m]);
    assert(held[k].sha1 == sha1 && held[m].sha1 == sha1);
    assert(wants_content(listed[i], held, sha1));
    assert(wants_content(listed[j], held, sha1));
}

/// Whether a listed ROM has its content in a held file with a SHA1.
pub open spec fn wants_content(l: ListedView, held: Seq<HeldView>, sha1: Seq<char>) -> bool {
    exists|k: int| 0 <= k < held.len() && (#[trigger] held[k]).sha1 == sha1 && fits(l.rom, held[k])
}

/// Whether a listed ROM has its content in an entry of the archive at a path.
pub open spec fn wants_container(l: ListedView, held: Seq<HeldView>, path: Seq<char>) -> bool {
    exists|k: int|
        0 <= k < held.len() && (#[trigger] held[k]).source_root + "/"@ + held[k].source_path == path
            && held[k].archive_path is Some && fits(l.rom, held[k])
}

/// An archive counts as shared only where entries of it serve two games, and counts
/// so wherever they do.
pub proof fn law_shared_container_serves_two_games(
    listed: Seq<ListedView>,
    held: Seq<HeldView>,
    path: Seq<char>,
)
    ensures
        contested(all_claims(listed, held, true), path) <==> exists|i: int, j: int|
            0 <= i < listed.len() && 0 <= j < listed.len() && wants_container(
                #[trigger] listed[i],
                held,
                path,
            ) && wants_container(#[trigger] listed[j], held, path) && (listed[i].version_id
                != listed[j].version_id || listed[i].game_name != listed[j].game_name),
{
    let all = all_claims(listed, held, true);
    if contested(all, path) {
        let (a, b) = choose|a: int, b: int| #[trigger] at_odds(all, path, a, b);
        lemma_claims_come_from(listed, held, true, a);
        lemma_claims_come_from(listed, held, true, b);
        let (i, k) = choose|i: int, k: int|
            0 <= i < listed.len() && 0 <= k < held.len() && relies_on(
                #[trigger] listed[i],
                #[trigger] held[k],
                true,
            ) && all[a] == container_claim(listed[i], held[k]);
        let (j, m) = choose|j: int, m: int|
            0 <= j < listed.len() && 0 <= m < held.len() && relies_on(
                #[trigger] listed[j],
                #[trigger] held[m],
                true,
            ) && all[b] == container_claim(listed[j], held[m]);
        assert(held[k].source_root + "/"@ + held[k].source_path == path);
        assert(held[m].source_root + "/"@ + held[m].source_path == path);
        assert(wants_container(listed[i], held, path));
        assert(wants_container(listed[j], held, path));
    }
    if exists|i: int, j: int|
        0 <= i < listed.len() && 0 <= j < listed.len() && wants_container(
            #[trigger] listed[i],
            held,
            path,
        ) && wants_container(#[trigger] listed[j], held, path) && (listed[i].version_id
            != listed[j].version_id || listed[i].game_name != listed[j].game_name) {
        let (i, j) = choose|i: int, j: int|
            0 <= i < listed.len() && 0 <= j < listed.len() && wants_container(
                #[trigger] listed[i],
                held,
                path,
            ) && wants_container(#[trigger] listed[j], held, path) && (listed[i].version_id
                != listed[j].version_id || listed[i].game_name != listed[j].game_name);
        let k = choose|k: int|
            0 <= k < held.len() && (#[trigger] held[k]).source_root + "/"@ + held[k].source_path
                == path && held[k].archive_path is Some && fits(listed[i].rom, held[k]);
        let m = choose|m: int|
            0 <= m < held.len() && (#[trigger] held[m]).source_root + "/"@ + held[m].source_path
                == path && held[m].archive_path is Some && fits(listed[j].rom, held[m]);
        lemma_claimed(listed, held, true, i, k);
        lemma_claimed(listed, held, true, j, m);
        let a = choose|a: int| 0 <= a < all.len() && all[a] == container_claim(listed[i], held[k]);
        let b = choose|b: int| 0 <= b < all.len() && all[b] == container_claim(listed[j], held[m]);
        assert(at_odds(all, path, a, b));
    }
}

/// The content that belongs to more than one entry of the active DATs, by SHA1.
pub fn compute_shared_content(listed: &Vec<ListedRom>, held: &Vec<HeldFile>) -> (r: SortedSet<
    String,
>)
    ensures
        forall|n: Seq<char>| #[trigger]
            r@.contains(n) <==> contested(
                all_claims(listed.deep_view(), held.deep_view(), false),
                n,
            ),
{
    let claims = gather_claims(listed, held, false);
    contested_labels(&claims)
}

/// The archives whose entries serve more than one game, by path.
pub fn compute_shared_containers(listed: &Vec<ListedRom>, held: &Vec<HeldFile>) -> (r: SortedSet<
    String,
>)
    ensures
        forall|n: Seq<char>| #[trigger]
            r@.contains(n) <==> contested(
                all_claims(listed.deep_view(), held.deep_view(), true),
                n,
            ),
{
    let claims = gather_claims(listed, held, true);
    contested_labels(&claims)
}

} // verus!
