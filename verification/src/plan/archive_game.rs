//! One game of an archive-format collection: the ROMs it expects and the
//! containers that hold them.

use super::types;
use super::types::{MatchView, MatchedRom, SourceRef, SourceRefView};
use crate::paths;
use crate::paths::{validate_relative_path, PathError, PathErrorView};
use crate::seqs;
use crate::sorted_map;
use crate::sorted_map::{SortedMap, SortedSet};
use crate::text;
use vstd::prelude::*;

verus! {

/// A ROM name with the SHA1 of its content.
pub type ContentKey = (String, String);

/// The key that content is told apart by: name and SHA1, the latter in any case.
pub open spec fn content_key(name: Seq<char>, sha1: Seq<char>) -> (Seq<char>, Seq<char>) {
    (name, text::lower_seq(sha1))
}

pub open spec fn key_of(m: MatchView) -> (Seq<char>, Seq<char>) {
    content_key(m.rom_name, m.sha1)
}

/// The matches held in a container, in order.
pub open spec fn entries_of(ms: Seq<MatchView>, path: Seq<char>) -> Seq<MatchView> {
    ms.filter(|m: MatchView| types::held_at(m) == path)
}

/// Whether a path is a container of some match.
pub open spec fn is_container(ms: Seq<MatchView>, path: Seq<char>) -> bool {
    exists|i: int| 0 <= i < ms.len() && types::held_at(#[trigger] ms[i]) == path
}

/// Whether a container holds some content.
pub open spec fn holds_key(
    ms: Seq<MatchView>,
    path: Seq<char>,
    key: (Seq<char>, Seq<char>),
) -> bool {
    exists|i: int|
        0 <= i < ms.len() && types::held_at(#[trigger] ms[i]) == path && key_of(ms[i]) == key
}

/// Whether a container holds everything that the game expects.
pub open spec fn complete(ms: Seq<MatchView>, path: Seq<char>) -> bool {
    is_container(ms, path) && forall|i: int|
        0 <= i < ms.len() ==> holds_key(ms, path, key_of(#[trigger] ms[i]))
}

/// The ROMs that the game expects, each once.
pub open spec fn expected(ms: Seq<MatchView>) -> Seq<(Seq<char>, Seq<char>)> {
    seqs::distinct(ms.map_values(|m: MatchView| (m.rom_name, m.sha1)))
}

pub open spec fn expected_keys(ms: Seq<MatchView>) -> Seq<(Seq<char>, Seq<char>)> {
    expected(ms).map_values(|e: (Seq<char>, Seq<char>)| content_key(e.0, e.1))
}

/// The containers that hold some content, in the order they are met.
pub open spec fn holders(ms: Seq<MatchView>, key: (Seq<char>, Seq<char>)) -> Seq<Seq<char>> {
    seqs::distinct(
        ms.filter(|m: MatchView| key_of(m) == key).map_values(|m: MatchView| types::held_at(m)),
    )
}

/// The place of the content with the fewest holders, the first of equals.
pub open spec fn rarest(ms: Seq<MatchView>, keys: Seq<(Seq<char>, Seq<char>)>) -> int
    decreases keys.len(),
{
    if keys.len() <= 1 {
        0
    } else {
        let before = rarest(ms, keys.drop_last());
        if holders(ms, keys.last()).len() < holders(ms, keys[before]).len() {
            keys.len() - 1
        } else {
            before
        }
    }
}

/// The first complete container of a list.
pub open spec fn first_complete(ms: Seq<MatchView>, paths: Seq<Seq<char>>) -> Option<Seq<char>>
    decreases paths.len(),
{
    if paths.len() == 0 {
        None
    } else if complete(ms, paths[0]) {
        Some(paths[0])
    } else {
        first_complete(ms, paths.drop_first())
    }
}

/// The container to build from: the destination where it is complete, else the
/// first complete container among the holders of the rarest content.
pub open spec fn built_from(ms: Seq<MatchView>, dest: Seq<char>) -> Option<Seq<char>> {
    let keys = expected_keys(ms);
    if complete(ms, dest) {
        Some(dest)
    } else if keys.len() == 0 {
        None
    } else {
        first_complete(ms, holders(ms, keys[rarest(ms, keys)]))
    }
}

/// Whether some of the content also belongs elsewhere.
pub open spec fn has_shared(ms: Seq<MatchView>, shared: Set<Seq<char>>) -> bool {
    exists|i: int| 0 <= i < ms.len() && shared.contains((#[trigger] ms[i]).sha1)
}

pub open spec fn has_name(ms: Seq<MatchView>, name: Seq<char>) -> bool {
    exists|i: int| 0 <= i < ms.len() && (#[trigger] ms[i]).rom_name == name
}

/// The size of the first match with a ROM name.
pub open spec fn first_size(ms: Seq<MatchView>, name: Seq<char>) -> u64
    decreases ms.len(),
{
    if ms.len() == 0 {
        0
    } else if has_name(ms.drop_last(), name) {
        first_size(ms.drop_last(), name)
    } else if ms.last().rom_name == name {
        ms.last().size as u64
    } else {
        0
    }
}

/// The sizes of some expected ROMs, added up.
pub open spec fn size_sum(ms: Seq<MatchView>, roms: Seq<(Seq<char>, Seq<char>)>) -> int
    decreases roms.len(),
{
    if roms.len() == 0 {
        0
    } else {
        size_sum(ms, roms.drop_last()) + first_size(ms, roms.last().0)
    }
}

/// The sizes of matches, added up.
pub open spec fn match_bytes(ms: Seq<MatchView>) -> int
    decreases ms.len(),
{
    if ms.len() == 0 {
        0
    } else {
        match_bytes(ms.drop_last()) + ms.last().size as u64
    }
}

/// The containers of the matches.
pub open spec fn containers(ms: Seq<MatchView>) -> Set<Seq<char>> {
    Set::new(|p: Seq<char>| is_container(ms, p))
}

/// The matches held in some containers, container by container.
pub open spec fn entries_in(ms: Seq<MatchView>, paths: Seq<Seq<char>>) -> Seq<MatchView>
    decreases paths.len(),
{
    if paths.len() == 0 {
        Seq::empty()
    } else {
        entries_in(ms, paths.drop_last()) + entries_of(ms, paths.last())
    }
}

/// What feeds a repack: the entries of the container it is built from, or those
/// of every container in order.
pub open spec fn feeders(ms: Seq<MatchView>, from: Option<Seq<char>>) -> Seq<MatchView> {
    match from {
        Some(path) => entries_of(ms, path),
        None => entries_in(ms, sorted_map::in_order::<String>(containers(ms))),
    }
}

/// A match as a source of an archive entry.
pub open spec fn source_ref(m: MatchView) -> SourceRefView {
    SourceRefView {
        path: types::held_at(m),
        archive_path: m.archive_path,
        sha1: m.sha1,
        entry_name: Some(m.rom_name),
    }
}

/// Matches as sources, or the first entry name that is rejected.
pub open spec fn source_refs(ms: Seq<MatchView>) -> Result<Seq<SourceRefView>, PathErrorView>
    decreases ms.len(),
{
    if ms.len() == 0 {
        Ok(Seq::empty())
    } else {
        match source_refs(ms.drop_last()) {
            Err(e) => Err(e),
            Ok(refs) => match paths::fault_of(ms.last().rom_name) {
                Some(fault) => Err(
                    PathErrorView { label: "ROM entry name"@, value: ms.last().rom_name, fault },
                ),
                None => Ok(refs.push(source_ref(ms.last()))),
            },
        }
    }
}

// ---------------------------------------------------------------------------
// One more match
// ---------------------------------------------------------------------------

proof fn lemma_push_distinct<A>(s: Seq<A>, x: A)
    ensures
        seqs::distinct(s.push(x)) == if s.contains(x) {
            seqs::distinct(s)
        } else {
            seqs::distinct(s).push(x)
        },
{
    assert(s.push(x).drop_last() =~= s);
}

proof fn lemma_entries_push(ms: Seq<MatchView>, v: MatchView, p: Seq<char>)
    ensures
        entries_of(ms.push(v), p) == if types::held_at(v) == p {
            entries_of(ms, p).push(v)
        } else {
            entries_of(ms, p)
        },
        is_container(ms.push(v), p) <==> is_container(ms, p) || types::held_at(v) == p,
{
    reveal(Seq::filter);
    assert(ms.push(v).drop_last() =~= ms);
    if is_container(ms, p) {
        let i = choose|i: int| 0 <= i < ms.len() && types::held_at(#[trigger] ms[i]) == p;
        assert(ms.push(v)[i] == ms[i]);
    }
    if types::held_at(v) == p {
        assert(ms.push(v)[ms.len() as int] == v);
    }
    if is_container(ms.push(v), p) && types::held_at(v) != p {
        let i = choose|i: int|
            0 <= i < ms.push(v).len() && types::held_at(#[trigger] ms.push(v)[i]) == p;
        assert(ms[i] == ms.push(v)[i]);
    }
}

proof fn lemma_keys_push(
    ms: Seq<MatchView>,
    v: MatchView,
    p: Seq<char>,
    k: (Seq<char>, Seq<char>),
)
    ensures
        holds_key(ms.push(v), p, k) <==> holds_key(ms, p, k) || (types::held_at(v) == p && key_of(
            v,
        ) == k),
{
    if holds_key(ms, p, k) {
        let i = choose|i: int|
            0 <= i < ms.len() && types::held_at(#[trigger] ms[i]) == p && key_of(ms[i]) == k;
        assert(ms.push(v)[i] == ms[i]);
    }
    if types::held_at(v) == p && key_of(v) == k {
        assert(ms.push(v)[ms.len() as int] == v);
    }
    if holds_key(ms.push(v), p, k) && !(types::held_at(v) == p && key_of(v) == k) {
        let i = choose|i: int|
            0 <= i < ms.push(v).len() && types::held_at(#[trigger] ms.push(v)[i]) == p && key_of(
                ms.push(v)[i],
            ) == k;
        assert(ms[i] == ms.push(v)[i]);
    }
}

proof fn lemma_holders_members(ms: Seq<MatchView>, k: (Seq<char>, Seq<char>), p: Seq<char>)
    ensures
        ms.filter(|m: MatchView| key_of(m) == k).map_values(
            |m: MatchView| types::held_at(m),
        ).contains(p) <==> holds_key(ms, p, k),
        holders(ms, k).contains(p) <==> holds_key(ms, p, k),
{
    let has = |m: MatchView| key_of(m) == k;
    let f = ms.filter(has);
    let x = f.map_values(|m: MatchView| types::held_at(m));
    seqs::lemma_filter_members(ms, has);
    if x.contains(p) {
        let i = choose|i: int| 0 <= i < x.len() && x[i] == p;
        assert(f.contains(f[i]));
        assert(ms.contains(f[i]));
        let j = choose|j: int| 0 <= j < ms.len() && ms[j] == f[i];
        assert(types::held_at(ms[j]) == p && key_of(ms[j]) == k);
    }
    if holds_key(ms, p, k) {
        let j = choose|j: int|
            0 <= j < ms.len() && types::held_at(#[trigger] ms[j]) == p && key_of(ms[j]) == k;
        assert(ms.contains(ms[j]));
        assert(f.contains(ms[j]));
        let i = choose|i: int| 0 <= i < f.len() && f[i] == ms[j];
        assert(x[i] == p);
    }
    seqs::lemma_distinct(x);
}

proof fn lemma_holders_push(ms: Seq<MatchView>, v: MatchView, k: (Seq<char>, Seq<char>))
    ensures
        holders(ms.push(v), k) == if key_of(v) == k && !holds_key(ms, types::held_at(v), k) {
            holders(ms, k).push(types::held_at(v))
        } else {
            holders(ms, k)
        },
{
    let has = |m: MatchView| key_of(m) == k;
    let at = |m: MatchView| types::held_at(m);
    reveal(Seq::filter);
    assert(ms.push(v).drop_last() =~= ms);
    lemma_holders_members(ms, k, types::held_at(v));
    if key_of(v) == k {
        assert(ms.push(v).filter(has) == ms.filter(has).push(v));
        assert(ms.filter(has).push(v).map_values(at) =~= ms.filter(has).map_values(at).push(
            types::held_at(v),
        ));
        lemma_push_distinct(ms.filter(has).map_values(at), types::held_at(v));
    } else {
        assert(ms.push(v).filter(has) == ms.filter(has));
    }
}

proof fn lemma_names_push(ms: Seq<MatchView>, v: MatchView, n: Seq<char>)
    ensures
        has_name(ms.push(v), n) <==> has_name(ms, n) || v.rom_name == n,
        first_size(ms.push(v), n) == if has_name(ms, n) {
            first_size(ms, n)
        } else if v.rom_name == n {
            v.size as u64
        } else {
            0
        },
{
    assert(ms.push(v).drop_last() =~= ms);
    if has_name(ms, n) {
        let i = choose|i: int| 0 <= i < ms.len() && (#[trigger] ms[i]).rom_name == n;
        assert(ms.push(v)[i] == ms[i]);
    }
    if v.rom_name == n {
        assert(ms.push(v)[ms.len() as int] == v);
    }
    if has_name(ms.push(v), n) && v.rom_name != n {
        let i = choose|i: int| 0 <= i < ms.push(v).len() && (#[trigger] ms.push(v)[i]).rom_name == n;
        assert(ms[i] == ms.push(v)[i]);
    }
}

proof fn lemma_expected_push(ms: Seq<MatchView>, v: MatchView)
    ensures
        ({
            let pairs = ms.map_values(|m: MatchView| (m.rom_name, m.sha1));
            expected(ms.push(v)) == if pairs.contains((v.rom_name, v.sha1)) {
                expected(ms)
            } else {
                expected(ms).push((v.rom_name, v.sha1))
            }
        }),
{
    let pair = |m: MatchView| (m.rom_name, m.sha1);
    assert(ms.push(v).map_values(pair) =~= ms.map_values(pair).push((v.rom_name, v.sha1)));
    lemma_push_distinct(ms.map_values(pair), (v.rom_name, v.sha1));
}

/// Every expected key is that of a match, and that of every match is expected.
proof fn lemma_expected_keys(ms: Seq<MatchView>)
    ensures
        forall|i: int|
            0 <= i < ms.len() ==> expected_keys(ms).contains(key_of(#[trigger] ms[i])),
        forall|j: int|
            0 <= j < expected(ms).len() ==> exists|i: int|
                0 <= i < ms.len() && (#[trigger] ms[i]).rom_name == (
                #[trigger] expected(ms)[j]).0 && ms[i].sha1 == expected(ms)[j].1,
{
    let pair = |m: MatchView| (m.rom_name, m.sha1);
    let pairs = ms.map_values(pair);
    seqs::lemma_distinct(pairs);
    assert forall|i: int| 0 <= i < ms.len() implies expected_keys(ms).contains(
        key_of(#[trigger] ms[i]),
    ) by {
        assert(pairs[i] == (ms[i].rom_name, ms[i].sha1));
        assert(pairs.contains(pairs[i]));
        assert(expected(ms).contains(pairs[i]));
        let j = choose|j: int| 0 <= j < expected(ms).len() && expected(ms)[j] == pairs[i];
        assert(expected_keys(ms)[j] == key_of(ms[i]));
    }
    assert forall|j: int| 0 <= j < expected(ms).len() implies exists|i: int|
        0 <= i < ms.len() && (#[trigger] ms[i]).rom_name == (#[trigger] expected(ms)[j]).0
            && ms[i].sha1 == expected(ms)[j].1 by {
        assert(expected(ms).contains(expected(ms)[j]));
        assert(pairs.contains(expected(ms)[j]));
        let i = choose|i: int| 0 <= i < pairs.len() && pairs[i] == expected(ms)[j];
        assert(ms[i].rom_name == expected(ms)[j].0);
    }
}

proof fn lemma_rarest(ms: Seq<MatchView>, keys: Seq<(Seq<char>, Seq<char>)>)
    requires
        keys.len() > 0,
    ensures
        0 <= rarest(ms, keys) < keys.len(),
    decreases keys.len(),
{
    if keys.len() > 1 {
        lemma_rarest(ms, keys.drop_last());
    }
}

proof fn lemma_first_complete(ms: Seq<MatchView>, paths: Seq<Seq<char>>)
    ensures
        first_complete(ms, paths) matches Some(p) ==> complete(ms, p),
        first_complete(ms, paths) is None ==> forall|i: int|
            0 <= i < paths.len() ==> !complete(ms, #[trigger] paths[i]),
    decreases paths.len(),
{
    if paths.len() > 0 && !complete(ms, paths[0]) {
        let rest = paths.drop_first();
        lemma_first_complete(ms, rest);
        if first_complete(ms, paths) is None {
            assert forall|i: int| 0 <= i < paths.len() implies !complete(
                ms,
                #[trigger] paths[i],
            ) by {
                if i > 0 {
                    assert(rest[i - 1] == paths[i]);
                }
            }
        }
    }
}

/// A container is complete exactly where each ROM of the game, by name and SHA1
/// (case aside), is held in it, and it holds something.
pub proof fn law_complete_holds_every_rom(ms: Seq<MatchView>, path: Seq<char>)
    ensures
        complete(ms, path) <==> (exists|j: int|
            0 <= j < ms.len() && (#[trigger] ms[j]).source_root + "/"@ + ms[j].source_path == path)
            && forall|i: int|
            0 <= i < ms.len() ==> held_there(ms, path, (#[trigger] ms[i]).rom_name, ms[i].sha1),
{
    if complete(ms, path) {
        assert forall|i: int| 0 <= i < ms.len() implies held_there(
            ms,
            path,
            (#[trigger] ms[i]).rom_name,
            ms[i].sha1,
        ) by {
            let j = choose|j: int|
                0 <= j < ms.len() && types::held_at(#[trigger] ms[j]) == path && key_of(ms[j])
                    == key_of(ms[i]);
            assert(ms[j].rom_name == ms[i].rom_name);
        }
    }
    if (exists|j: int|
        0 <= j < ms.len() && (#[trigger] ms[j]).source_root + "/"@ + ms[j].source_path == path)
        && forall|i: int|
        0 <= i < ms.len() ==> held_there(ms, path, (#[trigger] ms[i]).rom_name, ms[i].sha1) {
        let j = choose|j: int|
            0 <= j < ms.len() && (#[trigger] ms[j]).source_root + "/"@ + ms[j].source_path == path;
        assert(types::held_at(ms[j]) == path);
        assert forall|i: int| 0 <= i < ms.len() implies holds_key(
            ms,
            path,
            key_of(#[trigger] ms[i]),
        ) by {
            let k = choose|k: int|
                0 <= k < ms.len() && (#[trigger] ms[k]).source_root + "/"@ + ms[k].source_path
                    == path && ms[k].rom_name == ms[i].rom_name && text::lower_seq(ms[k].sha1)
                    == text::lower_seq(ms[i].sha1);
            assert(types::held_at(ms[k]) == path);
        }
    }
}

/// The entries of a container are the matches held at its path, in their order.
pub proof fn law_entries_are_held_there(ms: Seq<MatchView>, path: Seq<char>)
    ensures
        entries_of(ms, path) == ms.filter(
            |m: MatchView| m.source_root + "/"@ + m.source_path == path,
        ),
{
    let a = |m: MatchView| types::held_at(m) == path;
    let b = |m: MatchView| m.source_root + "/"@ + m.source_path == path;
    assert(a =~= b);
}

/// Whether a ROM, by name and SHA1 (case aside), is held in a container.
pub open spec fn held_there(
    ms: Seq<MatchView>,
    path: Seq<char>,
    rom_name: Seq<char>,
    sha1: Seq<char>,
) -> bool {
    exists|k: int|
        0 <= k < ms.len() && (#[trigger] ms[k]).source_root + "/"@ + ms[k].source_path == path
            && ms[k].rom_name == rom_name && text::lower_seq(ms[k].sha1) == text::lower_seq(sha1)
}

/// Whether a source of an archive entry is one match, whole: its file, its entry
/// where the file is an archive, its SHA1, under the name of its ROM.
pub open spec fn is_entry_for(s: SourceRefView, m: MatchView) -> bool {
    &&& s.path == m.source_root + "/"@ + m.source_path
    &&& s.archive_path == m.archive_path
    &&& s.sha1 == m.sha1
    &&& s.entry_name == Some(m.rom_name)
}

/// Whether sources build a whole game: each is a match of it, and for each match
/// there is one of its name and content.
pub open spec fn builds(sources: Seq<SourceRefView>, ms: Seq<MatchView>) -> bool {
    &&& forall|i: int| 0 <= i < sources.len() ==> feeds_from(#[trigger] sources[i], ms)
    &&& forall|j: int|
        0 <= j < ms.len() ==> entry_among(sources, (#[trigger] ms[j]).rom_name, ms[j].sha1)
}

/// Whether a source is one of some matches.
pub open spec fn feeds_from(s: SourceRefView, ms: Seq<MatchView>) -> bool {
    exists|j: int| 0 <= j < ms.len() && is_entry_for(s, #[trigger] ms[j])
}

/// Whether there is a source of an entry with a name and content (case of the SHA1
/// aside).
pub open spec fn entry_among(
    sources: Seq<SourceRefView>,
    rom_name: Seq<char>,
    sha1: Seq<char>,
) -> bool {
    exists|i: int|
        0 <= i < sources.len() && (#[trigger] sources[i]).entry_name == Some(rom_name)
            && text::lower_seq(sources[i].sha1) == text::lower_seq(sha1)
}

pub proof fn lemma_source_refs(fed: Seq<MatchView>)
    ensures
        source_refs(fed) matches Ok(refs) ==> refs.len() == fed.len() && forall|i: int|
            0 <= i < fed.len() ==> is_entry_for(#[trigger] refs[i], fed[i]) && paths::fault_of(
                fed[i].rom_name,
            ) is None,
        source_refs(fed) is Ok <==> forall|i: int|
            0 <= i < fed.len() ==> paths::fault_of((#[trigger] fed[i]).rom_name) is None,
    decreases fed.len(),
{
    if fed.len() > 0 {
        let rest = fed.drop_last();
        lemma_source_refs(rest);
        assert forall|i: int| 0 <= i < rest.len() implies rest[i] == #[trigger] fed[i] by {}
        assert(fed[fed.len() - 1] == fed.last());
        if source_refs(fed) is Ok {
            let refs = source_refs(fed)->Ok_0;
            let before = source_refs(rest)->Ok_0;
            assert forall|i: int| 0 <= i < fed.len() implies is_entry_for(
                #[trigger] refs[i],
                fed[i],
            ) && paths::fault_of(fed[i].rom_name) is None by {
                if i < rest.len() {
                    assert(refs[i] == before[i]);
                    assert(rest[i] == fed[i]);
                }
            }
        } else if source_refs(rest) is Err {
            let i = choose|i: int|
                0 <= i < rest.len() && paths::fault_of((#[trigger] rest[i]).rom_name) is Some;
            assert(paths::fault_of(fed[i].rom_name) is Some);
        }
    }
}

proof fn lemma_entries_in(ms: Seq<MatchView>, paths_in: Seq<Seq<char>>, m: MatchView)
    ensures
        entries_in(ms, paths_in).contains(m) <==> ms.contains(m) && paths_in.contains(
            types::held_at(m),
        ),
    decreases paths_in.len(),
{
    if paths_in.len() > 0 {
        let rest = paths_in.drop_last();
        let last = paths_in.last();
        let a = entries_in(ms, rest);
        let b = entries_of(ms, last);
        lemma_entries_in(ms, rest, m);
        seqs::lemma_filter_members(ms, |x: MatchView| types::held_at(x) == last);
        assert(b.contains(m) <==> ms.contains(m) && types::held_at(m) == last);
        assert(paths_in[paths_in.len() - 1] == last);
        if rest.contains(types::held_at(m)) {
            let i = choose|i: int| 0 <= i < rest.len() && rest[i] == types::held_at(m);
            assert(paths_in[i] == rest[i]);
        }
        if paths_in.contains(types::held_at(m)) && types::held_at(m) != last {
            let i = choose|i: int| 0 <= i < paths_in.len() && paths_in[i] == types::held_at(m);
            assert(rest[i] == paths_in[i]);
        }
        if a.contains(m) {
            let i = choose|i: int| 0 <= i < a.len() && a[i] == m;
            assert((a + b)[i] == m);
        }
        if b.contains(m) {
            let i = choose|i: int| 0 <= i < b.len() && b[i] == m;
            assert((a + b)[a.len() + i] == m);
        }
        if (a + b).contains(m) {
            let i = choose|i: int| 0 <= i < (a + b).len() && (a + b)[i] == m;
            if i < a.len() {
                assert(a[i] == m);
            } else {
                assert(b[i - a.len()] == m);
            }
        }
    }
}

pub proof fn lemma_containers_finite(ms: Seq<MatchView>)
    ensures
        containers(ms).finite(),
        sorted_map::in_order::<String>(containers(ms)).to_set() == containers(ms),
{
    let list = ms.map_values(|m: MatchView| types::held_at(m));
    assert forall|p: Seq<char>| #[trigger] containers(ms).contains(p) <==> list.to_set().contains(
        p,
    ) by {
        if containers(ms).contains(p) {
            let i = choose|i: int| 0 <= i < ms.len() && types::held_at(#[trigger] ms[i]) == p;
            assert(list[i] == p);
        }
        if list.to_set().contains(p) {
            let i = choose|i: int| 0 <= i < list.len() && list[i] == p;
            assert(types::held_at(ms[i]) == p);
        }
    }
    assert(containers(ms) =~= list.to_set());
    vstd::seq_lib::seq_to_set_is_finite(list);
    sorted_map::lemma_order_exists::<String>(containers(ms));
}

/// What feeds a repack of a game builds the whole of it, wherever it is fed from: a
/// complete container, or all containers together.
pub proof fn law_feeders_build_the_whole_game(ms: Seq<MatchView>, dest: Seq<char>)
    ensures
        source_refs(feeders(ms, built_from(ms, dest))) matches Ok(sources) ==> builds(sources, ms),
{
    let from = built_from(ms, dest);
    let fed = feeders(ms, from);
    lemma_source_refs(fed);
    law_complete_container_is_found(ms, dest);
    if source_refs(fed) is Ok {
        let sources = source_refs(fed)->Ok_0;
        let order = sorted_map::in_order::<String>(containers(ms));
        lemma_containers_finite(ms);
        assert forall|i: int| 0 <= i < sources.len() implies feeds_from(
            #[trigger] sources[i],
            ms,
        ) by {
            assert(fed.contains(fed[i]));
            match from {
                Some(path) => {
                    seqs::lemma_filter_members(ms, |m: MatchView| types::held_at(m) == path);
                },
                None => {
                    lemma_entries_in(ms, order, fed[i]);
                },
            }
            let j = choose|j: int| 0 <= j < ms.len() && ms[j] == fed[i];
            assert(is_entry_for(sources[i], ms[j]));
        }
        assert forall|j: int| 0 <= j < ms.len() implies entry_among(
            sources,
            (#[trigger] ms[j]).rom_name,
            ms[j].sha1,
        ) by {
            let k = match from {
                Some(path) => {
                    assert(holds_key(ms, path, key_of(ms[j])));
                    choose|k: int|
                        0 <= k < ms.len() && types::held_at(#[trigger] ms[k]) == path && key_of(
                            ms[k],
                        ) == key_of(ms[j])
                },
                None => j,
            };
            assert(ms.contains(ms[k]));
            match from {
                Some(path) => {
                    seqs::lemma_filter_members(ms, |m: MatchView| types::held_at(m) == path);
                },
                None => {
                    assert(is_container(ms, types::held_at(ms[j])));
                    assert(containers(ms).contains(types::held_at(ms[j])));
                    assert(order.to_set().contains(types::held_at(ms[j])));
                    lemma_entries_in(ms, order, ms[j]);
                },
            }
            assert(fed.contains(ms[k]));
            let i = choose|i: int| 0 <= i < fed.len() && fed[i] == ms[k];
            assert(is_entry_for(sources[i], fed[i]));
            assert(sources[i].entry_name == Some(ms[j].rom_name));
        }
    }
}

/// The size of a repack counts each ROM once: another copy of a ROM adds nothing, and
/// a ROM with a name of its own adds its size.
pub proof fn law_each_rom_counts_once(ms: Seq<MatchView>, v: MatchView)
    ensures
        size_sum(Seq::empty(), expected(Seq::empty())) == 0,
        (exists|i: int|
            0 <= i < ms.len() && (#[trigger] ms[i]).rom_name == v.rom_name && ms[i].sha1 == v.sha1)
            ==> size_sum(ms.push(v), expected(ms.push(v))) == size_sum(ms, expected(ms)),
        (forall|i: int| 0 <= i < ms.len() ==> (#[trigger] ms[i]).rom_name != v.rom_name)
            ==> size_sum(ms.push(v), expected(ms.push(v))) == size_sum(ms, expected(ms))
            + v.size as u64,
{
    let pair = |m: MatchView| (m.rom_name, m.sha1);
    let pairs = ms.map_values(pair);
    assert(Seq::<MatchView>::empty().map_values(pair) =~= Seq::empty());
    lemma_expected_push(ms, v);
    seqs::lemma_distinct(pairs);
    let old_names = expected(ms);
    assert forall|i: int| 0 <= i < old_names.len() implies has_name(
        ms,
        (#[trigger] old_names[i]).0,
    ) by {
        assert(old_names.contains(old_names[i]));
        let k = choose|k: int| 0 <= k < pairs.len() && pairs[k] == old_names[i];
        assert(ms[k].rom_name == old_names[i].0);
    }
    lemma_size_sum_kept(ms, v, old_names);
    if exists|i: int|
        0 <= i < ms.len() && (#[trigger] ms[i]).rom_name == v.rom_name && ms[i].sha1 == v.sha1 {
        let i = choose|i: int|
            0 <= i < ms.len() && (#[trigger] ms[i]).rom_name == v.rom_name && ms[i].sha1 == v.sha1;
        assert(pairs[i] == (v.rom_name, v.sha1));
        assert(pairs.contains((v.rom_name, v.sha1)));
    }
    if forall|i: int| 0 <= i < ms.len() ==> (#[trigger] ms[i]).rom_name != v.rom_name {
        if pairs.contains((v.rom_name, v.sha1)) {
            let k = choose|k: int| 0 <= k < pairs.len() && pairs[k] == (v.rom_name, v.sha1);
            assert(ms[k].rom_name == v.rom_name);
        }
        assert(!has_name(ms, v.rom_name));
        lemma_names_push(ms, v, v.rom_name);
        let now = expected(ms).push((v.rom_name, v.sha1));
        assert(now.drop_last() =~= expected(ms));
    }
}

proof fn lemma_size_sum_kept(
    ms: Seq<MatchView>,
    v: MatchView,
    roms: Seq<(Seq<char>, Seq<char>)>,
)
    requires
        forall|i: int| 0 <= i < roms.len() ==> has_name(ms, (#[trigger] roms[i]).0),
    ensures
        size_sum(ms.push(v), roms) == size_sum(ms, roms),
    decreases roms.len(),
{
    if roms.len() > 0 {
        let rest = roms.drop_last();
        assert forall|i: int| 0 <= i < rest.len() implies has_name(
            ms,
            (#[trigger] rest[i]).0,
        ) by {
            assert(rest[i] == roms[i]);
        }
        assert(roms[roms.len() - 1] == roms.last());
        lemma_size_sum_kept(ms, v, rest);
        lemma_names_push(ms, v, roms.last().0);
    }
}

/// Where several archives are complete, the search goes by the ROM that the fewest
/// containers hold, the first where several are as rare.
pub proof fn law_search_goes_by_the_rarest_rom(
    ms: Seq<MatchView>,
    keys: Seq<(Seq<char>, Seq<char>)>,
    j: int,
)
    requires
        0 <= j < keys.len(),
    ensures
        0 <= rarest(ms, keys) < keys.len(),
        holders(ms, keys[rarest(ms, keys)]).len() <= holders(ms, keys[j]).len(),
        j < rarest(ms, keys) ==> holders(ms, keys[rarest(ms, keys)]).len() < holders(
            ms,
            keys[j],
        ).len(),
    decreases keys.len(),
{
    if keys.len() > 1 {
        let rest = keys.drop_last();
        law_search_goes_by_the_rarest_rom(ms, rest, 0);
        let before = rarest(ms, rest);
        assert(rest[before] == keys[before]);
        if j < rest.len() {
            law_search_goes_by_the_rarest_rom(ms, rest, j);
            assert(rest[j] == keys[j]);
        }
    }
}

/// A complete container is found whenever there is one, and what is found is
/// complete.
pub proof fn law_complete_container_is_found(ms: Seq<MatchView>, dest: Seq<char>)
    ensures
        built_from(ms, dest) matches Some(p) ==> complete(ms, p),
        built_from(ms, dest) is None ==> forall|p: Seq<char>| !#[trigger] complete(ms, p),
{
    let keys = expected_keys(ms);
    lemma_expected_keys(ms);
    if !complete(ms, dest) && keys.len() > 0 {
        lemma_rarest(ms, keys);
        let k = keys[rarest(ms, keys)];
        let candidates = holders(ms, k);
        lemma_first_complete(ms, candidates);
        if built_from(ms, dest) is None {
            assert forall|p: Seq<char>| !#[trigger] complete(ms, p) by {
                if complete(ms, p) {
                    let j = rarest(ms, keys);
                    assert(expected(ms)[j] == expected(ms)[j]);
                    let i = choose|i: int|
                        0 <= i < ms.len() && (#[trigger] ms[i]).rom_name == expected(ms)[j].0
                            && ms[i].sha1 == expected(ms)[j].1;
                    assert(key_of(ms[i]) == k);
                    assert(holds_key(ms, p, k));
                    lemma_holders_members(ms, k, p);
                    let q = choose|q: int| 0 <= q < candidates.len() && candidates[q] == p;
                    assert(complete(ms, candidates[q]));
                }
            }
        }
    } else if !complete(ms, dest) {
        assert forall|p: Seq<char>| !#[trigger] complete(ms, p) by {
            if complete(ms, p) {
                let i = choose|i: int| 0 <= i < ms.len() && types::held_at(#[trigger] ms[i]) == p;
                assert(keys.contains(key_of(ms[i])));
            }
        }
    }
}

/// A game's matches, indexed by container and by content.
pub struct ArchiveGame {
    model: Ghost<Seq<MatchView>>,
    expected: Vec<ContentKey>,
    expected_keys: Vec<ContentKey>,
    containers: SortedMap<String, Vec<MatchedRom>>,
    container_keys: SortedMap<String, SortedSet<ContentKey>>,
    holders: SortedMap<ContentKey, Vec<String>>,
    name_size: SortedMap<String, u64>,
}

/// Whether the containers are those of the matches.
spec fn containers_fit(
    containers: Map<Seq<char>, Vec<MatchedRom>>,
    ms: Seq<MatchView>,
) -> bool {
    &&& forall|p: Seq<char>| #[trigger] containers.contains_key(p) <==> is_container(ms, p)
    &&& forall|p: Seq<char>| #[trigger]
        containers.contains_key(p) ==> containers[p].deep_view() == entries_of(ms, p)
}

spec fn keys_fit(
    container_keys: Map<Seq<char>, SortedSet<ContentKey>>,
    ms: Seq<MatchView>,
) -> bool {
    &&& forall|p: Seq<char>| #[trigger] container_keys.contains_key(p) <==> is_container(ms, p)
    &&& forall|p: Seq<char>, k: (Seq<char>, Seq<char>)|
        container_keys.contains_key(p) ==> (#[trigger] container_keys[p]@.contains(k)
            <==> holds_key(ms, p, k))
}

spec fn holders_fit(
    map: Map<(Seq<char>, Seq<char>), Vec<String>>,
    ms: Seq<MatchView>,
) -> bool {
    forall|k: (Seq<char>, Seq<char>)|
        #![trigger map.contains_key(k)]
        #![trigger holders(ms, k)]
        holders(ms, k) == (if map.contains_key(k) {
            map[k].deep_view()
        } else {
            Seq::empty()
        })
}

spec fn sizes_fit(map: Map<Seq<char>, u64>, ms: Seq<MatchView>) -> bool {
    &&& forall|n: Seq<char>| #[trigger] map.contains_key(n) <==> has_name(ms, n)
    &&& forall|n: Seq<char>| #[trigger] map.contains_key(n) ==> map[n] == first_size(ms, n)
}

impl ArchiveGame {
    #[verifier::type_invariant]
    spec fn fits(&self) -> bool {
        let ms = self.model@;
        &&& self.expected.deep_view() == expected(ms)
        &&& self.expected_keys.deep_view() == expected_keys(ms)
        &&& containers_fit(self.containers@, ms)
        &&& keys_fit(self.container_keys@, ms)
        &&& holders_fit(self.holders@, ms)
        &&& sizes_fit(self.name_size@, ms)
    }
}

impl View for ArchiveGame {
    type V = Seq<MatchView>;

    closed spec fn view(&self) -> Seq<MatchView> {
        self.model@
    }
}

fn content_key_of(name: &str, sha1: &str) -> (r: ContentKey)
    ensures
        r.deep_view() == content_key(name@, sha1@),
{
    (name.to_owned(), text::lower_string(sha1))
}

fn source_ref_for(m: &MatchedRom) -> (r: Result<SourceRef, PathError>)
    ensures
        match r {
            Ok(s) => paths::fault_of(m.rom_name@) is None && s.deep_view() == source_ref(
                m.deep_view(),
            ),
            Err(e) => paths::fault_of(m.rom_name@) == Some(e.fault) && e.label@
                == "ROM entry name"@ && e.value@ == m.rom_name@,
        },
{
    match validate_relative_path("ROM entry name", m.rom_name.as_str()) {
        Err(e) => Err(e),
        Ok(_) => Ok(
            SourceRef {
                path: m.location(),
                archive_path: text::clone_opt(&m.archive_path),
                sha1: m.sha1.clone(),
                entry_name: Some(m.rom_name.clone()),
            },
        ),
    }
}

/// The contents of a list of borrowed matches.
pub open spec fn borrowed_views(list: Seq<&MatchedRom>) -> Seq<MatchView> {
    Seq::new(list.len(), |i: int| list[i].deep_view())
}

impl ArchiveGame {
    /// Indexes the matches of one game.
    pub fn from_matches(matches: Vec<MatchedRom>) -> (game: Self)
        ensures
            game@ == matches.deep_view(),
    {
        let ghost all = matches.deep_view();
        let ghost pair = |m: MatchView| (m.rom_name, m.sha1);
        let mut expected_list: Vec<ContentKey> = Vec::new();
        let mut keys_list: Vec<ContentKey> = Vec::new();
        let mut seen: SortedSet<ContentKey> = SortedSet::new();
        let mut containers: SortedMap<String, Vec<MatchedRom>> = SortedMap::new();
        let mut container_keys: SortedMap<String, SortedSet<ContentKey>> = SortedMap::new();
        let mut holder_map: SortedMap<ContentKey, Vec<String>> = SortedMap::new();
        let mut name_size: SortedMap<String, u64> = SortedMap::new();
        let mut i: usize = 0;
        proof {
            let none = all.take(0);
            assert(none.map_values(pair) =~= Seq::empty());
            assert(expected_list.deep_view() =~= expected(none));
            assert(keys_list.deep_view() =~= expected_keys(none));
            reveal(Seq::filter);
            assert forall|k: (Seq<char>, Seq<char>)| #[trigger] holders(none, k)
                =~= Seq::<Seq<char>>::empty() by {
                assert(none.filter(|m: MatchView| key_of(m) == k).map_values(
                    |m: MatchView| types::held_at(m),
                ) =~= Seq::<Seq<char>>::empty());
            }
        }
        while i < matches.len()
            invariant
                i <= matches@.len(),
                all == matches.deep_view(),
                pair == (|m: MatchView| (m.rom_name, m.sha1)),
                expected_list.deep_view() == expected(all.take(i as int)),
                keys_list.deep_view() == expected_keys(all.take(i as int)),
                forall|e: (Seq<char>, Seq<char>)|
                    #[trigger] seen@.contains(e) <==> all.take(i as int).map_values(
                        pair,
                    ).contains(e),
                containers_fit(containers@, all.take(i as int)),
                keys_fit(container_keys@, all.take(i as int)),
                holders_fit(holder_map@, all.take(i as int)),
                sizes_fit(name_size@, all.take(i as int)),
            decreases matches@.len() - i,
        {
            let m = &matches[i];
            let ghost ms = all.take(i as int);
            let ghost v = m.deep_view();
            let ghost at = types::held_at(v);
            let ghost k0 = key_of(v);
            proof {
                assert(all.take(i + 1) =~= ms.push(v));
                lemma_expected_push(ms, v);
            }
            // The list of expected ROMs.
            let rom: ContentKey = (m.rom_name.clone(), m.sha1.clone());
            let ghost e0 = rom.deep_view();
            let ghost seen0 = seen@;
            if !seen.has(&rom) {
                let ghost before = expected_list.deep_view();
                let ghost keys_before = keys_list.deep_view();
                keys_list.push(content_key_of(m.rom_name.as_str(), m.sha1.as_str()));
                expected_list.push((m.rom_name.clone(), m.sha1.clone()));
                seen.insert(rom);
                proof {
                    assert(expected_list.deep_view() =~= before.push(e0));
                    assert(keys_list.deep_view() =~= keys_before.push(k0));
                    assert(keys_list.deep_view() =~= expected_keys(ms.push(v)));
                }
            }
            proof {
                let a = ms.map_values(pair);
                let b = ms.push(v).map_values(pair);
                assert(b =~= a.push(e0));
                assert forall|e: (Seq<char>, Seq<char>)| #[trigger]
                    seen@.contains(e) <==> b.contains(e) by {
                    assert(seen0.contains(e) <==> a.contains(e));
                    if a.contains(e) {
                        let j = choose|j: int| 0 <= j < a.len() && a[j] == e;
                        assert(b[j] == e);
                    }
                    if b.contains(e) {
                        let j = choose|j: int| 0 <= j < b.len() && b[j] == e;
                        if j < a.len() {
                            assert(a[j] == e);
                        }
                    }
                    assert(b[a.len() as int] == e0);
                }
            }
            // The size of the name.
            let ghost sizes0 = name_size@;
            if !name_size.contains_key(&m.rom_name) {
                name_size.insert(m.rom_name.clone(), m.size as u64);
            }
            proof {
                assert forall|n: Seq<char>| #[trigger]
                    name_size@.contains_key(n) <==> has_name(ms.push(v), n) by {
                    lemma_names_push(ms, v, n);
                    assert(sizes0.contains_key(n) <==> has_name(ms, n));
                }
                assert forall|n: Seq<char>| #[trigger] name_size@.contains_key(n) implies name_size@[n]
                    == first_size(ms.push(v), n) by {
                    lemma_names_push(ms, v, n);
                    assert(sizes0.contains_key(n) <==> has_name(ms, n));
                    if sizes0.contains_key(n) {
                        assert(sizes0[n] == first_size(ms, n));
                    }
                }
            }
            // The keys of the container, and the holders of the key.
            let container = m.location();
            let key = content_key_of(m.rom_name.as_str(), m.sha1.as_str());
            let ghost ck0 = container_keys@;
            let ghost h0 = holder_map@;
            let mut keys: SortedSet<ContentKey> = match container_keys.remove(&container) {
                Some(keys) => keys,
                None => SortedSet::new(),
            };
            let ghost keys0 = keys@;
            proof {
                assert forall|k: (Seq<char>, Seq<char>)| #[trigger]
                    keys0.contains(k) <==> holds_key(ms, at, k) by {
                    if ck0.contains_key(at) {
                        assert(ck0[at]@.contains(k) <==> holds_key(ms, at, k));
                    } else {
                        assert(!is_container(ms, at));
                        if holds_key(ms, at, k) {
                            let j = choose|j: int|
                                0 <= j < ms.len() && types::held_at(#[trigger] ms[j]) == at
                                    && key_of(ms[j]) == k;
                            assert(is_container(ms, at));
                        }
                    }
                }
            }
            if !keys.has(&key) {
                keys.insert((key.0.clone(), key.1.clone()));
                let mut list: Vec<String> = match holder_map.remove(&key) {
                    Some(list) => list,
                    None => Vec::new(),
                };
                let ghost had = list.deep_view();
                proof {
                    assert(had =~= holders(ms, k0));
                }
                list.push(container.clone());
                proof {
                    assert(list.deep_view() =~= had.push(at));
                }
                holder_map.insert(key, list);
            }
            let ghost keys1 = keys@;
            proof {
                assert(keys1 =~= keys0.insert(k0));
                assert forall|k: (Seq<char>, Seq<char>)|
                    #![trigger holder_map@.contains_key(k)]
                    #![trigger holders(ms.push(v), k)]
                    holders(ms.push(v), k) == (if holder_map@.contains_key(k) {
                        holder_map@[k].deep_view()
                    } else {
                        Seq::empty()
                    }) by {
                    lemma_holders_push(ms, v, k);
                    assert(holders(ms, k) == (if h0.contains_key(k) {
                        h0[k].deep_view()
                    } else {
                        Seq::empty()
                    }));
                }
            }
            container_keys.insert(container.clone(), keys);
            proof {
                assert forall|p: Seq<char>| #[trigger]
                    container_keys@.contains_key(p) <==> is_container(ms.push(v), p) by {
                    lemma_entries_push(ms, v, p);
                    assert(ck0.contains_key(p) <==> is_container(ms, p));
                }
                assert forall|p: Seq<char>, k: (Seq<char>, Seq<char>)|
                    container_keys@.contains_key(p) implies (#[trigger] container_keys@[p]@.contains(
                    k,
                ) <==> holds_key(ms.push(v), p, k)) by {
                    lemma_keys_push(ms, v, p, k);
                    if p != at {
                        assert(ck0.contains_key(p));
                        assert(ck0[p]@.contains(k) <==> holds_key(ms, p, k));
                    } else {
                        assert(keys1.contains(k) <==> keys0.contains(k) || k == k0);
                    }
                }
            }
            // The entries of the container.
            let ghost c0 = containers@;
            let mut entries: Vec<MatchedRom> = match containers.remove(&container) {
                Some(entries) => entries,
                None => Vec::new(),
            };
            let ghost had = entries.deep_view();
            proof {
                if !c0.contains_key(at) {
                    assert(!is_container(ms, at));
                    lemma_no_entries(ms, at);
                    assert(had =~= entries_of(ms, at));
                }
            }
            entries.push(m.clone());
            proof {
                assert(entries.deep_view() =~= had.push(v));
            }
            containers.insert(container, entries);
            proof {
                assert forall|p: Seq<char>| #[trigger]
                    containers@.contains_key(p) <==> is_container(ms.push(v), p) by {
                    lemma_entries_push(ms, v, p);
                    assert(c0.contains_key(p) <==> is_container(ms, p));
                }
                assert forall|p: Seq<char>| #[trigger] containers@.contains_key(p) implies containers@[p].deep_view()
                    == entries_of(ms.push(v), p) by {
                    lemma_entries_push(ms, v, p);
                    if p != at {
                        assert(c0.contains_key(p));
                    }
                }
            }
            i = i + 1;
        }
        proof {
            assert(all.take(i as int) =~= all);
        }
        ArchiveGame {
            model: Ghost(all),
            expected: expected_list,
            expected_keys: keys_list,
            containers,
            container_keys,
            holders: holder_map,
            name_size,
        }
    }

    /// How many ROMs the game expects.
    pub fn expected_count(&self) -> (n: usize)
        ensures
            n == expected(self@).len(),
    {
        proof {
            use_type_invariant(&*self);
            assert(self.expected.deep_view().len() == self.expected@.len());
        }
        self.expected.len()
    }

    /// Whether a container holds everything that the game expects.
    pub fn is_complete(&self, path: &str) -> (r: bool)
        ensures
            r == complete(self@, path@),
    {
        proof {
            use_type_invariant(&*self);
            lemma_expected_keys(self@);
        }
        let ghost ms = self@;
        match self.container_keys.get_str(path) {
            None => false,
            Some(keys) => {
                let mut i: usize = 0;
                while i < self.expected_keys.len()
                    invariant
                        i <= self.expected_keys@.len(),
                        ms == self@,
                        self.expected_keys.deep_view() == expected_keys(ms),
                        is_container(ms, path@),
                        forall|k: (Seq<char>, Seq<char>)|
                            #[trigger] keys@.contains(k) <==> holds_key(ms, path@, k),
                        forall|j: int|
                            0 <= j < i ==> holds_key(
                                ms,
                                path@,
                                #[trigger] expected_keys(ms)[j],
                            ),
                        forall|j: int|
                            0 <= j < expected(ms).len() ==> exists|i: int|
                                0 <= i < ms.len() && (#[trigger] ms[i]).rom_name == (
                                #[trigger] expected(ms)[j]).0 && ms[i].sha1 == expected(
                                    ms,
                                )[j].1,
                    decreases self.expected_keys@.len() - i,
                {
                    let ghost k = expected_keys(ms)[i as int];
                    proof {
                        assert(self.expected_keys.deep_view().len() == self.expected_keys@.len());
                        assert(expected_keys(ms).len() == expected(ms).len());
                        assert(self.expected_keys.deep_view()[i as int] == k);
                    }
                    if !keys.has(&self.expected_keys[i]) {
                        proof {
                            let e = expected(ms)[i as int];
                            let q = choose|q: int|
                                0 <= q < ms.len() && (#[trigger] ms[q]).rom_name == e.0
                                    && ms[q].sha1 == e.1;
                            assert(key_of(ms[q]) == k);
                            assert(!holds_key(ms, path@, key_of(ms[q])));
                        }
                        return false;
                    }
                    i = i + 1;
                }
                proof {
                    assert forall|q: int| 0 <= q < ms.len() implies holds_key(
                        ms,
                        path@,
                        key_of(#[trigger] ms[q]),
                    ) by {
                        assert(expected_keys(ms).contains(key_of(ms[q])));
                        let j = choose|j: int|
                            0 <= j < expected_keys(ms).len() && expected_keys(ms)[j] == key_of(
                                ms[q],
                            );
                        assert(holds_key(ms, path@, expected_keys(ms)[j]));
                    }
                }
                true
            },
        }
    }

    /// The container to build the game's archive from.
    pub fn build_from(&self, dest: &str) -> (r: Option<String>)
        ensures
            r.deep_view() == built_from(self@, dest@),
    {
        if self.is_complete(dest) {
            return Some(dest.to_owned());
        }
        proof {
            use_type_invariant(&*self);
        }
        let ghost ms = self@;
        let ghost keys = expected_keys(ms);
        if self.expected_keys.len() == 0 {
            proof {
                assert(keys.len() == 0);
            }
            return None;
        }
        let mut best: usize = 0;
        let mut fewest: usize = self.holder_count(&self.expected_keys[0]);
        let mut i: usize = 1;
        proof {
            assert(keys.take(1).len() == 1);
            assert(self.expected_keys.deep_view()[0] == keys[0]);
        }
        while i < self.expected_keys.len()
            invariant
                1 <= i <= self.expected_keys@.len(),
                ms == self@,
                keys == expected_keys(ms),
                self.expected_keys.deep_view() == keys,
                best < i,
                best == rarest(ms, keys.take(i as int)),
                fewest == holders(ms, keys[best as int]).len(),
            decreases self.expected_keys@.len() - i,
        {
            let n = self.holder_count(&self.expected_keys[i]);
            proof {
                assert(self.expected_keys.deep_view()[i as int] == keys[i as int]);
                assert(keys.take(i + 1).drop_last() =~= keys.take(i as int));
                assert(keys.take(i + 1)[best as int] == keys[best as int]);
            }
            if n < fewest {
                best = i;
                fewest = n;
            }
            i = i + 1;
        }
        proof {
            assert(keys.take(i as int) =~= keys);
            assert(self.expected_keys.deep_view()[best as int] == keys[best as int]);
            use_type_invariant(&*self);
        }
        let ghost candidates = holders(ms, keys[best as int]);
        match self.holders.get(&self.expected_keys[best]) {
            None => {
                proof {
                    assert(candidates =~= Seq::<Seq<char>>::empty());
                }
                None
            },
            Some(list) => {
                proof {
                    assert(list.deep_view() == candidates);
                    assert(candidates.skip(0) =~= candidates);
                    assert(built_from(ms, dest@) == first_complete(ms, candidates));
                }
                let mut j: usize = 0;
                while j < list.len()
                    invariant
                        j <= list@.len(),
                        ms == self@,
                        list.deep_view() == candidates,
                        built_from(ms, dest@) == first_complete(ms, candidates),
                        first_complete(ms, candidates) == first_complete(
                            ms,
                            candidates.skip(j as int),
                        ),
                    decreases list@.len() - j,
                {
                    proof {
                        assert(list.deep_view()[j as int] == candidates[j as int]);
                        assert(candidates.skip(j as int).drop_first() =~= candidates.skip(j + 1));
                    }
                    if self.is_complete(list[j].as_str()) {
                        return Some(list[j].clone());
                    }
                    j = j + 1;
                }
                None
            },
        }
    }

    fn holder_count(&self, key: &ContentKey) -> (n: usize)
        ensures
            n == holders(self@, key.deep_view()).len(),
    {
        proof {
            use_type_invariant(&*self);
        }
        match self.holders.get(key) {
            Some(list) => {
                proof {
                    assert(list.deep_view().len() == list@.len());
                    assert(holders(self@, key.deep_view()) == list.deep_view());
                }
                list.len()
            },
            None => {
                proof {
                    assert(holders(self@, key.deep_view()) =~= Seq::empty());
                }
                0
            },
        }
    }

    /// Whether some of the content also belongs elsewhere.
    pub fn has_shared_content(&self, shared: &SortedSet<String>) -> (r: bool)
        ensures
            r == has_shared(self@, shared@),
    {
        proof {
            use_type_invariant(&*self);
            lemma_expected_keys(self@);
        }
        let ghost ms = self@;
        let mut i: usize = 0;
        while i < self.expected.len()
            invariant
                i <= self.expected@.len(),
                ms == self@,
                self.expected.deep_view() == expected(ms),
                forall|j: int|
                    0 <= j < i ==> !shared@.contains((#[trigger] expected(ms)[j]).1),
                forall|j: int|
                    0 <= j < expected(ms).len() ==> exists|i: int|
                        0 <= i < ms.len() && (#[trigger] ms[i]).rom_name == (
                        #[trigger] expected(ms)[j]).0 && ms[i].sha1 == expected(ms)[j].1,
            decreases self.expected@.len() - i,
        {
            proof {
                assert(self.expected.deep_view()[i as int] == expected(ms)[i as int]);
            }
            if shared.contains(self.expected[i].1.as_str()) {
                proof {
                    let e = expected(ms)[i as int];
                    let q = choose|q: int|
                        0 <= q < ms.len() && (#[trigger] ms[q]).rom_name == e.0 && ms[q].sha1
                            == e.1;
                    assert(shared@.contains(ms[q].sha1));
                }
                return true;
            }
            i = i + 1;
        }
        proof {
            let pair = |m: MatchView| (m.rom_name, m.sha1);
            seqs::lemma_distinct(ms.map_values(pair));
            assert forall|q: int| 0 <= q < ms.len() implies !shared@.contains(
                (#[trigger] ms[q]).sha1,
            ) by {
                let pairs = ms.map_values(pair);
                assert(pairs[q] == (ms[q].rom_name, ms[q].sha1));
                assert(pairs.contains(pairs[q]));
                assert(expected(ms).contains(pairs[q]));
                let j = choose|j: int| 0 <= j < expected(ms).len() && expected(ms)[j] == pairs[q];
                assert(!shared@.contains(expected(ms)[j].1));
            }
        }
        false
    }

    /// The sizes of the expected ROMs, added up.
    pub fn expected_size(&self) -> (n: u64)
        ensures
            n == text::capped(size_sum(self@, expected(self@))),
    {
        proof {
            use_type_invariant(&*self);
            lemma_expected_keys(self@);
        }
        let ghost ms = self@;
        let ghost all = expected(ms);
        let mut total: u64 = 0;
        let mut i: usize = 0;
        while i < self.expected.len()
            invariant
                i <= self.expected@.len(),
                ms == self@,
                all == expected(ms),
                self.expected.deep_view() == all,
                sizes_fit(self.name_size@, ms),
                total == text::capped(size_sum(ms, all.take(i as int))),
                size_sum(ms, all.take(i as int)) >= 0,
                forall|j: int|
                    0 <= j < all.len() ==> exists|i: int|
                        0 <= i < ms.len() && (#[trigger] ms[i]).rom_name == (
                        #[trigger] all[j]).0 && ms[i].sha1 == all[j].1,
            decreases self.expected@.len() - i,
        {
            proof {
                assert(self.expected.deep_view()[i as int] == all[i as int]);
                assert(all.take(i + 1).drop_last() =~= all.take(i as int));
                let e = all[i as int];
                let q = choose|q: int|
                    0 <= q < ms.len() && (#[trigger] ms[q]).rom_name == e.0 && ms[q].sha1 == e.1;
                assert(has_name(ms, e.0));
            }
            let size: u64 = match self.name_size.get(&self.expected[i].0) {
                Some(n) => *n,
                None => 0,
            };
            total = total.saturating_add(size);
            i = i + 1;
        }
        proof {
            assert(all.take(i as int) =~= all);
        }
        total
    }

    /// The entries of a container.
    pub fn entries(&self, path: &str) -> (r: Option<&Vec<MatchedRom>>)
        ensures
            match r {
                Some(list) => is_container(self@, path@) && list.deep_view() == entries_of(
                    self@,
                    path@,
                ) && list@.len() > 0,
                None => !is_container(self@, path@),
            },
    {
        proof {
            use_type_invariant(&*self);
        }
        let r = self.containers.get_str(path);
        proof {
            if let Some(list) = r {
                lemma_some_entry(self@, path@);
                assert(list.deep_view().len() == list@.len());
            }
        }
        r
    }

    /// The number of containers.
    pub fn container_count(&self) -> (n: usize)
        ensures
            n == sorted_map::in_order::<String>(containers(self@)).len(),
    {
        let n = self.containers.len();
        proof {
            use_type_invariant(&*self);
            self.lemma_container_order();
        }
        n
    }

    proof fn lemma_container_order(&self)
        requires
            self.fits(),
            self.containers.linked(),
        ensures
            self.containers.keys() == sorted_map::in_order::<String>(containers(self@)),
    {
        let keys = self.containers.keys();
        assert forall|p: Seq<char>| #[trigger] containers(self@).contains(p) <==> keys.contains(
            p,
        ) by {
            assert(self.containers@.contains_key(p) <==> is_container(self@, p));
        }
        sorted_map::lemma_in_order::<String>(keys, containers(self@));
    }

    /// The container at a place in their order.
    pub fn container_at(&self, i: usize) -> (r: &str)
        requires
            i < sorted_map::in_order::<String>(containers(self@)).len(),
        ensures
            r@ == sorted_map::in_order::<String>(containers(self@))[i as int],
            is_container(self@, r@),
    {
        let n = self.containers.len();
        proof {
            use_type_invariant(&*self);
            self.lemma_container_order();
            assert(self.containers@.contains_key(self.containers.keys()[i as int]));
        }
        self.containers.key_at(i).as_str()
    }

    /// What feeds a repack.
    fn feeding(&self, build_from: Option<&str>) -> (r: Vec<&MatchedRom>)
        requires
            build_from matches Some(path) ==> is_container(self@, path@),
        ensures
            borrowed_views(r@) == feeders(self@, build_from.deep_view()),
    {
        let mut out: Vec<&MatchedRom> = Vec::new();
        match build_from {
            Some(path) => {
                if let Some(list) = self.entries(path) {
                    push_all(&mut out, list);
                    proof {
                        assert(borrowed_views(out@) =~= list.deep_view());
                    }
                }
                out
            },
            None => {
                let n = self.containers.len();
                proof {
                    use_type_invariant(&*self);
                    self.lemma_container_order();
                    assert(borrowed_views(out@) =~= Seq::<MatchView>::empty());
                }
                let ghost order = self.containers.keys();
                let ghost ms = self@;
                let mut i: usize = 0;
                while i < n
                    invariant
                        i <= n,
                        n == order.len(),
                        order == self.containers.keys(),
                        self.containers.linked(),
                        containers_fit(self.containers@, ms),
                        borrowed_views(out@) == entries_in(ms, order.take(i as int)),
                    decreases n - i,
                {
                    let list = self.containers.value_at(i);
                    let ghost before = out@;
                    proof {
                        assert(self.containers@.contains_key(order[i as int]));
                        assert(list.deep_view() == entries_of(ms, order[i as int]));
                        assert(order.take(i + 1).drop_last() =~= order.take(i as int));
                    }
                    push_all(&mut out, list);
                    proof {
                        assert(borrowed_views(out@) =~= borrowed_views(before) + list.deep_view());
                    }
                    i = i + 1;
                }
                proof {
                    assert(order.take(i as int) =~= order);
                }
                out
            },
        }
    }

    /// The sources to build an archive from, or the first entry name that cannot
    /// be used.
    pub fn source_refs_for(&self, build_from: Option<&str>) -> (r: Result<
        Vec<SourceRef>,
        PathError,
    >)
        requires
            build_from matches Some(path) ==> is_container(self@, path@),
        ensures
            match r {
                Ok(refs) => source_refs(feeders(self@, build_from.deep_view())) == Ok::<
                    Seq<SourceRefView>,
                    PathErrorView,
                >(refs.deep_view()),
                Err(e) => source_refs(feeders(self@, build_from.deep_view())) == Err::<
                    Seq<SourceRefView>,
                    PathErrorView,
                >(e.deep_view()),
            },
    {
        let fed = self.feeding(build_from);
        let ghost all = borrowed_views(fed@);
        let mut refs: Vec<SourceRef> = Vec::new();
        let mut i: usize = 0;
        proof {
            assert(refs.deep_view() =~= Seq::<SourceRefView>::empty());
        }
        while i < fed.len()
            invariant
                i <= fed@.len(),
                all == borrowed_views(fed@),
                all == feeders(self@, build_from.deep_view()),
                source_refs(all.take(i as int)) == Ok::<Seq<SourceRefView>, PathErrorView>(
                    refs.deep_view(),
                ),
            decreases fed@.len() - i,
        {
            proof {
                assert(all.take(i + 1).drop_last() =~= all.take(i as int));
            }
            let ghost before = refs.deep_view();
            match source_ref_for(fed[i]) {
                Err(e) => {
                    proof {
                        lemma_refs_err(all, i + 1);
                    }
                    return Err(e);
                },
                Ok(s) => {
                    refs.push(s);
                    proof {
                        assert(refs.deep_view() =~= before.push(s.deep_view()));
                    }
                },
            }
            i = i + 1;
        }
        proof {
            assert(all.take(i as int) =~= all);
        }
        Ok(refs)
    }

    /// The source roots of what feeds a repack.
    pub fn feeder_roots(&self, build_from: Option<&str>) -> (r: Vec<&str>)
        requires
            build_from matches Some(path) ==> is_container(self@, path@),
        ensures
            r.deep_view() == feeders(self@, build_from.deep_view()).map_values(
                |m: MatchView| m.source_root,
            ),
    {
        let fed = self.feeding(build_from);
        let ghost all = borrowed_views(fed@);
        let mut roots: Vec<&str> = Vec::new();
        let mut i: usize = 0;
        while i < fed.len()
            invariant
                i <= fed@.len(),
                all == borrowed_views(fed@),
                roots@.len() == i,
                forall|j: int| 0 <= j < i ==> (#[trigger] roots@[j])@ == all[j].source_root,
            decreases fed@.len() - i,
        {
            let m: &MatchedRom = fed[i];
            roots.push(m.source_root.as_str());
            i = i + 1;
        }
        proof {
            assert(roots.deep_view() =~= all.map_values(|m: MatchView| m.source_root));
        }
        roots
    }
}

fn push_all<'a>(out: &mut Vec<&'a MatchedRom>, list: &'a Vec<MatchedRom>)
    ensures
        borrowed_views(final(out)@) == borrowed_views(old(out)@) + list.deep_view(),
{
    let ghost before = borrowed_views(out@);
    let mut i: usize = 0;
    proof {
        assert(before + list.deep_view().take(0) =~= before);
    }
    while i < list.len()
        invariant
            i <= list@.len(),
            borrowed_views(out@) == before + list.deep_view().take(i as int),
        decreases list@.len() - i,
    {
        let ghost o = out@;
        out.push(&list[i]);
        i = i + 1;
        proof {
            assert(borrowed_views(out@) =~= borrowed_views(o).push(list.deep_view()[i - 1]));
            assert(before + list.deep_view().take(i as int) =~= (before + list.deep_view().take(
                i - 1,
            )).push(list.deep_view()[i - 1]));
        }
    }
    proof {
        assert(list.deep_view().take(i as int) =~= list.deep_view());
    }
}

proof fn lemma_refs_err(ms: Seq<MatchView>, n: int)
    requires
        0 <= n <= ms.len(),
        source_refs(ms.take(n)) is Err,
    ensures
        source_refs(ms) == source_refs(ms.take(n)),
    decreases ms.len(),
{
    if n == ms.len() {
        assert(ms.take(n) =~= ms);
    } else {
        assert(ms.drop_last().take(n) =~= ms.take(n));
        lemma_refs_err(ms.drop_last(), n);
    }
}

proof fn lemma_no_entries(ms: Seq<MatchView>, path: Seq<char>)
    requires
        !is_container(ms, path),
    ensures
        entries_of(ms, path) == Seq::<MatchView>::empty(),
{
    let at = |m: MatchView| types::held_at(m) == path;
    seqs::lemma_filter_members(ms, at);
    if entries_of(ms, path).len() > 0 {
        let x = entries_of(ms, path)[0];
        assert(entries_of(ms, path).contains(x));
        assert(ms.contains(x));
        let i = choose|i: int| 0 <= i < ms.len() && ms[i] == x;
        assert(types::held_at(ms[i]) == path);
    }
    assert(entries_of(ms, path) =~= Seq::<MatchView>::empty());
}

/// A container has an entry, and all its entries are held in it.
pub proof fn lemma_some_entry(ms: Seq<MatchView>, path: Seq<char>)
    requires
        is_container(ms, path),
    ensures
        entries_of(ms, path).len() > 0,
        forall|i: int|
            0 <= i < entries_of(ms, path).len() ==> types::held_at(
                #[trigger] entries_of(ms, path)[i],
            ) == path && ms.contains(entries_of(ms, path)[i]),
{
    let at = |m: MatchView| types::held_at(m) == path;
    seqs::lemma_filter_members(ms, at);
    let i = choose|i: int| 0 <= i < ms.len() && types::held_at(#[trigger] ms[i]) == path;
    assert(ms.contains(ms[i]));
    assert(entries_of(ms, path).contains(ms[i]));
    assert forall|j: int| 0 <= j < entries_of(ms, path).len() implies types::held_at(
        #[trigger] entries_of(ms, path)[j],
    ) == path && ms.contains(entries_of(ms, path)[j]) by {
        assert(entries_of(ms, path).contains(entries_of(ms, path)[j]));
    }
}

} // verus!
