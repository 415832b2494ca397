//! Containers that repacks rebuilt from and that are safe to lose afterwards.

use super::types;
use super::types::{
    ContainerRebuild, KindView, MatchView, MatchedRom, Plan, RebuildEntry, RebuildEntryView,
    RebuildView,
};
use crate::paths;
use crate::paths::{validate_relative_path, PathError, PathErrorView};
use crate::seqs;
use crate::sorted_map;
use crate::sorted_map::{Key, SortedMap, SortedSet};
use crate::text;
use vstd::prelude::*;

verus! {

/// What is gathered, across the games that repack from one container, to
/// rebuild it on rollback.
#[derive(Debug)]
pub struct ContainerDrain {
    /// Archive format to rebuild the container in (`zip` or `7z`)
    pub format: String,
    /// A representative destination, for the reason of the delete
    pub reason_dest: String,
    /// Where each of the container's entries was repacked to
    pub entries: Vec<RebuildEntry>,
}

#[verifier::ext_equal]
pub struct DrainView {
    pub format: Seq<char>,
    pub reason_dest: Seq<char>,
    pub entries: Seq<RebuildEntryView>,
}

impl DeepView for ContainerDrain {
    type V = DrainView;

    open spec fn deep_view(&self) -> DrainView {
        DrainView {
            format: self.format@,
            reason_dest: self.reason_dest@,
            entries: self.entries.deep_view(),
        }
    }
}

/// A repack out of a container: where its entries go.
#[derive(Debug)]
pub struct DrainRecord {
    pub container: String,
    pub dest: String,
    pub entries: Vec<RebuildEntry>,
}

#[verifier::ext_equal]
pub struct DrainRecordView {
    pub container: Seq<char>,
    pub dest: Seq<char>,
    pub entries: Seq<RebuildEntryView>,
}

impl DeepView for DrainRecord {
    type V = DrainRecordView;

    open spec fn deep_view(&self) -> DrainRecordView {
        DrainRecordView {
            container: self.container@,
            dest: self.dest@,
            entries: self.entries.deep_view(),
        }
    }
}

/// The archive format of a container, by its name.
pub open spec fn container_format(path: Seq<char>) -> Seq<char> {
    if text::finishes(text::lower_seq(path), ".7z"@) {
        "7z"@
    } else {
        "zip"@
    }
}

/// Where the archived entries of a container go, or the first name that is
/// rejected.
pub open spec fn rebuild_entries(ms: Seq<MatchView>, dest: Seq<char>) -> Result<
    Seq<RebuildEntryView>,
    PathErrorView,
>
    decreases ms.len(),
{
    if ms.len() == 0 {
        Ok(Seq::empty())
    } else {
        let m = ms.last();
        match rebuild_entries(ms.drop_last(), dest) {
            Err(e) => Err(e),
            Ok(entries) => match m.archive_path {
                None => Ok(entries),
                Some(entry) => match (paths::fault_of(entry), paths::fault_of(m.rom_name)) {
                    (Some(fault), _) => Err(
                        PathErrorView { label: "archive entry name"@, value: entry, fault },
                    ),
                    (None, Some(fault)) => Err(
                        PathErrorView { label: "ROM entry name"@, value: m.rom_name, fault },
                    ),
                    (None, None) => Ok(
                        entries.push(
                            RebuildEntryView {
                                dest,
                                dest_entry: m.rom_name,
                                container_entry: entry,
                                sha1: m.sha1,
                            },
                        ),
                    ),
                },
            },
        }
    }
}

/// The drains with one more repack recorded: the entries of a container gather
/// over the repacks out of it, and the first destination names the reason.
pub open spec fn recorded(
    drains: Map<Seq<char>, DrainView>,
    record: DrainRecordView,
) -> Map<Seq<char>, DrainView> {
    drains.insert(
        record.container,
        if drains.contains_key(record.container) {
            DrainView {
                entries: drains[record.container].entries + record.entries,
                ..drains[record.container]
            }
        } else {
            DrainView {
                format: container_format(record.container),
                reason_dest: record.dest,
                entries: record.entries,
            }
        },
    )
}

/// The drains with several repacks recorded, in order.
pub open spec fn all_recorded(
    drains: Map<Seq<char>, DrainView>,
    records: Seq<DrainRecordView>,
) -> Map<Seq<char>, DrainView>
    decreases records.len(),
{
    if records.len() == 0 {
        drains
    } else {
        recorded(all_recorded(drains, records.drop_last()), records.last())
    }
}

/// Whether an entry name occurs among entries.
pub open spec fn names_entry(entries: Seq<RebuildEntryView>, name: Seq<char>) -> bool {
    exists|i: int| 0 <= i < entries.len() && (#[trigger] entries[i]).container_entry == name
}

/// The first entry for each name in the container.
pub open spec fn first_by_name(entries: Seq<RebuildEntryView>) -> Seq<RebuildEntryView>
    decreases entries.len(),
{
    if entries.len() == 0 {
        entries
    } else {
        let before = first_by_name(entries.drop_last());
        if names_entry(entries.drop_last(), entries.last().container_entry) {
            before
        } else {
            before.push(entries.last())
        }
    }
}

/// The delete of a drained container.
pub open spec fn drain_kind(container: Seq<char>, d: DrainView) -> KindView {
    KindView::Delete {
        path: container,
        reason: "consolidated into "@ + d.reason_dest,
        rebuild: Some(RebuildView { format: d.format, entries: first_by_name(d.entries) }),
    }
}

/// The deletes of all drained containers, in the order of their paths.
pub open spec fn drain_kinds(drains: Map<Seq<char>, DrainView>) -> Seq<KindView> {
    sorted_map::in_order::<String>(drains.dom()).map_values(
        |c: Seq<char>| drain_kind(c, drains[c]),
    )
}

/// Whether a rebuild entry tells of one archived match: what it was called in the
/// container, what it is called where it went, and its SHA1.
pub open spec fn tells_of(e: RebuildEntryView, m: MatchView, dest: Seq<char>) -> bool {
    &&& m.archive_path == Some(e.container_entry)
    &&& e.dest_entry == m.rom_name
    &&& e.sha1 == m.sha1
    &&& e.dest == dest
}

/// What is recorded of a container tells of each archived match, in order, and of
/// nothing else, so that the container can be put together again from where its
/// entries went.
pub proof fn law_rebuild_tells_of_every_entry(ms: Seq<MatchView>, dest: Seq<char>)
    ensures
        rebuild_entries(ms, dest) matches Ok(entries) ==> {
            let archived = ms.filter(|m: MatchView| m.archive_path is Some);
            &&& entries.len() == archived.len()
            &&& forall|i: int|
                0 <= i < entries.len() ==> tells_of(#[trigger] entries[i], archived[i], dest)
        },
    decreases ms.len(),
{
    reveal(Seq::filter);
    if ms.len() > 0 {
        law_rebuild_tells_of_every_entry(ms.drop_last(), dest);
    }
}

/// Recording a repack appends its entries to those of its container, keeps the reason
/// of the first, and touches no other container; a container that is new takes its
/// format from its name.
pub proof fn law_recording_gathers_entries(
    drains: Map<Seq<char>, DrainView>,
    record: DrainRecordView,
    other: Seq<char>,
)
    ensures
        ({
            let c = record.container;
            let after = recorded(drains, record);
            &&& after.dom() == drains.dom().insert(c)
            &&& other != c ==> (drains.contains_key(other) ==> after[other] == drains[other])
            &&& drains.contains_key(c) ==> after[c].entries == drains[c].entries + record.entries
                && after[c].reason_dest == drains[c].reason_dest && after[c].format
                == drains[c].format
            &&& !drains.contains_key(c) ==> after[c].entries == record.entries
                && after[c].reason_dest == record.dest && (after[c].format == "7z"@ || after[c].format
                == "zip"@)
            &&& !drains.contains_key(c) ==> (after[c].format == "7z"@ <==> c.len() >= 3
                && text::lower_seq(c).skip(c.len() - 3) == ".7z"@)
        }),
{
    reveal_strlit(".7z");
    reveal_strlit("7z");
    reveal_strlit("zip");
    assert(".7z"@.len() == 3 && "7z"@.len() == 2 && "zip"@.len() == 3);
    assert(text::lower_seq(record.container).len() == record.container.len());
    assert(recorded(drains, record).dom() =~= drains.dom().insert(record.container));
}

/// Whether entries hold all of some entries.
pub open spec fn holds_entries(all: Seq<RebuildEntryView>, some: Seq<RebuildEntryView>) -> bool {
    forall|i: int| 0 <= i < some.len() ==> all.contains(#[trigger] some[i])
}

/// Nothing that is recorded is lost: each record's container is drained, with all
/// the record's entries; and no other container is.
pub proof fn law_every_record_is_kept(
    drains: Map<Seq<char>, DrainView>,
    records: Seq<DrainRecordView>,
    i: int,
)
    requires
        0 <= i < records.len(),
    ensures
        all_recorded(drains, records).contains_key(records[i].container),
        holds_entries(
            all_recorded(drains, records)[records[i].container].entries,
            records[i].entries,
        ),
        forall|c: Seq<char>| #[trigger]
            all_recorded(drains, records).contains_key(c) ==> drains.contains_key(c) || exists|
                k: int,
            |
                0 <= k < records.len() && (#[trigger] records[k]).container == c,
    decreases records.len(),
{
    let rest = records.drop_last();
    let last = records.last();
    let before = all_recorded(drains, rest);
    let after = all_recorded(drains, records);
    assert(records[records.len() - 1] == last);
    assert forall|k: int| 0 <= k < rest.len() implies rest[k] == #[trigger] records[k] by {}
    if rest.len() > 0 {
        law_every_record_is_kept(
            drains,
            rest,
            if i < rest.len() {
                i
            } else {
                0
            },
        );
    }
    let c = records[i].container;
    if i < rest.len() {
        let old_entries = before[c].entries;
        let now = after[c].entries;
        assert forall|k: int| 0 <= k < records[i].entries.len() implies now.contains(
            #[trigger] records[i].entries[k],
        ) by {
            assert(rest[i].entries[k] == records[i].entries[k]);
            assert(old_entries.contains(records[i].entries[k]));
            let n = choose|n: int|
                0 <= n < old_entries.len() && old_entries[n] == records[i].entries[k];
            assert(now[n] == old_entries[n]);
        }
    } else {
        let now = after[c].entries;
        let off = now.len() - last.entries.len();
        assert forall|k: int| 0 <= k < last.entries.len() implies now.contains(
            #[trigger] last.entries[k],
        ) by {
            assert(now[off + k] == last.entries[k]);
        }
    }
    assert forall|x: Seq<char>| #[trigger] after.contains_key(x) implies drains.contains_key(x)
        || exists|k: int| 0 <= k < records.len() && (#[trigger] records[k]).container == x by {
        if x != last.container {
            assert(before.contains_key(x));
            if !drains.contains_key(x) {
                let k = choose|k: int|
                    0 <= k < rest.len() && (#[trigger] rest[k]).container == x;
                assert(records[k].container == x);
            }
        }
    }
}

/// Every drained container is deleted at the end of a plan, with the way to rebuild
/// it: for each name in the container the first entry recorded, in the container's
/// format, and the reason names where it went first. Nothing else is deleted so.
pub proof fn law_drained_containers_can_be_rebuilt(
    drains: Map<Seq<char>, DrainView>,
    c: Seq<char>,
)
    requires
        drains.dom().finite(),
    ensures
        drains.contains_key(c) <==> exists|i: int|
            0 <= i < drain_kinds(drains).len() && (#[trigger] drain_kinds(
                drains,
            )[i] matches KindView::Delete { path, .. } && path == c),
        forall|i: int|
            0 <= i < drain_kinds(drains).len() ==> (#[trigger] drain_kinds(
                drains,
            )[i] matches KindView::Delete { path, reason, rebuild: Some(b) }
                && drains.contains_key(path) && reason == "consolidated into "@
                + drains[path].reason_dest && b.format == drains[path].format && forall|e: int|
                0 <= e < b.entries.len() ==> drains[path].entries.contains(
                    #[trigger] b.entries[e],
                )),
{
    let order = sorted_map::in_order::<String>(drains.dom());
    let kinds = drain_kinds(drains);
    sorted_map::lemma_order_exists::<String>(drains.dom());
    if drains.contains_key(c) {
        assert(order.to_set().contains(c));
        let i = choose|i: int| 0 <= i < order.len() && order[i] == c;
        assert(kinds[i] == drain_kind(c, drains[c]));
    }
    assert forall|i: int| 0 <= i < kinds.len() implies (
    #[trigger] kinds[i] matches KindView::Delete { path, reason, rebuild: Some(b) }
        && drains.contains_key(path) && reason == "consolidated into "@ + drains[path].reason_dest
        && b.format == drains[path].format && forall|e: int|
        0 <= e < b.entries.len() ==> drains[path].entries.contains(#[trigger] b.entries[e])) by {
        assert(kinds[i] == drain_kind(order[i], drains[order[i]]));
        assert(order.to_set().contains(order[i]));
        assert(drains.dom().contains(order[i]));
        lemma_first_are_members(drains[order[i]].entries);
    }
}

proof fn lemma_first_are_members(entries: Seq<RebuildEntryView>)
    ensures
        forall|e: int|
            0 <= e < first_by_name(entries).len() ==> entries.contains(
                #[trigger] first_by_name(entries)[e],
            ),
    decreases entries.len(),
{
    if entries.len() > 0 {
        let rest = entries.drop_last();
        lemma_first_are_members(rest);
        let a = first_by_name(rest);
        let b = first_by_name(entries);
        assert forall|e: int| 0 <= e < b.len() implies entries.contains(#[trigger] b[e]) by {
            if e < a.len() {
                assert(b[e] == a[e]);
                let i = choose|i: int| 0 <= i < rest.len() && rest[i] == a[e];
                assert(entries[i] == a[e]);
            } else {
                assert(entries[entries.len() - 1] == entries.last());
            }
        }
    }
}

/// However many repacks drain it, a container is deleted once.
pub proof fn law_container_is_drained_once(
    drains: Map<Seq<char>, DrainView>,
    i: int,
    j: int,
)
    requires
        drains.dom().finite(),
        0 <= i < j < drain_kinds(drains).len(),
    ensures
        drain_kinds(drains)[i]->Delete_path != drain_kinds(drains)[j]->Delete_path,
{
    let order = sorted_map::in_order::<String>(drains.dom());
    sorted_map::lemma_order_exists::<String>(drains.dom());
    assert(<String as Key>::precedes(order[i], order[j]));
    <String as Key>::lemma_irreflexive(order[i]);
}

/// A rebuilt container holds each entry name once, and no other names than those
/// that were recorded.
pub proof fn law_rebuilt_entries_are_distinct(entries: Seq<RebuildEntryView>)
    ensures
        forall|i: int, j: int|
            0 <= i < j < first_by_name(entries).len() ==> (#[trigger] first_by_name(
                entries,
            )[i]).container_entry != (#[trigger] first_by_name(entries)[j]).container_entry,
        forall|name: Seq<char>|
            #[trigger] names_entry(first_by_name(entries), name) <==> names_entry(entries, name),
    decreases entries.len(),
{
    if entries.len() > 0 {
        let t = entries.drop_last();
        law_rebuilt_entries_are_distinct(t);
        let a = first_by_name(t);
        let b = first_by_name(entries);
        let last = entries.last();
        assert forall|name: Seq<char>| #[trigger] names_entry(b, name) <==> names_entry(
            entries,
            name,
        ) by {
            assert(names_entry(a, name) <==> names_entry(t, name));
            if names_entry(a, name) {
                let i = choose|i: int| 0 <= i < a.len() && (#[trigger] a[i]).container_entry == name;
                assert(b[i] == a[i]);
            }
            if names_entry(t, name) {
                let i = choose|i: int| 0 <= i < t.len() && (#[trigger] t[i]).container_entry == name;
                assert(entries[i] == t[i]);
            }
            if names_entry(entries, name) {
                let i = choose|i: int|
                    0 <= i < entries.len() && (#[trigger] entries[i]).container_entry == name;
                if i < t.len() {
                    assert(t[i] == entries[i]);
                } else if b.len() > a.len() {
                    assert(b[a.len() as int] == last);
                }
            }
            if names_entry(b, name) {
                let i = choose|i: int| 0 <= i < b.len() && (#[trigger] b[i]).container_entry == name;
                if i < a.len() {
                    assert(a[i] == b[i]);
                } else {
                    assert(entries[entries.len() - 1] == last);
                }
            }
        }
        assert forall|i: int, j: int| 0 <= i < j < b.len() implies (#[trigger] b[i]).container_entry
            != (#[trigger] b[j]).container_entry by {
            if j < a.len() {
                assert(a[i] == b[i] && a[j] == b[j]);
            } else {
                assert(a[i] == b[i]);
                assert(names_entry(a, b[i].container_entry));
            }
        }
    }
}

/// The archive format of a container.
pub fn container_archive_format(path: &str) -> (r: String)
    ensures
        r@ == container_format(path@),
{
    let lowered = text::lower_string(path);
    if text::ends_with(lowered.as_str(), ".7z") {
        "7z".to_owned()
    } else {
        "zip".to_owned()
    }
}

/// Where the archived entries of a container go.
pub fn entries_to_rebuild(entries: &Vec<MatchedRom>, dest: &str) -> (r: Result<
    Vec<RebuildEntry>,
    PathError,
>)
    ensures
        match r {
            Ok(list) => rebuild_entries(entries.deep_view(), dest@) == Ok::<
                Seq<RebuildEntryView>,
                PathErrorView,
            >(list.deep_view()),
            Err(e) => rebuild_entries(entries.deep_view(), dest@) == Err::<
                Seq<RebuildEntryView>,
                PathErrorView,
            >(e.deep_view()),
        },
{
    let ghost all = entries.deep_view();
    let mut list: Vec<RebuildEntry> = Vec::new();
    let mut i: usize = 0;
    proof {
        assert(list.deep_view() =~= Seq::<RebuildEntryView>::empty());
    }
    while i < entries.len()
        invariant
            i <= entries@.len(),
            all == entries.deep_view(),
            rebuild_entries(all.take(i as int), dest@) == Ok::<
                Seq<RebuildEntryView>,
                PathErrorView,
            >(list.deep_view()),
        decreases entries@.len() - i,
    {
        let m = &entries[i];
        proof {
            assert(all.take(i + 1).drop_last() =~= all.take(i as int));
        }
        if let Some(entry) = &m.archive_path {
            match validate_relative_path("archive entry name", entry.as_str()) {
                Err(e) => {
                    proof {
                        lemma_rebuild_err(all, dest@, i + 1);
                    }
                    return Err(e);
                },
                Ok(_) => {},
            }
            match validate_relative_path("ROM entry name", m.rom_name.as_str()) {
                Err(e) => {
                    proof {
                        lemma_rebuild_err(all, dest@, i + 1);
                    }
                    return Err(e);
                },
                Ok(_) => {},
            }
            let ghost before = list.deep_view();
            list.push(
                RebuildEntry {
                    dest: dest.to_owned(),
                    dest_entry: m.rom_name.clone(),
                    container_entry: entry.clone(),
                    sha1: m.sha1.clone(),
                },
            );
            proof {
                assert(list.deep_view() =~= before.push(list.deep_view().last()));
            }
        }
        i = i + 1;
    }
    proof {
        assert(all.take(i as int) =~= all);
    }
    Ok(list)
}

proof fn lemma_rebuild_err(ms: Seq<MatchView>, dest: Seq<char>, n: int)
    requires
        0 <= n <= ms.len(),
        rebuild_entries(ms.take(n), dest) is Err,
    ensures
        rebuild_entries(ms, dest) == rebuild_entries(ms.take(n), dest),
    decreases ms.len(),
{
    if n == ms.len() {
        assert(ms.take(n) =~= ms);
    } else {
        assert(ms.drop_last().take(n) =~= ms.take(n));
        lemma_rebuild_err(ms.drop_last(), dest, n);
    }
}

/// The containers to drain once every repack is done, keyed by path so that a
/// container that feeds several games is drained once.
pub struct ContainerDrains {
    pending: SortedMap<String, ContainerDrain>,
}

impl View for ContainerDrains {
    type V = Map<Seq<char>, DrainView>;

    closed spec fn view(&self) -> Map<Seq<char>, DrainView> {
        Map::new(
            |c: Seq<char>| self.pending@.contains_key(c),
            |c: Seq<char>| self.pending@[c].deep_view(),
        )
    }
}

impl ContainerDrains {
    /// No container to drain.
    pub fn new() -> (r: Self)
        ensures
            r@ == Map::<Seq<char>, DrainView>::empty(),
    {
        let r = ContainerDrains { pending: SortedMap::new() };
        proof {
            assert(r@ =~= Map::<Seq<char>, DrainView>::empty());
        }
        r
    }

    /// Records a repack out of a container.
    pub fn record(&mut self, record: DrainRecord)
        ensures
            final(self)@ == recorded(old(self)@, record.deep_view()),
    {
        let ghost before = self@;
        let ghost rec = record.deep_view();
        let DrainRecord { container, dest, entries } = record;
        let mut drain = match self.pending.remove(&container) {
            Some(drain) => drain,
            None => ContainerDrain {
                format: container_archive_format(container.as_str()),
                reason_dest: dest,
                entries: Vec::new(),
            },
        };
        let ghost had = drain.entries.deep_view();
        let mut more = entries;
        drain.entries.append(&mut more);
        proof {
            assert(drain.entries.deep_view() =~= had + rec.entries);
            if !before.contains_key(rec.container) {
                assert(drain.entries.deep_view() =~= rec.entries);
            }
        }
        self.pending.insert(container, drain);
        proof {
            assert(self@ =~= recorded(before, rec));
        }
    }

    /// Records several repacks, in order.
    pub fn record_all(&mut self, records: Vec<DrainRecord>)
        ensures
            final(self)@ == all_recorded(old(self)@, records.deep_view()),
    {
        let ghost before = self@;
        let ghost all = records.deep_view();
        let mut pending = seqs::reversed(records);
        let ghost mut done: int = 0;
        proof {
            assert(seqs::rev(pending.deep_view()) =~= all);
            assert(all.take(0) =~= Seq::<DrainRecordView>::empty());
        }
        while pending.len() > 0
            invariant
                0 <= done <= all.len(),
                all.take(done) + seqs::rev(pending.deep_view()) == all,
                self@ == all_recorded(before, all.take(done)),
            decreases pending@.len(),
        {
            let ghost p0 = pending.deep_view();
            if let Some(r) = pending.pop() {
                proof {
                    assert(pending.deep_view() =~= p0.drop_last());
                    assert(seqs::rev(p0)[0] == r.deep_view());
                    assert((all.take(done) + seqs::rev(p0))[done]
                        == r.deep_view());
                    assert(all[done] == r.deep_view());
                    assert(all.take(done + 1) =~= all.take(done).push(r.deep_view()));
                    assert(all.take(done + 1) + seqs::rev(pending.deep_view())
                        =~= all);
                    assert(all.take(done + 1).drop_last() =~= all.take(done));
                }
                self.record(r);
                proof {
                    done = done + 1;
                }
            }
        }
        proof {
            assert(all.take(done) =~= all);
        }
    }

    /// Records a repack out of a container, unless one of its entry names cannot
    /// be used.
    pub fn record_repack_from_container(
        &mut self,
        container: &str,
        dest: &str,
        entries: &Vec<MatchedRom>,
    ) -> (r: Result<(), PathError>)
        ensures
            match r {
                Ok(_) => rebuild_entries(entries.deep_view(), dest@) is Ok && final(self)@
                    == recorded(
                    old(self)@,
                    (DrainRecordView {
                        container: container@,
                        dest: dest@,
                        entries: rebuild_entries(entries.deep_view(), dest@)->Ok_0,
                    }),
                ),
                Err(e) => rebuild_entries(entries.deep_view(), dest@) == Err::<
                    Seq<RebuildEntryView>,
                    PathErrorView,
                >(e.deep_view()) && final(self)@ == old(self)@,
            },
    {
        match entries_to_rebuild(entries, dest) {
            Err(e) => Err(e),
            Ok(list) => {
                self.record(
                    DrainRecord {
                        container: container.to_owned(),
                        dest: dest.to_owned(),
                        entries: list,
                    },
                );
                Ok(())
            },
        }
    }

    /// Appends the deletes of the drained containers to a plan. They come after
    /// every repack, so that each entry is at its destination before the
    /// container goes.
    pub fn emit_into(&self, plan: &mut Plan)
        ensures
            final(plan).deep_view() == types::with_kinds(old(plan).deep_view(), drain_kinds(self@)),
    {
        let n = self.pending.len();
        let ghost start = plan.deep_view();
        let ghost order = self.pending.keys();
        let ghost kinds = drain_kinds(self@);
        proof {
            assert forall|c: Seq<char>| #[trigger] self@.dom().contains(c) <==> order.contains(
                c,
            ) by {
                assert(self.pending@.contains_key(c) <==> order.contains(c));
            }
            sorted_map::lemma_in_order::<String>(order, self@.dom());
        }
        let mut i: usize = 0;
        while i < n
            invariant
                i <= n,
                n == order.len(),
                order == self.pending.keys(),
                self.pending.linked(),
                kinds == order.map_values(|c: Seq<char>| drain_kind(c, self@[c])),
                plan.deep_view() == types::with_kinds(start, kinds.take(i as int)),
            decreases n - i,
        {
            let container = self.pending.key_at(i);
            let drain = self.pending.value_at(i);
            proof {
                assert(self.pending@.contains_key(order[i as int]));
                assert(self@[order[i as int]] == drain.deep_view());
                assert(kinds[i as int] == drain_kind(container@, drain.deep_view()));
                assert(kinds.take(i + 1).drop_last() =~= kinds.take(i as int));
            }
            let entries = distinct_entries(&drain.entries);
            let reason = text::concat2("consolidated into ", drain.reason_dest.as_str());
            plan.add_container_drain(
                container.clone(),
                reason,
                ContainerRebuild { format: drain.format.clone(), entries },
            );
            i = i + 1;
        }
        proof {
            assert(kinds.take(i as int) =~= kinds);
        }
    }
}

fn distinct_entries(entries: &Vec<RebuildEntry>) -> (r: Vec<RebuildEntry>)
    ensures
        r.deep_view() == first_by_name(entries.deep_view()),
{
    let ghost all = entries.deep_view();
    let mut r: Vec<RebuildEntry> = Vec::new();
    let mut seen: SortedSet<String> = SortedSet::new();
    let mut i: usize = 0;
    proof {
        assert(r.deep_view() =~= first_by_name(all.take(0)));
    }
    while i < entries.len()
        invariant
            i <= entries@.len(),
            all == entries.deep_view(),
            r.deep_view() == first_by_name(all.take(i as int)),
            forall|name: Seq<char>|
                #[trigger] seen@.contains(name) <==> names_entry(all.take(i as int), name),
        decreases entries@.len() - i,
    {
        let e = &entries[i];
        let ghost t = all.take(i as int);
        let ghost u = all.take(i + 1);
        let ghost s0 = seen@;
        proof {
            assert(u.drop_last() =~= t);
        }
        if !seen.contains(e.container_entry.as_str()) {
            let ghost before = r.deep_view();
            seen.insert(e.container_entry.clone());
            r.push(e.clone());
            proof {
                assert(r.deep_view() =~= before.push(all[i as int]));
            }
        }
        proof {
            assert forall|name: Seq<char>| #[trigger] seen@.contains(name) <==> names_entry(
                u,
                name,
            ) by {
                assert(s0.contains(name) <==> names_entry(t, name));
                if names_entry(t, name) {
                    let j = choose|j: int| 0 <= j < t.len() && (#[trigger] t[j]).container_entry == name;
                    assert(u[j] == t[j]);
                }
                if names_entry(u, name) {
                    let j = choose|j: int| 0 <= j < u.len() && (#[trigger] u[j]).container_entry == name;
                    if j < t.len() {
                        assert(t[j] == u[j]);
                    }
                }
                assert(u[i as int] == all[i as int]);
            }
        }
        i = i + 1;
    }
    proof {
        assert(all.take(i as int) =~= all);
    }
    r
}

} // verus!
