//! How the catalogue follows what was done on disk, so that a new plan converges
//! without another scan.

use crate::db::files;
use crate::db::files::{resolve_in_sources, Source, SourceView};
use crate::plan::types::{KindView, OperationKind, SourceRef, SourceRefView};
use crate::text;
use vstd::prelude::*;

verus! {

/// A change of the catalogue.
#[derive(Debug)]
pub enum CatalogueAction {
    /// Content is at a location, inside an archive where an entry is named
    Upsert { sha1: String, source_id: i64, path: String, entry: Option<String> },
    /// Nothing is at a location any more
    Remove { source_id: i64, path: String },
    /// What was at one location is at another
    Relocate { from_source: i64, from_path: String, to_source: i64, to_path: String },
}

#[verifier::ext_equal]
pub enum ActionView {
    Upsert { sha1: Seq<char>, source_id: i64, path: Seq<char>, entry: Option<Seq<char>> },
    Remove { source_id: i64, path: Seq<char> },
    Relocate { from_source: i64, from_path: Seq<char>, to_source: i64, to_path: Seq<char> },
}

impl DeepView for CatalogueAction {
    type V = ActionView;

    open spec fn deep_view(&self) -> ActionView {
        match self {
            CatalogueAction::Upsert { sha1, source_id, path, entry } => ActionView::Upsert {
                sha1: sha1@,
                source_id: *source_id,
                path: path@,
                entry: entry.deep_view(),
            },
            CatalogueAction::Remove { source_id, path } => ActionView::Remove {
                source_id: *source_id,
                path: path@,
            },
            CatalogueAction::Relocate { from_source, from_path, to_source, to_path } =>
                ActionView::Relocate {
                from_source: *from_source,
                from_path: from_path@,
                to_source: *to_source,
                to_path: to_path@,
            },
        }
    }
}

/// Content that is now at a path, where a source holds the path.
pub open spec fn recorded_at(
    sources: Seq<SourceView>,
    sha1: Seq<char>,
    dest: Seq<char>,
    entry: Option<Seq<char>>,
) -> Seq<ActionView> {
    match files::resolved(sources, dest) {
        Some((source_id, path)) => seq![ActionView::Upsert { sha1, source_id, path, entry }],
        None => Seq::empty(),
    }
}

/// A path at which nothing is any more, where a source holds the path.
pub open spec fn cleared_at(sources: Seq<SourceView>, path: Seq<char>) -> Seq<ActionView> {
    match files::resolved(sources, path) {
        Some((source_id, path)) => seq![ActionView::Remove { source_id, path }],
        None => Seq::empty(),
    }
}

/// A file that went from one path to another, or out of every source.
pub open spec fn moved(
    sources: Seq<SourceView>,
    from: Seq<char>,
    to: Seq<char>,
) -> Seq<ActionView> {
    match (files::resolved(sources, from), files::resolved(sources, to)) {
        (Some((from_source, from_path)), Some((to_source, to_path))) => seq![
            ActionView::Relocate { from_source, from_path, to_source, to_path },
        ],
        (Some((source_id, path)), None) => seq![ActionView::Remove { source_id, path }],
        _ => Seq::empty(),
    }
}

/// The entries that a repack put into an archive.
pub open spec fn packed(
    sources: Seq<SourceView>,
    entries: Seq<SourceRefView>,
    dest: Seq<char>,
) -> Seq<ActionView>
    decreases entries.len(),
{
    if entries.len() == 0 {
        Seq::empty()
    } else {
        packed(sources, entries.drop_last(), dest) + recorded_at(
            sources,
            entries.last().sha1,
            dest,
            entries.last().entry_name,
        )
    }
}

/// The loose files that a repack consumed.
pub open spec fn consumed(sources: Seq<SourceView>, entries: Seq<SourceRefView>) -> Seq<ActionView>
    decreases entries.len(),
{
    if entries.len() == 0 {
        Seq::empty()
    } else {
        consumed(sources, entries.drop_last()) + (if entries.last().archive_path is None {
            cleared_at(sources, entries.last().path)
        } else {
            Seq::empty()
        })
    }
}

/// How the catalogue follows a completed operation.
pub open spec fn follows(sources: Seq<SourceView>, kind: KindView) -> Seq<ActionView> {
    match kind {
        KindView::Move { source, dest, .. } => if source.archive_path is Some {
            recorded_at(sources, source.sha1, dest, None)
        } else {
            moved(sources, source.path, dest)
        },
        KindView::Relocate { source, dest, .. } => moved(sources, source, dest),
        KindView::Copy { source, dest, .. } => recorded_at(sources, source.sha1, dest, None),
        KindView::Repack { sources: entries, dest, move_sources, .. } => packed(
            sources,
            entries,
            dest,
        ) + (if move_sources {
            consumed(sources, entries)
        } else {
            Seq::empty()
        }),
        KindView::Quarantine { path, .. } => cleared_at(sources, path),
        KindView::Delete { path, .. } => cleared_at(sources, path),
    }
}

/// Whether the catalogue loses the record of a path.
pub open spec fn forgets(sources: Seq<SourceView>, a: ActionView, path: Seq<char>) -> bool {
    match a {
        ActionView::Upsert { .. } => false,
        ActionView::Remove { source_id, path: p } => files::resolved(sources, path) == Some(
            (source_id, p),
        ),
        ActionView::Relocate { from_source, from_path, .. } => files::resolved(sources, path)
            == Some((from_source, from_path)),
    }
}

/// A copy never makes the catalogue forget anything, and neither does a repack
/// that leaves its sources or a move out of an archive.
pub proof fn law_kept_sources_stay_recorded(sources: Seq<SourceView>, kind: KindView)
    requires
        kind is Copy || (kind matches KindView::Repack { move_sources, .. } && !move_sources) || (
        kind matches KindView::Move { source, .. } && source.archive_path is Some),
    ensures
        forall|i: int|
            0 <= i < follows(sources, kind).len() ==> (#[trigger] follows(
                sources,
                kind,
            )[i]) is Upsert,
{
    if let KindView::Repack { sources: entries, dest, .. } = kind {
        lemma_packed_only_adds(sources, entries, dest);
        assert(follows(sources, kind) =~= packed(sources, entries, dest));
    }
}

proof fn lemma_packed_only_adds(
    sources: Seq<SourceView>,
    entries: Seq<SourceRefView>,
    dest: Seq<char>,
)
    ensures
        forall|i: int|
            0 <= i < packed(sources, entries, dest).len() ==> (#[trigger] packed(
                sources,
                entries,
                dest,
            )[i]) is Upsert,
    decreases entries.len(),
{
    if entries.len() > 0 {
        lemma_packed_only_adds(sources, entries.drop_last(), dest);
    }
}

/// Whether the catalogue comes to record content at a path: the record's source
/// and relative path join to that path.
pub open spec fn records_at(sources: Seq<SourceView>, a: ActionView, path: Seq<char>) -> bool {
    exists|i: int|
        0 <= i < sources.len() && files::root_of(#[trigger] sources[i]) + "/"@ + (match a {
            ActionView::Upsert { path: p, .. } => p,
            ActionView::Remove { path: p, .. } => p,
            ActionView::Relocate { to_path: p, .. } => p,
        }) == path && sources[i].id == (match a {
            ActionView::Upsert { source_id, .. } => source_id,
            ActionView::Remove { source_id, .. } => source_id,
            ActionView::Relocate { to_source, .. } => to_source,
        })
}

proof fn lemma_resolved(sources: Seq<SourceView>, path: Seq<char>)
    ensures
        files::resolved(sources, path) matches Some((id, rel)) ==> exists|i: int|
            0 <= i < sources.len() && files::root_of(#[trigger] sources[i]) + "/"@ + rel == path
                && sources[i].id == id,
{
    if files::resolved(sources, path) is Some {
        let i = choose|i: int| #[trigger] files::owns(sources, path, i);
        files::law_resolved_path_rejoins(sources[i], path);
    }
}

/// The catalogue follows a completed placement to its destination, where a source
/// holds that: what it then records there is what the next plan finds in place.
pub proof fn law_placed_file_is_recorded(
    sources: Seq<SourceView>,
    kind: KindView,
    dest: Seq<char>,
)
    requires
        match kind {
            KindView::Copy { dest: d, .. } => d == dest,
            KindView::Move { source, dest: d, .. } => d == dest && (source.archive_path is Some
                || files::resolved(sources, source.path) is Some),
            KindView::Relocate { source, dest: d, .. } => d == dest && files::resolved(
                sources,
                source,
            ) is Some,
            _ => false,
        },
        files::resolved(sources, dest) is Some,
    ensures
        follows(sources, kind).len() == 1,
        !(follows(sources, kind)[0] is Remove),
        records_at(sources, follows(sources, kind)[0], dest),
{
    lemma_resolved(sources, dest);
}

/// Every entry of a repacked archive is recorded at the archive, under its name.
pub proof fn law_packed_entries_are_recorded(
    sources: Seq<SourceView>,
    entries: Seq<SourceRefView>,
    dest: Seq<char>,
)
    requires
        files::resolved(sources, dest) is Some,
    ensures
        packed(sources, entries, dest).len() == entries.len(),
        forall|i: int|
            0 <= i < entries.len() ==> records_at(
                sources,
                #[trigger] packed(sources, entries, dest)[i],
                dest,
            ) && (packed(sources, entries, dest)[i] matches ActionView::Upsert { sha1, entry, .. }
                && sha1 == entries[i].sha1 && entry == entries[i].entry_name),
    decreases entries.len(),
{
    if entries.len() > 0 {
        law_packed_entries_are_recorded(sources, entries.drop_last(), dest);
        lemma_resolved(sources, dest);
        let before = packed(sources, entries.drop_last(), dest);
        let all = packed(sources, entries, dest);
        assert forall|i: int| 0 <= i < entries.len() implies records_at(
            sources,
            #[trigger] all[i],
            dest,
        ) && (all[i] matches ActionView::Upsert { sha1, entry, .. } && sha1 == entries[i].sha1
            && entry == entries[i].entry_name) by {
            if i < before.len() {
                assert(all[i] == before[i]);
            }
        }
    }
}

/// What is deleted or quarantined leaves the catalogue, and nothing else does.
pub proof fn law_removed_file_is_forgotten(sources: Seq<SourceView>, kind: KindView, path: Seq<char>)
    requires
        (kind matches KindView::Delete { path: p, .. } && p == path) || (
        kind matches KindView::Quarantine { path: p, .. } && p == path),
        files::resolved(sources, path) is Some,
    ensures
        follows(sources, kind).len() == 1,
        forgets(sources, follows(sources, kind)[0], path),
{
}

/// What the catalogue records of a copy, or of an entry taken out of an archive, is
/// its content, as a file of its own; of a file that was moved or relocated, that it
/// is no longer where it was.
pub proof fn law_catalogue_tells_what_and_whence(sources: Seq<SourceView>, kind: KindView)
    ensures
        kind matches KindView::Copy { source, dest, .. } ==> (files::resolved(sources, dest) is Some
            ==> (follows(sources, kind)[0] matches ActionView::Upsert { sha1, entry, .. } && sha1
            == source.sha1 && entry is None)),
        kind matches KindView::Move { source, dest, .. } ==> (source.archive_path is Some
            && files::resolved(sources, dest) is Some ==> (follows(
            sources,
            kind,
        )[0] matches ActionView::Upsert { sha1, entry, .. } && sha1 == source.sha1
            && entry is None)),
        kind matches KindView::Move { source, .. } ==> (source.archive_path is None
            && files::resolved(sources, source.path) is Some ==> follows(sources, kind).len() == 1
            && forgets(sources, follows(sources, kind)[0], source.path)),
        kind matches KindView::Relocate { source, .. } ==> (files::resolved(sources, source) is Some
            ==> follows(sources, kind).len() == 1 && forgets(
            sources,
            follows(sources, kind)[0],
            source,
        )),
{
}

/// Whether one of some actions makes the catalogue forget a path.
pub open spec fn one_forgets(
    sources: Seq<SourceView>,
    actions: Seq<ActionView>,
    path: Seq<char>,
) -> bool {
    exists|i: int| 0 <= i < actions.len() && forgets(sources, #[trigger] actions[i], path)
}

proof fn lemma_consumed(sources: Seq<SourceView>, entries: Seq<SourceRefView>, k: int)
    requires
        0 <= k < entries.len(),
        entries[k].archive_path is None,
        files::resolved(sources, entries[k].path) is Some,
    ensures
        one_forgets(sources, consumed(sources, entries), entries[k].path),
    decreases entries.len(),
{
    let before = consumed(sources, entries.drop_last());
    let all = consumed(sources, entries);
    if k < entries.len() - 1 {
        assert(entries.drop_last()[k] == entries[k]);
        lemma_consumed(sources, entries.drop_last(), k);
        let i = choose|i: int|
            0 <= i < before.len() && forgets(sources, #[trigger] before[i], entries[k].path);
        assert(all[i] == before[i]);
    } else {
        assert(forgets(sources, all[before.len() as int], entries[k].path));
    }
}

proof fn lemma_consumed_only_loose(sources: Seq<SourceView>, entries: Seq<SourceRefView>)
    ensures
        forall|i: int|
            0 <= i < consumed(sources, entries).len() ==> (#[trigger] consumed(
                sources,
                entries,
            )[i] matches ActionView::Remove { source_id, path } && exists|k: int|
                0 <= k < entries.len() && (#[trigger] entries[k]).archive_path is None
                    && files::resolved(sources, entries[k].path) == Some((source_id, path))),
    decreases entries.len(),
{
    if entries.len() > 0 {
        let rest = entries.drop_last();
        lemma_consumed_only_loose(sources, rest);
        let before = consumed(sources, rest);
        let all = consumed(sources, entries);
        assert forall|i: int| 0 <= i < all.len() implies (
        #[trigger] all[i] matches ActionView::Remove { source_id, path } && exists|k: int|
            0 <= k < entries.len() && (#[trigger] entries[k]).archive_path is None
                && files::resolved(sources, entries[k].path) == Some((source_id, path))) by {
            if i < before.len() {
                assert(all[i] == before[i]);
                let (source_id, path) = (all[i]->Remove_source_id, all[i]->Remove_path);
                let k = choose|k: int|
                    0 <= k < rest.len() && (#[trigger] rest[k]).archive_path is None
                        && files::resolved(sources, rest[k].path) == Some((source_id, path));
                assert(entries[k] == rest[k]);
            } else {
                assert(entries[entries.len() - 1] == entries.last());
            }
        }
    }
}

/// A repack that consumes its sources makes the catalogue forget every loose file
/// that fed it; no repack makes it forget anything else: an archive that fed it stays
/// recorded, with all that it holds.
pub proof fn law_consumed_files_are_forgotten(
    sources: Seq<SourceView>,
    entries: Seq<SourceRefView>,
    dest: Seq<char>,
    format: Seq<char>,
    move_sources: bool,
    size: u64,
    k: int,
)
    ensures
        ({
            let kind = KindView::Repack { sources: entries, dest, format, move_sources, size };
            let actions = follows(sources, kind);
            &&& move_sources && 0 <= k < entries.len() && entries[k].archive_path is None
                && files::resolved(sources, entries[k].path) is Some ==> one_forgets(
                sources,
                actions,
                entries[k].path,
            )
            &&& forall|i: int|
                0 <= i < actions.len() ==> match #[trigger] actions[i] {
                    ActionView::Upsert { .. } => true,
                    ActionView::Remove { source_id, path } => move_sources && exists|j: int|
                        0 <= j < entries.len() && (#[trigger] entries[j]).archive_path is None
                            && files::resolved(sources, entries[j].path) == Some((source_id, path)),
                    ActionView::Relocate { .. } => false,
                }
        }),
{
    let kind = KindView::Repack { sources: entries, dest, format, move_sources, size };
    let actions = follows(sources, kind);
    let made = packed(sources, entries, dest);
    let gone = consumed(sources, entries);
    lemma_packed_only_adds(sources, entries, dest);
    lemma_consumed_only_loose(sources, entries);
    if move_sources && 0 <= k < entries.len() && entries[k].archive_path is None
        && files::resolved(sources, entries[k].path) is Some {
        lemma_consumed(sources, entries, k);
        let i = choose|i: int|
            0 <= i < gone.len() && forgets(sources, #[trigger] gone[i], entries[k].path);
        assert(actions[made.len() + i] == gone[i]);
    }
    assert forall|i: int| 0 <= i < actions.len() implies match #[trigger] actions[i] {
        ActionView::Upsert { .. } => true,
        ActionView::Remove { source_id, path } => move_sources && exists|j: int|
            0 <= j < entries.len() && (#[trigger] entries[j]).archive_path is None
                && files::resolved(sources, entries[j].path) == Some((source_id, path)),
        ActionView::Relocate { .. } => false,
    } by {
        if i < made.len() {
            assert(actions[i] == made[i]);
        } else {
            assert(actions[i] == gone[i - made.len()]);
        }
    }
}

fn record_at(
    actions: &mut Vec<CatalogueAction>,
    sources: &[Source],
    sha1: &str,
    dest: &str,
    entry: Option<String>,
)
    ensures
        final(actions).deep_view() == old(actions).deep_view() + recorded_at(
            files::source_views(sources@),
            sha1@,
            dest@,
            entry.deep_view(),
        ),
{
    let ghost before = actions.deep_view();
    match resolve_in_sources(sources, dest) {
        Some((source_id, path)) => {
            actions.push(CatalogueAction::Upsert { sha1: sha1.to_owned(), source_id, path, entry });
            proof {
                assert(actions.deep_view() =~= before + recorded_at(
                    files::source_views(sources@),
                    sha1@,
                    dest@,
                    entry.deep_view(),
                ));
            }
        },
        None => {
            proof {
                assert(before + Seq::<ActionView>::empty() =~= before);
            }
        },
    }
}

fn clear_at(actions: &mut Vec<CatalogueAction>, sources: &[Source], path: &str)
    ensures
        final(actions).deep_view() == old(actions).deep_view() + cleared_at(
            files::source_views(sources@),
            path@,
        ),
{
    let ghost before = actions.deep_view();
    match resolve_in_sources(sources, path) {
        Some((source_id, rel)) => {
            actions.push(CatalogueAction::Remove { source_id, path: rel });
            proof {
                assert(actions.deep_view() =~= before + cleared_at(
                    files::source_views(sources@),
                    path@,
                ));
            }
        },
        None => {
            proof {
                assert(before + Seq::<ActionView>::empty() =~= before);
            }
        },
    }
}

/// Moves what is recorded at one path to another, or drops it where no source
/// holds the other.
fn relocate_or_drop(sources: &[Source], from: &str, to: &str) -> (r: Vec<CatalogueAction>)
    ensures
        r.deep_view() == moved(files::source_views(sources@), from@, to@),
{
    let mut r: Vec<CatalogueAction> = Vec::new();
    let ghost want = moved(files::source_views(sources@), from@, to@);
    match (resolve_in_sources(sources, from), resolve_in_sources(sources, to)) {
        (Some((from_source, from_path)), Some((to_source, to_path))) => {
            r.push(CatalogueAction::Relocate { from_source, from_path, to_source, to_path });
        },
        (Some((source_id, path)), None) => {
            r.push(CatalogueAction::Remove { source_id, path });
        },
        _ => {},
    }
    proof {
        assert(r.deep_view() =~= want);
    }
    r
}

fn repack_actions(
    sources: &[Source],
    entries: &Vec<SourceRef>,
    dest: &str,
    move_sources: bool,
) -> (r: Vec<CatalogueAction>)
    ensures
        r.deep_view() == packed(files::source_views(sources@), entries.deep_view(), dest@) + (
        if move_sources {
            consumed(files::source_views(sources@), entries.deep_view())
        } else {
            Seq::empty()
        }),
{
    let ghost all = files::source_views(sources@);
    let ghost es = entries.deep_view();
    let mut r: Vec<CatalogueAction> = Vec::new();
    let mut i: usize = 0;
    proof {
        assert(r.deep_view() =~= packed(all, es.take(0), dest@));
    }
    while i < entries.len()
        invariant
            i <= entries@.len(),
            all == files::source_views(sources@),
            es == entries.deep_view(),
            r.deep_view() == packed(all, es.take(i as int), dest@),
        decreases entries@.len() - i,
    {
        proof {
            assert(es.take(i + 1).drop_last() =~= es.take(i as int));
        }
        let e = &entries[i];
        record_at(&mut r, sources, e.sha1.as_str(), dest, text::clone_opt(&e.entry_name));
        i = i + 1;
    }
    let ghost first = packed(all, es, dest@);
    proof {
        assert(es.take(i as int) =~= es);
        assert(first + Seq::<ActionView>::empty() =~= first);
        assert(consumed(all, es.take(0)) =~= Seq::empty());
    }
    if move_sources {
        let mut k: usize = 0;
        while k < entries.len()
            invariant
                k <= entries@.len(),
                all == files::source_views(sources@),
                es == entries.deep_view(),
                r.deep_view() == first + consumed(all, es.take(k as int)),
            decreases entries@.len() - k,
        {
            let e = &entries[k];
            let ghost before = r.deep_view();
            proof {
                assert(es.take(k + 1).drop_last() =~= es.take(k as int));
            }
            if e.archive_path.is_none() {
                clear_at(&mut r, sources, e.path.as_str());
            }
            proof {
                assert(r.deep_view() =~= first + consumed(all, es.take(k + 1)));
            }
            k = k + 1;
        }
        proof {
            assert(es.take(k as int) =~= es);
        }
    }
    r
}

/// How the catalogue follows a completed operation: a move or relocation updates
/// the recorded location, a quarantine or delete removes it, a copy or repack
/// records the new copy. A path outside every source cannot be recorded.
pub fn sync_catalogue_after(sources: &[Source], kind: &OperationKind) -> (r: Vec<CatalogueAction>)
    ensures
        r.deep_view() == follows(files::source_views(sources@), kind.deep_view()),
{
    let mut r: Vec<CatalogueAction> = Vec::new();
    proof {
        let none = Seq::<ActionView>::empty();
        assert(r.deep_view() =~= none);
        assert forall|x: Seq<ActionView>| #[trigger] (none + x) == x by {
            assert(none + x =~= x);
        }
    }
    match kind {
        OperationKind::Move { source, dest, .. } => {
            if source.archive_path.is_some() {
                record_at(&mut r, sources, source.sha1.as_str(), dest.as_str(), None);
                r
            } else {
                relocate_or_drop(sources, source.path.as_str(), dest.as_str())
            }
        },
        OperationKind::Relocate { source, dest, .. } => relocate_or_drop(
            sources,
            source.as_str(),
            dest.as_str(),
        ),
        OperationKind::Copy { source, dest, .. } => {
            record_at(&mut r, sources, source.sha1.as_str(), dest.as_str(), None);
            r
        },
        OperationKind::Repack { sources: entries, dest, move_sources, .. } => repack_actions(
            sources,
            entries,
            dest.as_str(),
            *move_sources,
        ),
        OperationKind::Quarantine { path, .. } => {
            clear_at(&mut r, sources, path.as_str());
            r
        },
        OperationKind::Delete { path, .. } => {
            clear_at(&mut r, sources, path.as_str());
            r
        },
    }
}

} // verus!
