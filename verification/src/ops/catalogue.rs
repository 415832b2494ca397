//! What the catalogue holds, for people to look at.

use crate::db::collections::{Collection, CollectionVersion};
use crate::db::dats::stats::MergeModeStats;
use crate::db::files::Source;
use crate::text;
use vstd::prelude::*;

verus! {

/// Completeness of one collection against its active DAT.
#[derive(Debug)]
pub struct CollectionStatus {
    pub name: String,
    /// The active version, or none
    pub version: Option<String>,
    pub total_games: usize,
    pub total_roms: usize,
    pub have_roms: usize,
    pub missing_roms: usize,
    pub nodump_roms: usize,
    pub bios_sets: usize,
    pub device_sets: usize,
}

#[verifier::ext_equal]
pub struct StatusView {
    pub name: Seq<char>,
    pub version: Option<Seq<char>>,
    pub total_games: usize,
    pub total_roms: usize,
    pub have_roms: usize,
    pub missing_roms: usize,
    pub nodump_roms: usize,
    pub bios_sets: usize,
    pub device_sets: usize,
}

impl DeepView for CollectionStatus {
    type V = StatusView;

    open spec fn deep_view(&self) -> StatusView {
        StatusView {
            name: self.name@,
            version: self.version.deep_view(),
            total_games: self.total_games,
            total_roms: self.total_roms,
            have_roms: self.have_roms,
            missing_roms: self.missing_roms,
            nodump_roms: self.nodump_roms,
            bios_sets: self.bios_sets,
            device_sets: self.device_sets,
        }
    }
}

/// The status of a collection: all zero without an active version.
pub open spec fn status_of(
    name: Seq<char>,
    version: Option<Seq<char>>,
    stats: MergeModeStats,
) -> StatusView {
    match version {
        None => StatusView {
            name,
            version: None,
            total_games: 0,
            total_roms: 0,
            have_roms: 0,
            missing_roms: 0,
            nodump_roms: 0,
            bios_sets: 0,
            device_sets: 0,
        },
        Some(v) => StatusView {
            name,
            version: Some(v),
            total_games: stats.total_games,
            total_roms: stats.total_roms,
            have_roms: stats.have_roms,
            missing_roms: stats.total_roms.saturating_sub(stats.have_roms),
            nodump_roms: stats.nodump_roms,
            bios_sets: stats.bios_sets,
            device_sets: stats.device_sets,
        },
    }
}

/// What the catalogue holds of one collection.
pub struct CatalogueEntry {
    pub collection: Collection,
    /// The active version of its DAT
    pub version: Option<CollectionVersion>,
    /// The library path recorded for that version
    pub node_path: Option<String>,
    /// Completeness of that version
    pub stats: MergeModeStats,
}

#[verifier::ext_equal]
pub struct CatalogueEntryView {
    pub name: Seq<char>,
    pub source_type: Seq<char>,
    pub version: Option<Seq<char>>,
    pub node_path: Option<Seq<char>>,
    pub stats: MergeModeStats,
}

impl DeepView for CatalogueEntry {
    type V = CatalogueEntryView;

    open spec fn deep_view(&self) -> CatalogueEntryView {
        CatalogueEntryView {
            name: self.collection.name@,
            source_type: self.collection.source_type@,
            version: match self.version {
                Some(v) => Some(v.version@),
                None => None,
            },
            node_path: self.node_path.deep_view(),
            stats: self.stats,
        }
    }
}

/// Whether a collection is asked about: all are, unless one is named.
pub open spec fn asked(e: CatalogueEntryView, only: Option<Seq<char>>) -> bool {
    only is None || e.name == only->0
}

/// The status of every collection that is asked about, in order.
pub open spec fn statuses(all: Seq<CatalogueEntryView>, only: Option<Seq<char>>) -> Seq<StatusView> {
    all.filter(|e: CatalogueEntryView| asked(e, only)).map_values(
        |e: CatalogueEntryView| status_of(e.name, e.version, e.stats),
    )
}

fn status_for(e: &CatalogueEntry) -> (r: CollectionStatus)
    ensures
        r.deep_view() == status_of(
            e.deep_view().name,
            e.deep_view().version,
            e.deep_view().stats,
        ),
{
    match &e.version {
        None => CollectionStatus {
            name: e.collection.name.clone(),
            version: None,
            total_games: 0,
            total_roms: 0,
            have_roms: 0,
            missing_roms: 0,
            nodump_roms: 0,
            bios_sets: 0,
            device_sets: 0,
        },
        Some(v) => CollectionStatus {
            name: e.collection.name.clone(),
            version: Some(v.version.clone()),
            total_games: e.stats.total_games,
            total_roms: e.stats.total_roms,
            have_roms: e.stats.have_roms,
            missing_roms: e.stats.total_roms.saturating_sub(e.stats.have_roms),
            nodump_roms: e.stats.nodump_roms,
            bios_sets: e.stats.bios_sets,
            device_sets: e.stats.device_sets,
        },
    }
}

/// Collection completeness, of one collection where it is named. A collection
/// without an active version is reported with zero counts rather than left out.
pub fn collection_status(entries: &Vec<CatalogueEntry>, only: Option<&str>) -> (r: Vec<
    CollectionStatus,
>)
    ensures
        r.deep_view() == statuses(entries.deep_view(), only.deep_view()),
{
    let ghost all = entries.deep_view();
    let ghost f = |e: CatalogueEntryView| asked(e, only.deep_view());
    let ghost g = |e: CatalogueEntryView| status_of(e.name, e.version, e.stats);
    let mut r: Vec<CollectionStatus> = Vec::new();
    let mut i: usize = 0;
    proof {
        reveal(Seq::filter);
        assert(r.deep_view() =~= all.take(0).filter(f).map_values(g));
    }
    while i < entries.len()
        invariant
            i <= entries@.len(),
            all == entries.deep_view(),
            f == (|e: CatalogueEntryView| asked(e, only.deep_view())),
            g == (|e: CatalogueEntryView| status_of(e.name, e.version, e.stats)),
            r.deep_view() == all.take(i as int).filter(f).map_values(g),
        decreases entries@.len() - i,
    {
        let ghost before = r.deep_view();
        proof {
            assert(all.take(i + 1).drop_last() =~= all.take(i as int));
            reveal_with_fuel(Seq::filter, 2);
        }
        let e = &entries[i];
        let wanted = match only {
            Some(name) => text::str_eq(e.collection.name.as_str(), name),
            None => true,
        };
        if wanted {
            r.push(status_for(e));
            proof {
                assert(r.deep_view() =~= before.push(g(all[i as int])));
                assert(all.take(i + 1).filter(f).map_values(g) =~= before.push(
                    g(all[i as int]),
                ));
            }
        }
        i = i + 1;
    }
    proof {
        assert(all.take(i as int) =~= all);
    }
    r
}

/// What is there and what is missing make up all that is required.
pub proof fn law_have_and_missing_add_up(name: Seq<char>, v: Seq<char>, stats: MergeModeStats)
    requires
        stats.have_roms <= stats.total_roms,
    ensures
        status_of(name, Some(v), stats).have_roms + status_of(name, Some(v), stats).missing_roms
            == status_of(name, Some(v), stats).total_roms,
{
}

/// The collections reported are those that were asked for, in their order; one
/// without an active version counts nothing, and one with it shows its own figures,
/// what is missing being what is required and not there.
pub proof fn law_status_is_of_what_was_asked(
    all: Seq<CatalogueEntryView>,
    name: Seq<char>,
    i: int,
)
    requires
        0 <= i < statuses(all, None).len(),
    ensures
        statuses(all, None).len() == all.len(),
        ({
            let s = statuses(all, None)[i];
            let e = all[i];
            &&& s.name == e.name && s.version == e.version
            &&& e.version is None ==> s.total_games == 0 && s.total_roms == 0 && s.have_roms == 0
                && s.missing_roms == 0 && s.nodump_roms == 0 && s.bios_sets == 0 && s.device_sets
                == 0
            &&& e.version is Some ==> s.total_games == e.stats.total_games && s.total_roms
                == e.stats.total_roms && s.have_roms == e.stats.have_roms && s.nodump_roms
                == e.stats.nodump_roms && s.bios_sets == e.stats.bios_sets && s.device_sets
                == e.stats.device_sets
            &&& e.version is Some && e.stats.have_roms <= e.stats.total_roms ==> s.missing_roms
                == e.stats.total_roms - e.stats.have_roms
            &&& e.version is Some && e.stats.have_roms > e.stats.total_roms ==> s.missing_roms == 0
        }),
        statuses(all, Some(name)) == statuses(
            all.filter(|e: CatalogueEntryView| e.name == name),
            None,
        ),
{
    let every = |e: CatalogueEntryView| asked(e, None);
    let named = |e: CatalogueEntryView| asked(e, Some(name));
    let same = |e: CatalogueEntryView| e.name == name;
    lemma_filter_all(all, every);
    assert(named =~= same);
    lemma_filter_all(all.filter(same), every);
}

/// A filter that accepts everything keeps everything.
proof fn lemma_filter_all(
    all: Seq<CatalogueEntryView>,
    p: spec_fn(CatalogueEntryView) -> bool,
)
    requires
        forall|e: CatalogueEntryView| #[trigger] p(e),
    ensures
        all.filter(p) == all,
    decreases all.len(),
{
    reveal(Seq::filter);
    if all.len() > 0 {
        lemma_filter_all(all.drop_last(), p);
        assert(p(all.last()));
        assert(all =~= all.drop_last().push(all.last()));
    } else {
        assert(all.filter(p) =~= all);
    }
}

/// A registered collection.
#[derive(Debug)]
pub struct CollectionInfo {
    pub name: String,
    pub source_type: String,
    pub has_active_version: bool,
    /// The library path; the name where none is recorded
    pub node_path: String,
}

#[verifier::ext_equal]
pub struct InfoView {
    pub name: Seq<char>,
    pub source_type: Seq<char>,
    pub has_active_version: bool,
    pub node_path: Seq<char>,
}

impl DeepView for CollectionInfo {
    type V = InfoView;

    open spec fn deep_view(&self) -> InfoView {
        InfoView {
            name: self.name@,
            source_type: self.source_type@,
            has_active_version: self.has_active_version,
            node_path: self.node_path@,
        }
    }
}

/// What is shown of a collection: without an active version its path is its name.
pub open spec fn info_of(e: CatalogueEntryView) -> InfoView {
    InfoView {
        name: e.name,
        source_type: e.source_type,
        has_active_version: e.version is Some,
        node_path: match (e.version, e.node_path) {
            (Some(_), Some(p)) => p,
            _ => e.name,
        },
    }
}

/// A collection is listed under its own name and kind of source; its path is the one
/// recorded for its active version, and its name where there is none.
pub proof fn law_listed_path_is_of_the_active_version(e: CatalogueEntryView)
    ensures
        info_of(e).name == e.name,
        info_of(e).source_type == e.source_type,
        info_of(e).has_active_version <==> e.version is Some,
        e.version is Some && e.node_path is Some ==> info_of(e).node_path == e.node_path->0,
        e.version is None || e.node_path is None ==> info_of(e).node_path == e.name,
{
}

/// Every registered collection.
pub fn list_collections(entries: &Vec<CatalogueEntry>) -> (r: Vec<CollectionInfo>)
    ensures
        r.deep_view() == entries.deep_view().map_values(|e: CatalogueEntryView| info_of(e)),
{
    let ghost all = entries.deep_view();
    let ghost want = all.map_values(|e: CatalogueEntryView| info_of(e));
    let mut r: Vec<CollectionInfo> = Vec::new();
    let mut i: usize = 0;
    proof {
        assert(r.deep_view() =~= want.take(0));
    }
    while i < entries.len()
        invariant
            i <= entries@.len(),
            all == entries.deep_view(),
            want == all.map_values(|e: CatalogueEntryView| info_of(e)),
            r.deep_view() == want.take(i as int),
        decreases entries@.len() - i,
    {
        let ghost before = r.deep_view();
        let e = &entries[i];
        let node_path = match (&e.version, &e.node_path) {
            (Some(_), Some(p)) => p.clone(),
            _ => e.collection.name.clone(),
        };
        r.push(
            CollectionInfo {
                name: e.collection.name.clone(),
                source_type: e.collection.source_type.clone(),
                has_active_version: e.version.is_some(),
                node_path,
            },
        );
        i = i + 1;
        proof {
            assert(r.deep_view() =~= before.push(want[i - 1]));
            assert(r.deep_view() =~= want.take(i as int));
        }
    }
    proof {
        assert(want.take(i as int) =~= want);
    }
    r
}

/// A registered source directory.
#[derive(Debug)]
pub struct SourceInfo {
    pub id: i64,
    pub path: String,
    pub last_scanned: Option<String>,
}

/// Every registered source directory.
pub fn list_sources(sources: &Vec<Source>) -> (r: Vec<SourceInfo>)
    ensures
        r@.len() == sources@.len(),
        forall|i: int|
            0 <= i < r@.len() ==> (#[trigger] r@[i]).id == sources@[i].id && r@[i].path@
                == sources@[i].path@ && r@[i].last_scanned.deep_view()
                == sources@[i].last_scanned.deep_view(),
{
    let mut r: Vec<SourceInfo> = Vec::new();
    let mut i: usize = 0;
    while i < sources.len()
        invariant
            i <= sources@.len(),
            r@.len() == i,
            forall|j: int|
                0 <= j < i ==> (#[trigger] r@[j]).id == sources@[j].id && r@[j].path@
                    == sources@[j].path@ && r@[j].last_scanned.deep_view()
                    == sources@[j].last_scanned.deep_view(),
        decreases sources@.len() - i,
    {
        let s = &sources[i];
        r.push(
            SourceInfo {
                id: s.id,
                path: s.path.clone(),
                last_scanned: text::clone_opt(&s.last_scanned),
            },
        );
        i = i + 1;
    }
    r
}

} // verus!
