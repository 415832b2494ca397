//! Which collections a plan takes in, and where they go.

use super::destinations;
use super::destinations::resolve_dest_root;
use super::options;
use super::options::{hierarchy_matches_set_filter, OptionsView, PlanOptions};
use super::types::{MatchView, MatchedRom};
use crate::db::collections::{Collection, CollectionVersion};
use crate::db::config::{CollectionConfig, ConfigView};
use crate::paths::{PathError, PathErrorView};
use vstd::prelude::*;

verus! {

/// What the catalogue holds about one collection.
pub struct CollectionFacts {
    pub collection: Collection,
    /// The active version of its DAT
    pub version: Option<CollectionVersion>,
    /// The library path of that version, where one is recorded
    pub node_path: Option<String>,
    /// The collection's own configuration
    pub config: Option<CollectionConfig>,
    /// The configuration of the set it belongs to
    pub set_config: Option<CollectionConfig>,
    /// Whether the version lists disks
    pub has_disks: bool,
    /// Whether the version lists ROMs
    pub has_roms: bool,
    /// How many rows its ROMs match, counted up to a limit
    pub match_rows: usize,
    /// The matches themselves
    pub matches: Vec<MatchedRom>,
}

#[verifier::ext_equal]
pub struct FactsView {
    pub name: Seq<char>,
    pub version_id: Option<i64>,
    pub node_path: Option<Seq<char>>,
    pub config: Option<ConfigView>,
    pub set_config: Option<ConfigView>,
    pub has_disks: bool,
    pub has_roms: bool,
    pub match_rows: usize,
    pub matches: Seq<MatchView>,
}

impl DeepView for CollectionFacts {
    type V = FactsView;

    open spec fn deep_view(&self) -> FactsView {
        FactsView {
            name: self.collection.name@,
            version_id: match self.version {
                Some(v) => Some(v.id),
                None => None,
            },
            node_path: self.node_path.deep_view(),
            config: self.config.deep_view(),
            set_config: self.set_config.deep_view(),
            has_disks: self.has_disks,
            has_roms: self.has_roms,
            match_rows: self.match_rows,
            matches: self.matches.deep_view(),
        }
    }
}

pub open spec fn fact_views(facts: Seq<CollectionFacts>) -> Seq<FactsView> {
    Seq::new(facts.len(), |i: int| facts[i].deep_view())
}

/// The library path of a collection; its name where none is recorded.
pub open spec fn hierarchy_of(f: FactsView) -> Seq<char> {
    match f.node_path {
        Some(p) => p,
        None => f.name,
    }
}

/// The destination that a collection was given explicitly.
pub open spec fn explicit_dest(f: FactsView) -> Option<Seq<char>> {
    match f.config {
        Some(c) => c.dest_path,
        None => None,
    }
}

/// Whether a collection is in scope.
#[verifier::ext_equal]
pub enum ScopeView {
    NoActiveVersion,
    ExcludedBySet,
    Resolved { version_id: i64, hierarchy: Seq<char>, dest_root: Option<Seq<char>> },
}

/// Where a collection stands: without an active version, left out by the set
/// filter, or in scope with the destination that it resolves to, if any.
pub open spec fn scope_of(f: FactsView, opts: OptionsView) -> Result<ScopeView, PathErrorView> {
    match f.version_id {
        None => Ok(ScopeView::NoActiveVersion),
        Some(version_id) => if !options::set_wanted(hierarchy_of(f), opts) {
            Ok(ScopeView::ExcludedBySet)
        } else {
            match destinations::dest_root_of(
                explicit_dest(f),
                opts.default_dest,
                hierarchy_of(f),
            ) {
                Err(e) => Err(e),
                Ok(dest_root) => Ok(
                    ScopeView::Resolved { version_id, hierarchy: hierarchy_of(f), dest_root },
                ),
            }
        },
    }
}

/// A collection is in scope exactly where it has an active version and the set
/// filter lets it in. It then goes to its own destination where it was given one,
/// whatever the default; else below the library-wide root by its library path; else
/// nowhere.
pub proof fn law_own_destination_comes_first(f: FactsView, opts: OptionsView, base: Seq<char>)
    requires
        base.len() > 0 && base.last() != '/',
    ensures
        f.version_id is None ==> scope_of(f, opts) == Ok::<ScopeView, PathErrorView>(
            ScopeView::NoActiveVersion,
        ),
        f.version_id is Some && !options::set_wanted(hierarchy_of(f), opts) ==> scope_of(f, opts)
            == Ok::<ScopeView, PathErrorView>(ScopeView::ExcludedBySet),
        f.node_path matches Some(p) ==> hierarchy_of(f) == p,
        f.node_path is None ==> hierarchy_of(f) == f.name,
        f.version_id is Some && options::set_wanted(hierarchy_of(f), opts) ==> {
            let own = f.config matches Some(c) && c.dest_path is Some;
            &&& own ==> scope_of(f, opts) == Ok::<ScopeView, PathErrorView>(
                ScopeView::Resolved {
                    version_id: f.version_id->0,
                    hierarchy: hierarchy_of(f),
                    dest_root: f.config->0.dest_path,
                },
            )
            &&& !own && opts.default_dest is None ==> scope_of(f, opts) == Ok::<
                ScopeView,
                PathErrorView,
            >(
                ScopeView::Resolved {
                    version_id: f.version_id->0,
                    hierarchy: hierarchy_of(f),
                    dest_root: None,
                },
            )
            &&& !own && opts.default_dest == Some(base) && crate::paths::fault_of(
                hierarchy_of(f),
            ) is None ==> scope_of(f, opts) == Ok::<ScopeView, PathErrorView>(
                ScopeView::Resolved {
                    version_id: f.version_id->0,
                    hierarchy: hierarchy_of(f),
                    dest_root: Some(base + "/"@ + hierarchy_of(f)),
                },
            )
        },
{
    if crate::paths::fault_of(hierarchy_of(f)) is None {
        destinations::lemma_default_root(base, hierarchy_of(f));
    }
}

/// Where a collection stands.
pub enum ScopedCollectionResolution {
    NoActiveVersion,
    ExcludedBySet,
    Resolved { version_id: i64, hierarchy: String, dest_root: Option<String> },
}

impl DeepView for ScopedCollectionResolution {
    type V = ScopeView;

    open spec fn deep_view(&self) -> ScopeView {
        match self {
            ScopedCollectionResolution::NoActiveVersion => ScopeView::NoActiveVersion,
            ScopedCollectionResolution::ExcludedBySet => ScopeView::ExcludedBySet,
            ScopedCollectionResolution::Resolved { version_id, hierarchy, dest_root } =>
                ScopeView::Resolved {
                version_id: *version_id,
                hierarchy: hierarchy@,
                dest_root: dest_root.deep_view(),
            },
        }
    }
}

impl CollectionFacts {
    /// The library path of the collection.
    pub fn hierarchy(&self) -> (r: String)
        ensures
            r@ == hierarchy_of(self.deep_view()),
    {
        match &self.node_path {
            Some(p) => p.clone(),
            None => self.collection.name.clone(),
        }
    }
}

/// Resolves where a collection stands.
pub fn resolve_scoped_collection(opts: &PlanOptions, facts: &CollectionFacts) -> (r: Result<
    ScopedCollectionResolution,
    PathError,
>)
    ensures
        match r {
            Ok(s) => scope_of(facts.deep_view(), opts.deep_view()) == Ok::<
                ScopeView,
                PathErrorView,
            >(s.deep_view()),
            Err(e) => scope_of(facts.deep_view(), opts.deep_view()) == Err::<
                ScopeView,
                PathErrorView,
            >(e.deep_view()),
        },
{
    let version_id: i64 = match &facts.version {
        Some(v) => v.id,
        None => {
            return Ok(ScopedCollectionResolution::NoActiveVersion);
        },
    };
    let hierarchy = facts.hierarchy();
    if !hierarchy_matches_set_filter(hierarchy.as_str(), opts) {
        return Ok(ScopedCollectionResolution::ExcludedBySet);
    }
    let explicit: Option<&str> = match &facts.config {
        Some(c) => match &c.dest_path {
            Some(p) => Some(p.as_str()),
            None => None,
        },
        None => None,
    };
    let default_dest: Option<&str> = match &opts.default_dest {
        Some(d) => Some(d.as_str()),
        None => None,
    };
    match resolve_dest_root(explicit, default_dest, hierarchy.as_str()) {
        Ok(dest_root) => Ok(
            ScopedCollectionResolution::Resolved { version_id, hierarchy, dest_root },
        ),
        Err(e) => Err(e),
    }
}

} // verus!
