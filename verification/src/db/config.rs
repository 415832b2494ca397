//! Per-collection configuration.

use crate::filter::preferences;
use crate::filter::preferences::PreferencesView;
use crate::filter::FilterPreferences;
use crate::text;
use vstd::prelude::*;

verus! {

/// A collection's configuration record.
#[derive(Debug)]
pub struct CollectionConfig {
    pub id: i64,
    pub path_pattern: String,
    pub dest_path: Option<String>,
    pub output_format: Option<String>,
    pub merge_mode: Option<String>,
    pub extra_config: Option<ExtraConfig>,
}

/// Extended configuration.
#[derive(Debug)]
pub struct ExtraConfig {
    /// Enable 1G1R filtering (One Game One ROM)
    pub one_g_one_r: bool,
    /// Region priority for 1G1R (first = most preferred)
    pub region_priority: Vec<String>,
    /// Exclude cracks, trainers, hacks, etc.
    pub exclude_modified: bool,
    /// Exclude bad dumps
    pub exclude_bad_dumps: bool,
    /// Exclude betas, protos, demos
    pub exclude_prereleases: bool,
    /// Prefer verified dumps [!]
    pub prefer_verified: bool,
}

#[verifier::ext_equal]
pub struct ExtraView {
    pub one_g_one_r: bool,
    pub region_priority: Seq<Seq<char>>,
    pub exclude_modified: bool,
    pub exclude_bad_dumps: bool,
    pub exclude_prereleases: bool,
    pub prefer_verified: bool,
}

impl DeepView for ExtraConfig {
    type V = ExtraView;

    open spec fn deep_view(&self) -> ExtraView {
        ExtraView {
            one_g_one_r: self.one_g_one_r,
            region_priority: self.region_priority.deep_view(),
            exclude_modified: self.exclude_modified,
            exclude_bad_dumps: self.exclude_bad_dumps,
            exclude_prereleases: self.exclude_prereleases,
            prefer_verified: self.prefer_verified,
        }
    }
}

#[verifier::ext_equal]
pub struct ConfigView {
    pub id: i64,
    pub path_pattern: Seq<char>,
    pub dest_path: Option<Seq<char>>,
    pub output_format: Option<Seq<char>>,
    pub merge_mode: Option<Seq<char>>,
    pub extra_config: Option<ExtraView>,
}

impl DeepView for CollectionConfig {
    type V = ConfigView;

    open spec fn deep_view(&self) -> ConfigView {
        ConfigView {
            id: self.id,
            path_pattern: self.path_pattern@,
            dest_path: self.dest_path.deep_view(),
            output_format: self.output_format.deep_view(),
            merge_mode: self.merge_mode.deep_view(),
            extra_config: self.extra_config.deep_view(),
        }
    }
}

/// The extended configuration of a collection that has none.
pub open spec fn default_extra() -> ExtraView {
    ExtraView {
        one_g_one_r: false,
        region_priority: Seq::empty(),
        exclude_modified: true,
        exclude_bad_dumps: true,
        exclude_prereleases: false,
        prefer_verified: true,
    }
}

impl Default for ExtraConfig {
    fn default() -> (r: Self)
        ensures
            r.deep_view() == default_extra(),
    {
        let r = ExtraConfig {
            one_g_one_r: false,
            region_priority: Vec::new(),
            exclude_modified: true,
            exclude_bad_dumps: true,
            exclude_prereleases: false,
            prefer_verified: true,
        };
        proof {
            assert(r.region_priority.deep_view() =~= Seq::<Seq<char>>::empty());
        }
        r
    }
}

/// The selection preferences that a configuration asks for.
pub open spec fn preferences_of(e: ExtraView) -> PreferencesView {
    PreferencesView {
        region_priority: if e.region_priority.len() == 0 {
            preferences::default_regions()
        } else {
            e.region_priority
        },
        exclude_modified: e.exclude_modified,
        exclude_bad_dumps: e.exclude_bad_dumps,
        exclude_prereleases: e.exclude_prereleases,
        prefer_verified: e.prefer_verified,
        prefer_parent: true,
    }
}

/// A configuration's switches are the preferences' switches; its region order is
/// theirs, unless it has none, where the default order stands in.
pub proof fn law_switches_are_handed_on(e: ExtraView)
    ensures
        preferences_of(e).exclude_modified == e.exclude_modified,
        preferences_of(e).exclude_bad_dumps == e.exclude_bad_dumps,
        preferences_of(e).exclude_prereleases == e.exclude_prereleases,
        preferences_of(e).prefer_verified == e.prefer_verified,
        e.region_priority.len() > 0 ==> preferences_of(e).region_priority == e.region_priority,
        e.region_priority.len() == 0 ==> preferences_of(e).region_priority
            == preferences::default_regions(),
        default_extra().exclude_modified && default_extra().exclude_bad_dumps
            && default_extra().prefer_verified,
        !default_extra().one_g_one_r && !default_extra().exclude_prereleases,
        preferences_of(default_extra()) == preferences::preferring(preferences::default_regions()),
{
}

impl ExtraConfig {
    /// The preferences for use in plan generation.
    pub fn to_filter_preferences(&self) -> (r: FilterPreferences)
        ensures
            r.deep_view() == preferences_of(self.deep_view()),
    {
        let mut prefs = if self.region_priority.len() == 0 {
            FilterPreferences::default()
        } else {
            let regions = text::clone_list(self.region_priority.as_slice());
            proof {
                assert(regions.deep_view() =~= self.region_priority.deep_view());
            }
            FilterPreferences::with_regions(regions)
        };
        prefs.exclude_modified = self.exclude_modified;
        prefs.exclude_bad_dumps = self.exclude_bad_dumps;
        prefs.exclude_prereleases = self.exclude_prereleases;
        prefs.prefer_verified = self.prefer_verified;
        prefs
    }
}

/// The extended configuration of a record, or the default one.
pub open spec fn extra_or_default(existing: Option<ConfigView>) -> ExtraView {
    match existing {
        Some(c) => match c.extra_config {
            Some(e) => e,
            None => default_extra(),
        },
        None => default_extra(),
    }
}

/// Switching one part of a record's extended configuration starts from what the record
/// has, and from the default where it has none.
pub proof fn law_switching_starts_from_the_record(existing: Option<ConfigView>)
    ensures
        existing matches Some(c) ==> (c.extra_config matches Some(e) ==> extra_or_default(existing)
            == e),
        existing is None || existing->0.extra_config is None ==> {
            let e = extra_or_default(existing);
            &&& !e.one_g_one_r && e.region_priority.len() == 0 && !e.exclude_prereleases
            &&& e.exclude_modified && e.exclude_bad_dumps && e.prefer_verified
        },
{
}

fn take_extra(existing: Option<CollectionConfig>) -> (r: ExtraConfig)
    ensures
        r.deep_view() == extra_or_default(existing.deep_view()),
{
    match existing {
        Some(c) => match c.extra_config {
            Some(e) => e,
            None => ExtraConfig::default(),
        },
        None => ExtraConfig::default(),
    }
}

/// The extended configuration with 1G1R filtering switched.
pub fn with_one_g_one_r(existing: Option<CollectionConfig>, enabled: bool) -> (r: ExtraConfig)
    ensures
        r.deep_view() == (ExtraView {
            one_g_one_r: enabled,
            ..extra_or_default(existing.deep_view())
        }),
{
    let mut extra = take_extra(existing);
    extra.one_g_one_r = enabled;
    extra
}

/// The extended configuration with another region priority.
pub fn with_region_priority(existing: Option<CollectionConfig>, regions: Vec<String>) -> (r:
    ExtraConfig)
    ensures
        r.deep_view() == (ExtraView {
            region_priority: regions.deep_view(),
            ..extra_or_default(existing.deep_view())
        }),
{
    let mut extra = take_extra(existing);
    extra.region_priority = regions;
    extra
}

/// The extended configuration with the exclusion of prereleases switched.
pub fn with_exclude_prereleases(existing: Option<CollectionConfig>, exclude: bool) -> (r:
    ExtraConfig)
    ensures
        r.deep_view() == (ExtraView {
            exclude_prereleases: exclude,
            ..extra_or_default(existing.deep_view())
        }),
{
    let mut extra = take_extra(existing);
    extra.exclude_prereleases = exclude;
    extra
}

} // verus!
