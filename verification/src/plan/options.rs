//! Options of plan generation, and which collections they take in.

use super::rules;
use super::rules::{glob_match, OutputFormat};
use crate::db::dats::MergeMode;
use crate::text;
use vstd::prelude::*;

verus! {

/// Options controlling plan generation.
#[derive(Debug)]
pub struct PlanOptions {
    /// Glob over collection names; `None` plans every collection.
    pub dat_filter: Option<String>,
    /// Restrict planning to these sets: the top segment of a collection's
    /// library path. `None` plans every set.
    pub set_filter: Option<Vec<String>>,
    /// Library-wide destination root for collections without their own.
    pub default_dest: Option<String>,
    /// Output format for collections without their own setting.
    pub default_format: OutputFormat,
    /// Merge mode for collections without their own setting.
    pub default_merge_mode: MergeMode,
}

#[verifier::ext_equal]
pub struct OptionsView {
    pub dat_filter: Option<Seq<char>>,
    pub set_filter: Option<Seq<Seq<char>>>,
    pub default_dest: Option<Seq<char>>,
    pub default_format: OutputFormat,
    pub default_merge_mode: MergeMode,
}

impl DeepView for PlanOptions {
    type V = OptionsView;

    open spec fn deep_view(&self) -> OptionsView {
        OptionsView {
            dat_filter: self.dat_filter.deep_view(),
            set_filter: self.set_filter.deep_view(),
            default_dest: self.default_dest.deep_view(),
            default_format: self.default_format,
            default_merge_mode: self.default_merge_mode,
        }
    }
}

impl Default for PlanOptions {
    fn default() -> (r: Self)
        ensures
            r.deep_view() == (OptionsView {
                dat_filter: None,
                set_filter: None,
                default_dest: None,
                default_format: OutputFormat::Loose,
                default_merge_mode: MergeMode::NonMerged,
            }),
    {
        PlanOptions {
            dat_filter: None,
            set_filter: None,
            default_dest: None,
            default_format: OutputFormat::Loose,
            default_merge_mode: MergeMode::NonMerged,
        }
    }
}

/// The set of a library path: its top segment.
pub open spec fn set_of(hierarchy: Seq<char>) -> Seq<char> {
    hierarchy.take(text::first_index(hierarchy, '/'))
}

/// Whether the name filter lets a collection in.
pub open spec fn name_wanted(name: Seq<char>, opts: OptionsView) -> bool {
    opts.dat_filter matches Some(pattern) ==> rules::matches(pattern, name)
}

/// Whether the set filter lets a library path in.
pub open spec fn set_wanted(hierarchy: Seq<char>, opts: OptionsView) -> bool {
    opts.set_filter matches Some(sets) ==> sets.contains(set_of(hierarchy))
}

/// The set of a path is what stands before its first separator; without filters
/// everything is let in; a name filter lets in what it matches and a set filter the
/// paths of its sets, and nothing else.
pub proof fn law_filters_let_in_what_they_name(
    set: Seq<char>,
    rest: Seq<char>,
    name: Seq<char>,
    opts: OptionsView,
)
    requires
        !set.contains('/'),
    ensures
        set_of(set) == set,
        set_of(set.push('/') + rest) == set,
        opts.dat_filter is None ==> name_wanted(name, opts),
        opts.dat_filter matches Some(p) ==> (name_wanted(name, opts) <==> rules::matches(p, name)),
        opts.set_filter is None ==> set_wanted(name, opts),
        opts.set_filter matches Some(sets) ==> (set_wanted(set.push('/') + rest, opts)
            <==> sets.contains(set)) && (set_wanted(set, opts) <==> sets.contains(set)),
{
    let n = set.len() as int;
    assert forall|j: int| 0 <= j < n implies set[j] != '/' by {
        assert(set.contains(set[j]));
    }
    text::lemma_first_index_is(set, '/', n);
    assert(set.take(n) =~= set);
    let s = set.push('/') + rest;
    text::lemma_first_index_is(s, '/', n);
    assert(s.take(n) =~= set);
}

/// The set of a library path.
pub fn set_name(hierarchy: &str) -> (r: String)
    ensures
        r@ == set_of(hierarchy@),
{
    let chars = text::chars_of(hierarchy);
    let end = text::find_char(chars.as_slice(), '/');
    proof {
        text::lemma_first_index(hierarchy@, '/');
        assert(chars@.subrange(0, end as int) =~= hierarchy@.take(end as int));
    }
    text::string_of(chars.as_slice(), 0, end)
}

/// Whether the name filter lets a collection in.
pub fn collection_name_matches(name: &str, opts: &PlanOptions) -> (r: bool)
    ensures
        r == name_wanted(name@, opts.deep_view()),
{
    match &opts.dat_filter {
        Some(pattern) => glob_match(pattern.as_str(), name),
        None => true,
    }
}

/// Whether the set filter lets a library path in.
pub fn hierarchy_matches_set_filter(hierarchy: &str, opts: &PlanOptions) -> (r: bool)
    ensures
        r == set_wanted(hierarchy@, opts.deep_view()),
{
    match &opts.set_filter {
        None => true,
        Some(sets) => {
            let set = set_name(hierarchy);
            let mut i: usize = 0;
            while i < sets.len()
                invariant
                    i <= sets@.len(),
                    opts.set_filter == Some(*sets),
                    set@ == set_of(hierarchy@),
                    forall|j: int| 0 <= j < i ==> (#[trigger] sets.deep_view()[j]) != set@,
                decreases sets@.len() - i,
            {
                if text::str_eq(sets[i].as_str(), set.as_str()) {
                    proof {
                        assert(sets.deep_view()[i as int] == set@);
                    }
                    return true;
                }
                i = i + 1;
            }
            false
        },
    }
}

} // verus!
