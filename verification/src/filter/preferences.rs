//! ROM selection preferences for 1G1R filtering: which of several regional
//! variants or dumps of one game is kept.

use super::parser;
use super::parser::{parse_game_name, ParsedGameName, ParsedView};
use crate::seqs;
use crate::sorted_map::SortedMap;
use crate::text;
use std::cmp::Ordering;
use vstd::prelude::*;

verus! {

/// The region order used when none is given: the most preferred first.
pub open spec fn default_regions() -> Seq<Seq<char>> {
    seq![
        "World"@,
        "USA"@,
        "Europe"@,
        "Japan"@,
        "Australia"@,
        "Canada"@,
        "UK"@,
        "France"@,
        "Germany"@,
        "Spain"@,
        "Italy"@,
        "Netherlands"@,
        "Sweden"@,
        "Brazil"@,
        "Korea"@,
        "China"@,
        "Taiwan"@,
        "Hong Kong"@,
        "Russia"@,
        "Asia"@,
        "Scandinavia"@,
    ]
}

/// Preferences for ROM selection.
pub struct FilterPreferences {
    /// Region priority order (first = most preferred)
    pub region_priority: Vec<String>,
    /// Exclude cracks, trainers, hacks (TOSEC flags: cr, t, h, f, m, tr, o, u, v)
    pub exclude_modified: bool,
    /// Exclude bad dumps (TOSEC flag: b)
    pub exclude_bad_dumps: bool,
    /// Exclude betas, protos, demos
    pub exclude_prereleases: bool,
    /// Prefer verified dumps (GoodTools [!] flag)
    pub prefer_verified: bool,
    /// Prefer parent ROMs over clones (for MAME-style DATs)
    pub prefer_parent: bool,
}

/// The mathematical content of preferences.
#[verifier::ext_equal]
pub struct PreferencesView {
    pub region_priority: Seq<Seq<char>>,
    pub exclude_modified: bool,
    pub exclude_bad_dumps: bool,
    pub exclude_prereleases: bool,
    pub prefer_verified: bool,
    pub prefer_parent: bool,
}

impl DeepView for FilterPreferences {
    type V = PreferencesView;

    open spec fn deep_view(&self) -> PreferencesView {
        PreferencesView {
            region_priority: self.region_priority.deep_view(),
            exclude_modified: self.exclude_modified,
            exclude_bad_dumps: self.exclude_bad_dumps,
            exclude_prereleases: self.exclude_prereleases,
            prefer_verified: self.prefer_verified,
            prefer_parent: self.prefer_parent,
        }
    }
}

/// The preferences for a region order, all else at its default.
pub open spec fn preferring(regions: Seq<Seq<char>>) -> PreferencesView {
    PreferencesView {
        region_priority: regions,
        exclude_modified: true,
        exclude_bad_dumps: true,
        exclude_prereleases: false,
        prefer_verified: true,
        prefer_parent: true,
    }
}

/// Whether preferences rule a dump out.
pub open spec fn excluded(prefs: PreferencesView, p: ParsedView) -> bool {
    ||| prefs.exclude_modified && parser::altered(p)
    ||| prefs.exclude_bad_dumps && p.bad_dump
    ||| prefs.exclude_prereleases && p.is_prerelease
}

/// The place of a region in a priority list; the list's length where it has none.
pub open spec fn region_place(priority: Seq<Seq<char>>, region: Seq<char>) -> int
    decreases priority.len(),
{
    if priority.len() == 0 || text::same_ignoring_case(priority[0], region) {
        0
    } else {
        1 + region_place(priority.drop_first(), region)
    }
}

/// The best place among several regions; the list's length where none has one.
pub open spec fn best_place(priority: Seq<Seq<char>>, regions: Seq<Seq<char>>) -> int
    decreases regions.len(),
{
    if regions.len() == 0 {
        priority.len() as int
    } else {
        let before = best_place(priority, regions.drop_last());
        let last = region_place(priority, regions.last());
        if last < before {
            last
        } else {
            before
        }
    }
}

/// Whether dump `a` is strictly preferred to dump `b`: a verified dump first
/// (where that is asked for), then the better region, then the base version
/// over a revision.
pub open spec fn better(prefs: PreferencesView, a: ParsedView, b: ParsedView) -> bool {
    let unverified_a = prefs.prefer_verified && !a.verified;
    let unverified_b = prefs.prefer_verified && !b.verified;
    let place_a = best_place(prefs.region_priority, a.regions);
    let place_b = best_place(prefs.region_priority, b.regions);
    if unverified_a != unverified_b {
        unverified_b
    } else if place_a != place_b {
        place_a < place_b
    } else {
        a.revision is None && b.revision is Some
    }
}

/// What dumps are compared by, in this order: whether verification is asked for
/// and missing, the best place of a region in the priority list (or the largest
/// number there is), and whether it is a revision.
pub open spec fn preference_key(prefs: PreferencesView, p: ParsedView) -> (bool, int, bool) {
    let place = best_place(prefs.region_priority, p.regions);
    (
        prefs.prefer_verified && !p.verified,
        if place < prefs.region_priority.len() {
            place
        } else {
            usize::MAX as int
        },
        p.revision is Some,
    )
}

/// How one key stands to another, part by part; what does not hold comes first.
pub open spec fn key_order(x: (bool, int, bool), y: (bool, int, bool)) -> Ordering {
    if x.0 != y.0 {
        if y.0 {
            Ordering::Less
        } else {
            Ordering::Greater
        }
    } else if x.1 != y.1 {
        if x.1 < y.1 {
            Ordering::Less
        } else {
            Ordering::Greater
        }
    } else if x.2 != y.2 {
        if y.2 {
            Ordering::Less
        } else {
            Ordering::Greater
        }
    } else {
        Ordering::Equal
    }
}

/// A comparison seen from the other side.
pub open spec fn flipped(o: Ordering) -> Ordering {
    match o {
        Ordering::Less => Ordering::Greater,
        Ordering::Equal => Ordering::Equal,
        Ordering::Greater => Ordering::Less,
    }
}

proof fn lemma_best_place(priority: Seq<Seq<char>>, regions: Seq<Seq<char>>)
    ensures
        0 <= best_place(priority, regions) <= priority.len(),
    decreases regions.len(),
{
    if regions.len() > 0 {
        lemma_best_place(priority, regions.drop_last());
        lemma_region_place(priority, regions.last());
    }
}

proof fn lemma_region_place(priority: Seq<Seq<char>>, region: Seq<char>)
    ensures
        0 <= region_place(priority, region),
    decreases priority.len(),
{
    if priority.len() > 0 {
        lemma_region_place(priority.drop_first(), region);
    }
}

/// The comparison of dumps is that of their keys: it gives the better one, it is
/// reversed when the dumps change places, and it is transitive.
pub proof fn law_comparison_is_by_key(
    prefs: PreferencesView,
    a: ParsedView,
    b: ParsedView,
    c: ParsedView,
)
    requires
        prefs.region_priority.len() <= usize::MAX,
    ensures
        ({
            let (x, y, z) = (
                preference_key(prefs, a),
                preference_key(prefs, b),
                preference_key(prefs, c),
            );
            &&& key_order(x, y) is Less <==> better(prefs, a, b)
            &&& key_order(x, y) is Greater <==> better(prefs, b, a)
            &&& key_order(y, x) == flipped(key_order(x, y))
            &&& !(key_order(x, y) is Greater) && !(key_order(y, z) is Greater) ==> !(key_order(
                x,
                z,
            ) is Greater)
        }),
{
    lemma_best_place(prefs.region_priority, a.regions);
    lemma_best_place(prefs.region_priority, b.regions);
}

/// A ROM candidate for selection.
pub struct RomCandidate<'a> {
    /// Original ROM name
    pub name: &'a str,
    /// Parsed name information
    pub parsed: ParsedGameName,
    /// Is this a parent ROM (for MAME-style DATs)
    pub is_parent: bool,
}

/// The mathematical content of a candidate.
#[verifier::ext_equal]
pub struct CandidateView {
    pub name: Seq<char>,
    pub parsed: ParsedView,
    pub is_parent: bool,
}

impl<'a> DeepView for RomCandidate<'a> {
    type V = CandidateView;

    open spec fn deep_view(&self) -> CandidateView {
        CandidateView {
            name: self.name@,
            parsed: self.parsed.deep_view(),
            is_parent: self.is_parent,
        }
    }
}

/// The contents of a list of candidates.
pub open spec fn candidate_views(candidates: Seq<RomCandidate>) -> Seq<CandidateView> {
    Seq::new(candidates.len(), |i: int| candidates[i].deep_view())
}

/// Whether the candidate at `i` may be chosen at all.
pub open spec fn eligible(c: Seq<CandidateView>, prefs: PreferencesView, i: int) -> bool {
    0 <= i < c.len() && !excluded(prefs, c[i].parsed)
}

/// Whether the candidate at `i` is an eligible parent.
pub open spec fn eligible_parent(c: Seq<CandidateView>, prefs: PreferencesView, i: int) -> bool {
    eligible(c, prefs, i) && c[i].is_parent
}

/// Whether the parent rule decides the choice.
pub open spec fn parent_decides(c: Seq<CandidateView>, prefs: PreferencesView) -> bool {
    prefs.prefer_parent && exists|i: int| #[trigger] eligible_parent(c, prefs, i)
}

/// Whether the candidate at `i` is the choice: the first eligible parent where
/// parents are preferred and there is one, else the first eligible candidate
/// that no other eligible one is better than.
pub open spec fn chosen(c: Seq<CandidateView>, prefs: PreferencesView, i: int) -> bool {
    if parent_decides(c, prefs) {
        eligible_parent(c, prefs, i) && forall|j: int|
            0 <= j < i ==> !#[trigger] eligible_parent(c, prefs, j)
    } else {
        &&& eligible(c, prefs, i)
        &&& forall|j: int|
            #[trigger] eligible(c, prefs, j) ==> !better(prefs, c[j].parsed, c[i].parsed)
        &&& forall|j: int|
            0 <= j < i && #[trigger] eligible(c, prefs, j) ==> better(
                prefs,
                c[i].parsed,
                c[j].parsed,
            )
    }
}

/// Preference is a strict weak order: irreflexive and transitive, and so is
/// being equally preferred.
pub proof fn law_preference_is_an_order(
    prefs: PreferencesView,
    a: ParsedView,
    b: ParsedView,
    c: ParsedView,
)
    ensures
        !better(prefs, a, a),
        better(prefs, a, b) ==> !better(prefs, b, a),
        better(prefs, a, b) && better(prefs, b, c) ==> better(prefs, a, c),
        !better(prefs, a, b) && !better(prefs, b, a) && !better(prefs, b, c) && !better(
            prefs,
            c,
            b,
        ) ==> !better(prefs, a, c) && !better(prefs, c, a),
{
}

/// The choice among candidates is unique, and never an excluded one.
pub proof fn law_choice_is_unique(
    c: Seq<CandidateView>,
    prefs: PreferencesView,
    i: int,
    j: int,
)
    requires
        chosen(c, prefs, i),
        chosen(c, prefs, j),
    ensures
        i == j,
        !excluded(prefs, c[i].parsed),
{
    if parent_decides(c, prefs) {
        assert(eligible_parent(c, prefs, i) && eligible_parent(c, prefs, j));
    } else {
        assert(eligible(c, prefs, i) && eligible(c, prefs, j));
    }
}

/// What is chosen is one of the candidates, and carries nothing that the preferences
/// exclude: none of the nine flags of alteration, no sign of a bad dump, no sign of a
/// prerelease.
pub proof fn law_excluded_dumps_are_never_chosen(
    c: Seq<CandidateView>,
    prefs: PreferencesView,
    i: int,
)
    requires
        chosen(c, prefs, i),
    ensures
        0 <= i < c.len(),
        prefs.exclude_modified ==> {
            let flags = c[i].parsed.flags;
            &&& !flags.contains("cr"@) && !flags.contains("t"@) && !flags.contains("h"@)
            &&& !flags.contains("f"@) && !flags.contains("m"@) && !flags.contains("tr"@)
            &&& !flags.contains("o"@) && !flags.contains("u"@) && !flags.contains("v"@)
        },
        prefs.exclude_bad_dumps ==> !c[i].parsed.bad_dump,
        prefs.exclude_prereleases ==> !c[i].parsed.is_prerelease,
{
    assert(eligible(c, prefs, i)) by {
        if parent_decides(c, prefs) {
            assert(eligible_parent(c, prefs, i));
        }
    }
    let p = c[i].parsed;
    parser::law_nine_flags_mark_alteration(p, "cr"@);
    parser::law_nine_flags_mark_alteration(p, "t"@);
    parser::law_nine_flags_mark_alteration(p, "h"@);
    parser::law_nine_flags_mark_alteration(p, "f"@);
    parser::law_nine_flags_mark_alteration(p, "m"@);
    parser::law_nine_flags_mark_alteration(p, "tr"@);
    parser::law_nine_flags_mark_alteration(p, "o"@);
    parser::law_nine_flags_mark_alteration(p, "u"@);
    parser::law_nine_flags_mark_alteration(p, "v"@);
}

/// A dump is excluded for nothing but what the preferences exclude: one that carries
/// no flag of alteration where these are excluded, is no bad dump where those are,
/// and no prerelease where those are, can be chosen.
pub proof fn law_unmarked_dumps_are_eligible(prefs: PreferencesView, p: ParsedView)
    requires
        prefs.exclude_modified ==> forall|f: Seq<char>| #[trigger]
            p.flags.contains(f) ==> f == "a"@ || f == "b"@ || f == "p"@,
        prefs.exclude_bad_dumps ==> !p.bad_dump,
        prefs.exclude_prereleases ==> !p.is_prerelease,
    ensures
        !excluded(prefs, p),
{
    parser::law_nine_flags_mark_alteration(p, "cr"@);
    if prefs.exclude_modified && parser::altered(p) {
        let g = choose|g: Seq<char>| #[trigger]
            p.flags.contains(g) && (g == "cr"@ || g == "t"@ || g == "h"@ || g == "f"@ || g == "m"@
                || g == "tr"@ || g == "o"@ || g == "u"@ || g == "v"@);
        assert(g == "a"@ || g == "b"@ || g == "p"@);
        reveal_strlit("a");
        reveal_strlit("b");
        reveal_strlit("p");
        reveal_strlit("cr");
        reveal_strlit("t");
        reveal_strlit("h");
        reveal_strlit("f");
        reveal_strlit("m");
        reveal_strlit("tr");
        reveal_strlit("o");
        reveal_strlit("u");
        reveal_strlit("v");
        assert("a"@[0] == 'a' && "b"@[0] == 'b' && "p"@[0] == 'p');
        assert("a"@.len() == 1 && "b"@.len() == 1 && "p"@.len() == 1);
        assert("cr"@.len() == 2 && "tr"@.len() == 2);
        assert("t"@[0] == 't' && "h"@[0] == 'h' && "f"@[0] == 'f' && "m"@[0] == 'm');
        assert("o"@[0] == 'o' && "u"@[0] == 'u' && "v"@[0] == 'v');
        assert(false);
    }
}

proof fn lemma_region_place_is(priority: Seq<Seq<char>>, region: Seq<char>)
    ensures
        0 <= region_place(priority, region) <= priority.len(),
        region_place(priority, region) < priority.len() ==> text::same_ignoring_case(
            priority[region_place(priority, region)],
            region,
        ),
        forall|n: int|
            0 <= n < region_place(priority, region) ==> !text::same_ignoring_case(
                #[trigger] priority[n],
                region,
            ),
    decreases priority.len(),
{
    if priority.len() > 0 && !text::same_ignoring_case(priority[0], region) {
        let rest = priority.drop_first();
        lemma_region_place_is(rest, region);
        assert forall|n: int| 0 <= n < region_place(priority, region) implies
            !text::same_ignoring_case(#[trigger] priority[n], region) by {
            if n > 0 {
                assert(rest[n - 1] == priority[n]);
            }
        }
    }
}

proof fn lemma_best_place_is(priority: Seq<Seq<char>>, regions: Seq<Seq<char>>)
    ensures
        0 <= best_place(priority, regions) <= priority.len(),
        forall|i: int|
            0 <= i < regions.len() ==> best_place(priority, regions) <= region_place(
                priority,
                #[trigger] regions[i],
            ),
        best_place(priority, regions) < priority.len() ==> exists|i: int|
            0 <= i < regions.len() && best_place(priority, regions) == region_place(
                priority,
                #[trigger] regions[i],
            ),
    decreases regions.len(),
{
    if regions.len() > 0 {
        let rest = regions.drop_last();
        lemma_best_place_is(priority, rest);
        lemma_region_place_is(priority, regions.last());
        assert forall|i: int| 0 <= i < regions.len() implies best_place(priority, regions)
            <= region_place(priority, #[trigger] regions[i]) by {
            if i < rest.len() {
                assert(rest[i] == regions[i]);
            }
        }
        if best_place(priority, regions) < priority.len() {
            if region_place(priority, regions.last()) < best_place(priority, rest) {
                assert(regions[regions.len() - 1] == regions.last());
            } else {
                let i = choose|i: int|
                    0 <= i < rest.len() && best_place(priority, rest) == region_place(
                        priority,
                        #[trigger] rest[i],
                    );
                assert(regions[i] == rest[i]);
            }
        }
    }
}

/// Of two dumps the verified one is preferred, where that is asked for, whatever
/// their regions. Between dumps that this does not tell apart, the one with a region
/// in the priority list is preferred to one whose regions all come later in it or not
/// at all. Between dumps of the same regions, the base version is preferred to a
/// revision, and nothing else counts.
pub proof fn law_preference_goes_by_verification_region_revision(
    prefs: PreferencesView,
    a: ParsedView,
    b: ParsedView,
    n: int,
    i: int,
)
    ensures
        prefs.prefer_verified && a.verified && !b.verified ==> better(prefs, a, b) && !better(
            prefs,
            b,
            a,
        ),
        (!prefs.prefer_verified || a.verified == b.verified) && 0 <= n < prefs.region_priority.len()
            && 0 <= i < a.regions.len() && text::same_ignoring_case(
            prefs.region_priority[n],
            a.regions[i],
        ) && (forall|m: int, j: int|
            0 <= m <= n && 0 <= j < b.regions.len() ==> !text::same_ignoring_case(
                #[trigger] prefs.region_priority[m],
                #[trigger] b.regions[j],
            )) ==> better(prefs, a, b) && !better(prefs, b, a),
        (!prefs.prefer_verified || a.verified == b.verified) && a.regions == b.regions ==> (better(
            prefs,
            a,
            b,
        ) <==> a.revision is None && b.revision is Some),
{
    let priority = prefs.region_priority;
    lemma_best_place_is(priority, a.regions);
    lemma_best_place_is(priority, b.regions);
    if 0 <= n < priority.len() && 0 <= i < a.regions.len() && text::same_ignoring_case(
        priority[n],
        a.regions[i],
    ) && (forall|m: int, j: int|
        0 <= m <= n && 0 <= j < b.regions.len() ==> !text::same_ignoring_case(
            #[trigger] priority[m],
            #[trigger] b.regions[j],
        )) {
        lemma_region_place_is(priority, a.regions[i]);
        assert(region_place(priority, a.regions[i]) <= n);
        assert(best_place(priority, a.regions) <= n);
        if best_place(priority, b.regions) <= n {
            let j = choose|j: int|
                0 <= j < b.regions.len() && best_place(priority, b.regions) == region_place(
                    priority,
                    #[trigger] b.regions[j],
                );
            lemma_region_place_is(priority, b.regions[j]);
            let m = region_place(priority, b.regions[j]);
            assert(!text::same_ignoring_case(priority[m], b.regions[j]));
        }
    }
}

/// Where parents are preferred and one can be chosen, the first such parent is
/// chosen. Else no candidate that can be chosen is preferred to the one that is, and
/// of equals the first is chosen.
pub proof fn law_parents_come_first(
    c: Seq<CandidateView>,
    prefs: PreferencesView,
    i: int,
    j: int,
)
    requires
        chosen(c, prefs, i),
        0 <= j < c.len(),
        !excluded(prefs, c[j].parsed),
    ensures
        prefs.prefer_parent && c[j].is_parent ==> c[i].is_parent && i <= j,
        !prefs.prefer_parent || (forall|k: int|
            0 <= k < c.len() ==> !(#[trigger] c[k]).is_parent) ==> !better(
            prefs,
            c[j].parsed,
            c[i].parsed,
        ) && (j < i ==> better(prefs, c[i].parsed, c[j].parsed)),
{
    assert(eligible(c, prefs, j));
    if c[j].is_parent {
        assert(eligible_parent(c, prefs, j));
    }
    if parent_decides(c, prefs) {
        assert(eligible_parent(c, prefs, i));
        assert(c[i].is_parent);
    }
}

spec fn best_so_far(c: Seq<CandidateView>, prefs: PreferencesView, n: int, b: int) -> bool {
    &&& 0 <= b < n
    &&& eligible(c, prefs, b)
    &&& forall|j: int|
        0 <= j < n && #[trigger] eligible(c, prefs, j) ==> !better(prefs, c[j].parsed, c[b].parsed)
    &&& forall|j: int|
        0 <= j < b && #[trigger] eligible(c, prefs, j) ==> better(prefs, c[b].parsed, c[j].parsed)
}

proof fn lemma_best_exists(c: Seq<CandidateView>, prefs: PreferencesView, n: int)
    requires
        0 <= n <= c.len(),
    ensures
        (exists|b: int| #[trigger] best_so_far(c, prefs, n, b)) || forall|j: int|
            0 <= j < n ==> !#[trigger] eligible(c, prefs, j),
    decreases n,
{
    if n > 0 {
        let k = n - 1;
        lemma_best_exists(c, prefs, k);
        if eligible(c, prefs, k) {
            if exists|b: int| #[trigger] best_so_far(c, prefs, k, b) {
                let b = choose|b: int| #[trigger] best_so_far(c, prefs, k, b);
                if better(prefs, c[k].parsed, c[b].parsed) {
                    assert forall|j: int| 0 <= j < k && #[trigger] eligible(
                        c,
                        prefs,
                        j,
                    ) implies better(prefs, c[k].parsed, c[j].parsed) by {
                        assert(!better(prefs, c[j].parsed, c[b].parsed));
                    }
                    assert(best_so_far(c, prefs, n, k));
                } else {
                    assert(best_so_far(c, prefs, n, b));
                }
            } else {
                assert(best_so_far(c, prefs, n, k));
            }
        } else if exists|b: int| #[trigger] best_so_far(c, prefs, k, b) {
            let b = choose|b: int| #[trigger] best_so_far(c, prefs, k, b);
            assert(best_so_far(c, prefs, n, b));
        }
    }
}

proof fn lemma_first_parent(c: Seq<CandidateView>, prefs: PreferencesView, i: int)
    requires
        eligible_parent(c, prefs, i),
    ensures
        exists|k: int| #[trigger]
            eligible_parent(c, prefs, k) && forall|j: int|
                0 <= j < k ==> !#[trigger] eligible_parent(c, prefs, j),
    decreases i,
{
    if exists|j: int| 0 <= j < i && #[trigger] eligible_parent(c, prefs, j) {
        let j = choose|j: int| 0 <= j < i && #[trigger] eligible_parent(c, prefs, j);
        lemma_first_parent(c, prefs, j);
    }
}

/// One candidate is chosen wherever there is one that is not excluded.
pub proof fn law_some_candidate_is_chosen(c: Seq<CandidateView>, prefs: PreferencesView, j: int)
    requires
        0 <= j < c.len(),
        !excluded(prefs, c[j].parsed),
    ensures
        exists|i: int| #[trigger] chosen(c, prefs, i),
{
    assert(eligible(c, prefs, j));
    if parent_decides(c, prefs) {
        let i = choose|i: int| #[trigger] eligible_parent(c, prefs, i);
        lemma_first_parent(c, prefs, i);
        let k = choose|k: int| #[trigger]
            eligible_parent(c, prefs, k) && forall|j: int|
                0 <= j < k ==> !#[trigger] eligible_parent(c, prefs, j);
        assert(chosen(c, prefs, k));
    } else {
        lemma_best_exists(c, prefs, c.len() as int);
        let b = choose|b: int| #[trigger] best_so_far(c, prefs, c.len() as int, b);
        assert(chosen(c, prefs, b));
    }
}

/// Every region of the default order is a region that names are searched for, and
/// stands there once.
pub proof fn law_default_regions_are_recognised(i: int, j: int)
    requires
        0 <= i < default_regions().len(),
        0 <= j < default_regions().len(),
    ensures
        parser::region_named(text::lower_seq(default_regions()[i])) == Some(default_regions()[i]),
        i != j ==> default_regions()[i] != default_regions()[j],
        default_regions()[0] == "World"@,
{
    reveal_strlit("World");
    reveal_strlit("USA");
    reveal_strlit("Europe");
    reveal_strlit("Japan");
    reveal_strlit("Australia");
    reveal_strlit("Canada");
    reveal_strlit("UK");
    reveal_strlit("France");
    reveal_strlit("Germany");
    reveal_strlit("Spain");
    reveal_strlit("Italy");
    reveal_strlit("Netherlands");
    reveal_strlit("Sweden");
    reveal_strlit("Brazil");
    reveal_strlit("Korea");
    reveal_strlit("China");
    reveal_strlit("Taiwan");
    reveal_strlit("Hong Kong");
    reveal_strlit("Russia");
    reveal_strlit("Asia");
    reveal_strlit("Scandinavia");
    reveal_strlit("world");
    reveal_strlit("usa");
    reveal_strlit("europe");
    reveal_strlit("japan");
    reveal_strlit("australia");
    reveal_strlit("brazil");
    reveal_strlit("canada");
    reveal_strlit("china");
    reveal_strlit("france");
    reveal_strlit("germany");
    reveal_strlit("hong kong");
    reveal_strlit("italy");
    reveal_strlit("korea");
    reveal_strlit("netherlands");
    reveal_strlit("russia");
    reveal_strlit("spain");
    reveal_strlit("sweden");
    reveal_strlit("taiwan");
    reveal_strlit("uk");
    reveal_strlit("asia");
    reveal_strlit("scandinavia");
    assert("world"@.len() == 5);
    assert("usa"@.len() == 3);
    assert("europe"@.len() == 6);
    assert("japan"@.len() == 5);
    assert("australia"@.len() == 9);
    assert("brazil"@.len() == 6);
    assert("canada"@.len() == 6);
    assert("china"@.len() == 5);
    assert("france"@.len() == 6);
    assert("germany"@.len() == 7);
    assert("hong kong"@.len() == 9);
    assert("italy"@.len() == 5);
    assert("korea"@.len() == 5);
    assert("netherlands"@.len() == 11);
    assert("russia"@.len() == 6);
    assert("spain"@.len() == 5);
    assert("sweden"@.len() == 6);
    assert("taiwan"@.len() == 6);
    assert("uk"@.len() == 2);
    assert("asia"@.len() == 4);
    assert("scandinavia"@.len() == 11);
    assert("World"@.len() == 5);
    assert("USA"@.len() == 3);
    assert("Europe"@.len() == 6);
    assert("Japan"@.len() == 5);
    assert("Australia"@.len() == 9);
    assert("Canada"@.len() == 6);
    assert("UK"@.len() == 2);
    assert("France"@.len() == 6);
    assert("Germany"@.len() == 7);
    assert("Spain"@.len() == 5);
    assert("Italy"@.len() == 5);
    assert("Netherlands"@.len() == 11);
    assert("Sweden"@.len() == 6);
    assert("Brazil"@.len() == 6);
    assert("Korea"@.len() == 5);
    assert("China"@.len() == 5);
    assert("Taiwan"@.len() == 6);
    assert("Hong Kong"@.len() == 9);
    assert("Russia"@.len() == 6);
    assert("Asia"@.len() == 4);
    assert("Scandinavia"@.len() == 11);
    let l = text::lower_seq(default_regions()[i]);
    if i == 0 {
        assert(l =~= "world"@);
        assert(l[0] != "japan"@[0]);
        assert(l[0] != "china"@[0]);
        assert(l[0] != "italy"@[0]);
        assert(l[0] != "korea"@[0]);
        assert(l[0] != "spain"@[0]);
    }
    if i == 1 {
        assert(l =~= "usa"@);
    }
    if i == 2 {
        assert(l =~= "europe"@);
        assert(l[0] != "brazil"@[0]);
        assert(l[0] != "canada"@[0]);
        assert(l[0] != "france"@[0]);
        assert(l[0] != "russia"@[0]);
        assert(l[0] != "sweden"@[0]);
        assert(l[0] != "taiwan"@[0]);
    }
    if i == 3 {
        assert(l =~= "japan"@);
        assert(l[0] != "world"@[0]);
        assert(l[0] != "china"@[0]);
        assert(l[0] != "italy"@[0]);
        assert(l[0] != "korea"@[0]);
        assert(l[0] != "spain"@[0]);
    }
    if i == 4 {
        assert(l =~= "australia"@);
        assert(l[0] != "hong kong"@[0]);
    }
    if i == 5 {
        assert(l =~= "canada"@);
        assert(l[0] != "europe"@[0]);
        assert(l[0] != "brazil"@[0]);
        assert(l[0] != "france"@[0]);
        assert(l[0] != "russia"@[0]);
        assert(l[0] != "sweden"@[0]);
        assert(l[0] != "taiwan"@[0]);
    }
    if i == 6 {
        assert(l =~= "uk"@);
    }
    if i == 7 {
        assert(l =~= "france"@);
        assert(l[0] != "europe"@[0]);
        assert(l[0] != "brazil"@[0]);
        assert(l[0] != "canada"@[0]);
        assert(l[0] != "russia"@[0]);
        assert(l[0] != "sweden"@[0]);
        assert(l[0] != "taiwan"@[0]);
    }
    if i == 8 {
        assert(l =~= "germany"@);
    }
    if i == 9 {
        assert(l =~= "spain"@);
        assert(l[0] != "world"@[0]);
        assert(l[0] != "japan"@[0]);
        assert(l[0] != "china"@[0]);
        assert(l[0] != "italy"@[0]);
        assert(l[0] != "korea"@[0]);
    }
    if i == 10 {
        assert(l =~= "italy"@);
        assert(l[0] != "world"@[0]);
        assert(l[0] != "japan"@[0]);
        assert(l[0] != "china"@[0]);
        assert(l[0] != "korea"@[0]);
        assert(l[0] != "spain"@[0]);
    }
    if i == 11 {
        assert(l =~= "netherlands"@);
        assert(l[0] != "scandinavia"@[0]);
    }
    if i == 12 {
        assert(l =~= "sweden"@);
        assert(l[0] != "europe"@[0]);
        assert(l[0] != "brazil"@[0]);
        assert(l[0] != "canada"@[0]);
        assert(l[0] != "france"@[0]);
        assert(l[0] != "russia"@[0]);
        assert(l[0] != "taiwan"@[0]);
    }
    if i == 13 {
        assert(l =~= "brazil"@);
        assert(l[0] != "europe"@[0]);
        assert(l[0] != "canada"@[0]);
        assert(l[0] != "france"@[0]);
        assert(l[0] != "russia"@[0]);
        assert(l[0] != "sweden"@[0]);
        assert(l[0] != "taiwan"@[0]);
    }
    if i == 14 {
        assert(l =~= "korea"@);
        assert(l[0] != "world"@[0]);
        assert(l[0] != "japan"@[0]);
        assert(l[0] != "china"@[0]);
        assert(l[0] != "italy"@[0]);
        assert(l[0] != "spain"@[0]);
    }
    if i == 15 {
        assert(l =~= "china"@);
        assert(l[0] != "world"@[0]);
        assert(l[0] != "japan"@[0]);
        assert(l[0] != "italy"@[0]);
        assert(l[0] != "korea"@[0]);
        assert(l[0] != "spain"@[0]);
    }
    if i == 16 {
        assert(l =~= "taiwan"@);
        assert(l[0] != "europe"@[0]);
        assert(l[0] != "brazil"@[0]);
        assert(l[0] != "canada"@[0]);
        assert(l[0] != "france"@[0]);
        assert(l[0] != "russia"@[0]);
        assert(l[0] != "sweden"@[0]);
    }
    if i == 17 {
        assert(l =~= "hong kong"@);
        assert(l[0] != "australia"@[0]);
    }
    if i == 18 {
        assert(l =~= "russia"@);
        assert(l[0] != "europe"@[0]);
        assert(l[0] != "brazil"@[0]);
        assert(l[0] != "canada"@[0]);
        assert(l[0] != "france"@[0]);
        assert(l[0] != "sweden"@[0]);
        assert(l[0] != "taiwan"@[0]);
    }
    if i == 19 {
        assert(l =~= "asia"@);
    }
    if i == 20 {
        assert(l =~= "scandinavia"@);
        assert(l[0] != "netherlands"@[0]);
    }
    if default_regions()[i] == default_regions()[j] {
        assert(l == text::lower_seq(default_regions()[j]));
    }
}

fn text_list(s: &str, rest: Vec<String>) -> (r: Vec<String>)
    ensures
        r.deep_view() == rest.deep_view().push(s@),
{
    let mut r = rest;
    r.push(s.to_owned());
    proof {
        assert(r.deep_view() =~= rest.deep_view().push(s@));
    }
    r
}

/// The default region priority order.
pub fn default_region_priority() -> (r: Vec<String>)
    ensures
        r.deep_view() == default_regions(),
{
    let r: Vec<String> = Vec::new();
    let r = text_list("World", r);
    let r = text_list("USA", r);
    let r = text_list("Europe", r);
    let r = text_list("Japan", r);
    let r = text_list("Australia", r);
    let r = text_list("Canada", r);
    let r = text_list("UK", r);
    let r = text_list("France", r);
    let r = text_list("Germany", r);
    let r = text_list("Spain", r);
    let r = text_list("Italy", r);
    let r = text_list("Netherlands", r);
    let r = text_list("Sweden", r);
    let r = text_list("Brazil", r);
    let r = text_list("Korea", r);
    let r = text_list("China", r);
    let r = text_list("Taiwan", r);
    let r = text_list("Hong Kong", r);
    let r = text_list("Russia", r);
    let r = text_list("Asia", r);
    let r = text_list("Scandinavia", r);
    proof {
        assert(r.deep_view() =~= default_regions());
    }
    r
}

impl Default for FilterPreferences {
    fn default() -> (r: Self)
        ensures
            r.deep_view() == preferring(default_regions()),
    {
        FilterPreferences::with_regions(default_region_priority())
    }
}

impl FilterPreferences {
    /// Preferences with a custom region priority.
    pub fn with_regions(regions: Vec<String>) -> (r: Self)
        ensures
            r.deep_view() == preferring(regions.deep_view()),
    {
        FilterPreferences {
            region_priority: regions,
            exclude_modified: true,
            exclude_bad_dumps: true,
            exclude_prereleases: false,
            prefer_verified: true,
            prefer_parent: true,
        }
    }

    /// Whether a parsed ROM is excluded by these preferences.
    pub fn should_exclude(&self, parsed: &ParsedGameName) -> (r: bool)
        ensures
            r == excluded(self.deep_view(), parsed.deep_view()),
    {
        (self.exclude_modified && parsed.is_altered()) || (self.exclude_bad_dumps
            && parsed.bad_dump) || (self.exclude_prereleases && parsed.is_prerelease)
    }

    /// The place of a region in the priority list, or the list's length.
    fn place(&self, region: &str) -> (n: usize)
        ensures
            n == region_place(self.region_priority.deep_view(), region@),
            n <= self.region_priority@.len(),
    {
        let ghost all = self.region_priority.deep_view();
        let mut i: usize = 0;
        proof {
            assert(all.skip(0) =~= all);
        }
        while i < self.region_priority.len()
            invariant
                i <= self.region_priority@.len(),
                all == self.region_priority.deep_view(),
                region_place(all, region@) == i + region_place(all.skip(i as int), region@),
            decreases self.region_priority@.len() - i,
        {
            if text::eq_ignore_case(self.region_priority[i].as_str(), region) {
                return i;
            }
            proof {
                assert(all.skip(i as int).drop_first() =~= all.skip(i + 1));
            }
            i = i + 1;
        }
        i
    }

    /// The region priority score of a parsed ROM (lower = better), or `None`
    /// where no region of it is in the list.
    pub fn region_score(&self, parsed: &ParsedGameName) -> (r: Option<usize>)
        ensures
            match r {
                Some(n) => n == best_place(
                    self.region_priority.deep_view(),
                    parsed.regions.deep_view(),
                ) && n < self.region_priority@.len(),
                None => best_place(self.region_priority.deep_view(), parsed.regions.deep_view())
                    == self.region_priority@.len(),
            },
    {
        let ghost prio = self.region_priority.deep_view();
        let ghost all = parsed.regions.deep_view();
        let mut best: usize = self.region_priority.len();
        let mut i: usize = 0;
        while i < parsed.regions.len()
            invariant
                i <= parsed.regions@.len(),
                all == parsed.regions.deep_view(),
                prio == self.region_priority.deep_view(),
                best == best_place(prio, all.take(i as int)),
                best <= self.region_priority@.len(),
            decreases parsed.regions@.len() - i,
        {
            let n = self.place(parsed.regions[i].as_str());
            proof {
                assert(all.take(i + 1).drop_last() =~= all.take(i as int));
            }
            if n < best {
                best = n;
            }
            i = i + 1;
        }
        proof {
            assert(all.take(i as int) =~= all);
        }
        if best < self.region_priority.len() {
            Some(best)
        } else {
            None
        }
    }

    /// Compares two dumps: less where `a` is preferred, greater where `b` is.
    pub fn compare(&self, a: &ParsedGameName, b: &ParsedGameName) -> (r: Ordering)
        ensures
            r == key_order(
                preference_key(self.deep_view(), a.deep_view()),
                preference_key(self.deep_view(), b.deep_view()),
            ),
    {
        assert(self.region_priority.len() == self.deep_view().region_priority.len());
        if self.prefer_verified && a.verified != b.verified {
            return if a.verified {
                Ordering::Less
            } else {
                Ordering::Greater
            };
        }
        match (self.region_score(a), self.region_score(b)) {
            (Some(x), Some(y)) => {
                if x < y {
                    return Ordering::Less;
                }
                if y < x {
                    return Ordering::Greater;
                }
            },
            (Some(_), None) => {
                return Ordering::Less;
            },
            (None, Some(_)) => {
                return Ordering::Greater;
            },
            (None, None) => {},
        }
        match (&a.revision, &b.revision) {
            (None, Some(_)) => Ordering::Less,
            (Some(_), None) => Ordering::Greater,
            _ => Ordering::Equal,
        }
    }

    /// Whether `a` is strictly preferred to `b`.
    fn prefers(&self, a: &ParsedGameName, b: &ParsedGameName) -> (r: bool)
        ensures
            r == better(self.deep_view(), a.deep_view(), b.deep_view()),
    {
        proof {
            assert(self.region_priority.len() == self.deep_view().region_priority.len());
            law_comparison_is_by_key(
                self.deep_view(),
                a.deep_view(),
                b.deep_view(),
                b.deep_view(),
            );
        }
        match self.compare(a, b) {
            Ordering::Less => true,
            _ => false,
        }
    }
}

impl<'a> RomCandidate<'a> {
    /// A candidate from a ROM name.
    pub fn new(name: &'a str) -> (r: Self)
        ensures
            r.deep_view() == (CandidateView {
                name: name@,
                parsed: parser::parsed(name@),
                is_parent: false,
            }),
    {
        RomCandidate { name, parsed: parse_game_name(name), is_parent: false }
    }

    /// A candidate with parent status.
    pub fn with_parent_status(name: &'a str, is_parent: bool) -> (r: Self)
        ensures
            r.deep_view() == (CandidateView {
                name: name@,
                parsed: parser::parsed(name@),
                is_parent,
            }),
    {
        RomCandidate { name, parsed: parse_game_name(name), is_parent }
    }
}

/// Selects the preferred ROM from a group of candidates: its name, or `None`
/// if all candidates are excluded by the preferences.
pub fn select_preferred<'a>(candidates: &[RomCandidate<'a>], prefs: &FilterPreferences) -> (r:
    Option<&'a str>)
    ensures
        match r {
            Some(name) => exists|i: int|
                #[trigger] chosen(candidate_views(candidates@), prefs.deep_view(), i)
                    && candidates@[i].name@ == name@,
            None => forall|i: int|
                0 <= i < candidates@.len() ==> excluded(
                    prefs.deep_view(),
                    #[trigger] candidate_views(candidates@)[i].parsed,
                ),
        },
{
    match preferred_index(candidates, prefs) {
        Some(i) => Some(candidates[i].name),
        None => None,
    }
}

/// The position of the preferred candidate.
pub fn preferred_index(candidates: &[RomCandidate], prefs: &FilterPreferences) -> (r: Option<usize>)
    ensures
        match r {
            Some(i) => i < candidates@.len() && chosen(
                candidate_views(candidates@),
                prefs.deep_view(),
                i as int,
            ),
            None => forall|i: int|
                0 <= i < candidates@.len() ==> excluded(
                    prefs.deep_view(),
                    #[trigger] candidate_views(candidates@)[i].parsed,
                ),
        },
{
    let ghost c = candidate_views(candidates@);
    let ghost p = prefs.deep_view();
    if prefs.prefer_parent {
        let mut i: usize = 0;
        while i < candidates.len()
            invariant
                i <= candidates@.len(),
                c == candidate_views(candidates@),
                p == prefs.deep_view(),
                prefs.prefer_parent,
                forall|j: int| 0 <= j < i ==> !#[trigger] eligible_parent(c, p, j),
            decreases candidates@.len() - i,
        {
            if candidates[i].is_parent && !prefs.should_exclude(&candidates[i].parsed) {
                proof {
                    assert(eligible_parent(c, p, i as int));
                }
                return Some(i);
            }
            i = i + 1;
        }
    }
    proof {
        assert(!parent_decides(c, p));
    }
    let mut best: Option<usize> = None;
    let mut i: usize = 0;
    while i < candidates.len()
        invariant
            i <= candidates@.len(),
            c == candidate_views(candidates@),
            p == prefs.deep_view(),
            match best {
                None => forall|j: int| 0 <= j < i ==> !#[trigger] eligible(c, p, j),
                Some(b) => b < i && eligible(c, p, b as int) && (forall|j: int|
                    0 <= j < i && #[trigger] eligible(c, p, j) ==> !better(
                        p,
                        c[j].parsed,
                        c[b as int].parsed,
                    )) && (forall|j: int|
                    0 <= j < b && #[trigger] eligible(c, p, j) ==> better(
                        p,
                        c[b as int].parsed,
                        c[j].parsed,
                    )),
            },
        decreases candidates@.len() - i,
    {
        if !prefs.should_exclude(&candidates[i].parsed) {
            proof {
                assert(eligible(c, p, i as int));
            }
            match best {
                None => {
                    best = Some(i);
                },
                Some(b) => {
                    if prefs.prefers(&candidates[i].parsed, &candidates[b].parsed) {
                        proof {
                            assert forall|j: int|
                                0 <= j < i && #[trigger] eligible(c, p, j) implies better(
                                p,
                                c[i as int].parsed,
                                c[j].parsed,
                            ) by {
                                assert(!better(p, c[j].parsed, c[b as int].parsed));
                            }
                        }
                        best = Some(i);
                    }
                },
            }
        }
        i = i + 1;
    }
    proof {
        if best is None {
            assert forall|j: int| 0 <= j < candidates@.len() implies excluded(
                p,
                #[trigger] c[j].parsed,
            ) by {
                assert(!eligible(c, p, j));
            }
        }
    }
    best
}

/// The contents of a list of texts.
pub open spec fn name_views(names: Seq<&str>) -> Seq<Seq<char>> {
    names.map_values(|n: &str| n@)
}

/// The names with a given title, in order.
pub open spec fn with_title(names: Seq<Seq<char>>, title: Seq<char>) -> Seq<Seq<char>> {
    names.filter(|n: Seq<char>| parser::title_of(n) == title)
}

/// A group holds the names with its title, spelt alike, and all of them.
pub proof fn law_groups_share_a_title(names: Seq<Seq<char>>, title: Seq<char>, name: Seq<char>)
    ensures
        with_title(names, title).contains(name) <==> names.contains(name) && parser::title_of(name)
            == title,
        with_title(names, title).len() <= names.len(),
{
    seqs::lemma_filter_members(names, |n: Seq<char>| parser::title_of(n) == title);
}

/// Groups ROMs by their base title: under each title the names that have it,
/// in their order, and no title without a name.
pub fn group_by_title<'a>(names: &[&'a str]) -> (groups: SortedMap<String, Vec<&'a str>>)
    ensures
        forall|t: Seq<char>|
            #[trigger] groups@.contains_key(t) <==> with_title(name_views(names@), t).len() > 0,
        forall|t: Seq<char>| #[trigger]
            groups@.contains_key(t) ==> groups@[t].deep_view() == with_title(
                name_views(names@),
                t,
            ),
{
    let ghost all = name_views(names@);
    let mut groups: SortedMap<String, Vec<&'a str>> = SortedMap::new();
    let mut i: usize = 0;
    while i < names.len()
        invariant
            i <= names@.len(),
            all == name_views(names@),
            forall|t: Seq<char>|
                #[trigger] groups@.contains_key(t) <==> with_title(all.take(i as int), t).len()
                    > 0,
            forall|t: Seq<char>| #[trigger]
                groups@.contains_key(t) ==> groups@[t].deep_view() == with_title(
                    all.take(i as int),
                    t,
                ),
        decreases names@.len() - i,
    {
        let name: &'a str = names[i];
        let parsed = parse_game_name(name);
        let title = parsed.title;
        let ghost t0 = title@;
        let ghost before = groups@;
        proof {
            parser::law_marks_do_not_change_title(name@);
            assert(t0 == parser::title_of(name@));
        }
        let mut list: Vec<&'a str> = match groups.remove(&title) {
            Some(list) => list,
            None => Vec::new(),
        };
        let ghost had = list.deep_view();
        list.push(name);
        proof {
            assert(list.deep_view() =~= had.push(name@));
            assert(all.take(i + 1).drop_last() =~= all.take(i as int));
            assert(all.take(i + 1).last() == name@);
            reveal_with_fuel(Seq::filter, 2);
            if !before.contains_key(t0) {
                assert(with_title(all.take(i as int), t0).len() == 0);
                assert(had =~= with_title(all.take(i as int), t0));
            }
            assert(had == with_title(all.take(i as int), t0));
            assert forall|t: Seq<char>| true implies with_title(all.take(i + 1), t) == (if t == t0 {
                with_title(all.take(i as int), t).push(name@)
            } else {
                with_title(all.take(i as int), t)
            }) by {}
        }
        groups.insert(title, list);
        i = i + 1;
        proof {
            assert forall|t: Seq<char>| #[trigger]
                groups@.contains_key(t) <==> with_title(all.take(i as int), t).len() > 0 by {
                assert(before.contains_key(t) <==> with_title(all.take(i - 1), t).len() > 0);
            }
            assert forall|t: Seq<char>| #[trigger] groups@.contains_key(t) implies groups@[t].deep_view()
                == with_title(all.take(i as int), t) by {
                if t != t0 {
                    assert(before.contains_key(t));
                }
            }
        }
    }
    proof {
        assert(all.take(i as int) =~= all);
    }
    groups
}

} // verus!
