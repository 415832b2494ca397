//! Planning rules: name globs, output formats, merge modes and 1G1R filtering.

use super::types;
use super::types::{MatchView, MatchedRom};
use crate::db::config::{CollectionConfig, ConfigView};
use crate::db::dats::MergeMode;
use crate::filter::parser;
use crate::filter::preferences;
use crate::filter::preferences::{CandidateView, PreferencesView};
use crate::filter::{group_by_title, select_preferred, FilterPreferences, RomCandidate};
use crate::seqs;
use crate::sorted_map::SortedSet;
use crate::text;
use vstd::prelude::*;

verus! {

/// Collections that match more rows than this are skipped and reported.
pub const MAX_MATCH_ROWS: usize = 5000000;

/// How a collection is stored.
#[derive(Clone, Copy, Debug, PartialEq, Eq, Structural)]
pub enum OutputFormat {
    /// Each ROM as a file of its own
    Loose,
    Zip,
    TorrentZip,
    SevenZip,
}

// ---------------------------------------------------------------------------
// Globs
// ---------------------------------------------------------------------------

/// Whether a glob matches a text, ASCII case aside: `*` stands for any
/// characters, `?` for exactly one.
pub open spec fn matches(p: Seq<char>, t: Seq<char>) -> bool
    decreases p.len(), t.len(),
{
    if p.len() == 0 {
        t.len() == 0
    } else if p[0] == '*' {
        matches(p.drop_first(), t) || (t.len() > 0 && matches(p, t.drop_first()))
    } else {
        t.len() > 0 && (p[0] == '?' || text::lower(p[0]) == text::lower(t[0])) && matches(
            p.drop_first(),
            t.drop_first(),
        )
    }
}

/// Whether a glob matches a text (`*`, `?`, case-insensitive).
pub fn glob_match(pattern: &str, name: &str) -> (r: bool)
    ensures
        r == matches(pattern@, name@),
{
    let p = text::chars_of(pattern);
    let t = text::chars_of(name);
    let n: usize = t.len();
    // row[j] tells whether what is left of the pattern matches the text from j on.
    let mut row: Vec<bool> = Vec::new();
    let mut j: usize = 0;
    while j < n
        invariant
            j <= n,
            row@.len() == j,
            forall|k: int| 0 <= k < j ==> #[trigger] row@[k] == false,
        decreases n - j,
    {
        row.push(false);
        j = j + 1;
    }
    row.push(true);
    let mut i: usize = p.len();
    proof {
        assert forall|k: int| 0 <= k <= n implies #[trigger] row@[k] == matches(
            p@.skip(i as int),
            t@.skip(k),
        ) by {}
    }
    while i > 0
        invariant
            i <= p@.len(),
            n == t@.len(),
            row@.len() == n + 1,
            forall|k: int|
                0 <= k <= n ==> #[trigger] row@[k] == matches(p@.skip(i as int), t@.skip(k)),
        decreases i,
    {
        i = i - 1;
        let c: char = p[i];
        let ghost below = row@;
        let mut next: Vec<bool> = row.clone();
        proof {
            assert(next@ =~= row@);
            assert(p@.skip(i as int).drop_first() =~= p@.skip(i + 1));
        }
        let mut k: usize = n;
        if c != '*' {
            next.set(n, false);
        }
        proof {
            assert(t@.skip(n as int).len() == 0);
            assert(next@[n as int] == matches(p@.skip(i as int), t@.skip(n as int)));
        }
        while k > 0
            invariant
                k <= n,
                i < p@.len(),
                c == p@[i as int],
                n == t@.len(),
                row@ == below,
                next@.len() == n + 1,
                below.len() == n + 1,
                p@.skip(i as int).drop_first() == p@.skip(i + 1),
                forall|q: int|
                    0 <= q <= n ==> #[trigger] below[q] == matches(p@.skip(i + 1), t@.skip(q)),
                forall|q: int|
                    k <= q <= n ==> #[trigger] next@[q] == matches(p@.skip(i as int), t@.skip(q)),
            decreases k,
        {
            k = k - 1;
            proof {
                assert(t@.skip(k as int).drop_first() =~= t@.skip(k + 1));
                assert(below[k as int] == matches(p@.skip(i + 1), t@.skip(k as int)));
                assert(below[k + 1] == matches(p@.skip(i + 1), t@.skip(k + 1)));
                assert(next@[k + 1] == matches(p@.skip(i as int), t@.skip(k + 1)));
            }
            let hit: bool = if c == '*' {
                row[k] || next[k + 1]
            } else {
                (c == '?' || text::lower_char(c) == text::lower_char(t[k])) && row[k + 1]
            };
            next.set(k, hit);
        }
        row = next;
    }
    proof {
        assert(p@.skip(0) =~= pattern@);
        assert(t@.skip(0) =~= name@);
        assert(row@[0] == matches(p@.skip(0), t@.skip(0)));
    }
    row[0]
}

// ---------------------------------------------------------------------------
// Settings
// ---------------------------------------------------------------------------

/// The format that a setting names, in any ASCII case; the default where it
/// names none.
pub open spec fn format_of(explicit: Option<Seq<char>>, default: OutputFormat) -> OutputFormat {
    match explicit {
        None => default,
        Some(s) => {
            let l = text::lower_seq(s);
            if l == "loose"@ {
                OutputFormat::Loose
            } else if l == "zip"@ {
                OutputFormat::Zip
            } else if l == "torrentzip"@ {
                OutputFormat::TorrentZip
            } else if l == "7z"@ {
                OutputFormat::SevenZip
            } else {
                default
            }
        },
    }
}

/// The merge mode that a setting names, in any ASCII case; the default where it
/// names none.
pub open spec fn mode_of(explicit: Option<Seq<char>>, default: MergeMode) -> MergeMode {
    match explicit {
        None => default,
        Some(s) => {
            let l = text::lower_seq(s);
            if l == "non-merged"@ {
                MergeMode::NonMerged
            } else if l == "split"@ {
                MergeMode::Split
            } else if l == "merged"@ {
                MergeMode::Merged
            } else {
                default
            }
        },
    }
}

/// The output format of a setting.
pub fn resolve_output_format(explicit: Option<&str>, default: OutputFormat) -> (r: OutputFormat)
    ensures
        r == format_of(explicit.deep_view(), default),
{
    match explicit {
        None => default,
        Some(s) => {
            let l = text::lower_string(s);
            if text::str_eq(l.as_str(), "loose") {
                OutputFormat::Loose
            } else if text::str_eq(l.as_str(), "zip") {
                OutputFormat::Zip
            } else if text::str_eq(l.as_str(), "torrentzip") {
                OutputFormat::TorrentZip
            } else if text::str_eq(l.as_str(), "7z") {
                OutputFormat::SevenZip
            } else {
                default
            }
        },
    }
}

/// The merge mode of a setting.
pub fn resolve_merge_mode(explicit: Option<&str>, default: MergeMode) -> (r: MergeMode)
    ensures
        r == mode_of(explicit.deep_view(), default),
{
    match explicit {
        None => default,
        Some(s) => {
            let l = text::lower_string(s);
            if text::str_eq(l.as_str(), "non-merged") {
                MergeMode::NonMerged
            } else if text::str_eq(l.as_str(), "split") {
                MergeMode::Split
            } else if text::str_eq(l.as_str(), "merged") {
                MergeMode::Merged
            } else {
                default
            }
        },
    }
}

/// The output format of a record.
pub open spec fn format_setting(cfg: Option<ConfigView>) -> Option<Seq<char>> {
    match cfg {
        Some(c) => c.output_format,
        None => None,
    }
}

/// The merge mode of a record.
pub open spec fn mode_setting(cfg: Option<ConfigView>) -> Option<Seq<char>> {
    match cfg {
        Some(c) => c.merge_mode,
        None => None,
    }
}

/// The effective output format: that of the collection, else that of its set,
/// else the library-wide default.
pub fn effective_format(
    default: OutputFormat,
    cfg: Option<&CollectionConfig>,
    set_cfg: Option<&CollectionConfig>,
) -> (r: OutputFormat)
    ensures
        r == format_of(
            format_setting(cfg.deep_view()),
            format_of(format_setting(set_cfg.deep_view()), default),
        ),
{
    let for_set = match set_cfg {
        Some(c) => match &c.output_format {
            Some(s) => resolve_output_format(Some(s.as_str()), default),
            None => default,
        },
        None => default,
    };
    match cfg {
        Some(c) => match &c.output_format {
            Some(s) => resolve_output_format(Some(s.as_str()), for_set),
            None => for_set,
        },
        None => for_set,
    }
}

/// The effective merge mode: that of the collection, else that of its set, else
/// the library-wide default.
pub fn effective_merge_mode(
    default: MergeMode,
    cfg: Option<&CollectionConfig>,
    set_cfg: Option<&CollectionConfig>,
) -> (r: MergeMode)
    ensures
        r == mode_of(
            mode_setting(cfg.deep_view()),
            mode_of(mode_setting(set_cfg.deep_view()), default),
        ),
{
    let for_set = match set_cfg {
        Some(c) => match &c.merge_mode {
            Some(s) => resolve_merge_mode(Some(s.as_str()), default),
            None => default,
        },
        None => default,
    };
    match cfg {
        Some(c) => match &c.merge_mode {
            Some(s) => resolve_merge_mode(Some(s.as_str()), for_set),
            None => for_set,
        },
        None => for_set,
    }
}

/// The tag of an archive format; none for loose storage.
pub open spec fn tag_of(format: OutputFormat) -> Option<Seq<char>> {
    match format {
        OutputFormat::Loose => None,
        OutputFormat::Zip => Some("zip"@),
        OutputFormat::TorrentZip => Some("torrentzip"@),
        OutputFormat::SevenZip => Some("7z"@),
    }
}

/// The file extension of an archive tag.
pub open spec fn extension_for(tag: Seq<char>) -> Seq<char> {
    if tag == "7z"@ {
        "7z"@
    } else {
        "zip"@
    }
}

/// A setting that is the tag of a format, in whatever case, names that format,
/// whatever the default; `loose` names loose storage; anything else, or no setting,
/// gives the default. Formats have different tags, and archives the extension that
/// their tag calls for.
pub proof fn law_format_settings_name_formats(
    s: Seq<char>,
    format: OutputFormat,
    default: OutputFormat,
)
    ensures
        format_of(None, default) == default,
        text::lower_seq(s) == "loose"@ ==> format_of(Some(s), default) == OutputFormat::Loose,
        tag_of(format) matches Some(tag) ==> (text::lower_seq(s) == tag ==> format_of(
            Some(s),
            default,
        ) == format),
        format_of(Some(s), default) != default ==> text::lower_seq(s) == "loose"@ || tag_of(
            format_of(Some(s), default),
        ) == Some(text::lower_seq(s)),
        tag_of(format) == tag_of(default) ==> format == default,
        tag_of(OutputFormat::Loose) is None,
        tag_of(OutputFormat::Zip) == Some("zip"@),
        tag_of(OutputFormat::TorrentZip) == Some("torrentzip"@),
        tag_of(OutputFormat::SevenZip) == Some("7z"@),
        extension_for("zip"@) == "zip"@,
        extension_for("torrentzip"@) == "zip"@,
        extension_for("7z"@) == "7z"@,
{
    reveal_strlit("loose");
    reveal_strlit("zip");
    reveal_strlit("torrentzip");
    reveal_strlit("7z");
    assert("loose"@.len() == 5 && "zip"@.len() == 3);
    assert("torrentzip"@.len() == 10 && "7z"@.len() == 2);
}

/// A setting that names a merge mode, in whatever case, gives that mode, whatever
/// the default; anything else, or no setting, gives the default.
pub proof fn law_merge_settings_name_modes(s: Seq<char>, default: MergeMode)
    ensures
        mode_of(None, default) == default,
        text::lower_seq(s) == "non-merged"@ ==> mode_of(Some(s), default) == MergeMode::NonMerged,
        text::lower_seq(s) == "split"@ ==> mode_of(Some(s), default) == MergeMode::Split,
        text::lower_seq(s) == "merged"@ ==> mode_of(Some(s), default) == MergeMode::Merged,
        mode_of(Some(s), default) != default ==> text::lower_seq(s) == "non-merged"@
            || text::lower_seq(s) == "split"@ || text::lower_seq(s) == "merged"@,
{
    reveal_strlit("non-merged");
    reveal_strlit("split");
    reveal_strlit("merged");
    assert("non-merged"@.len() == 10 && "split"@.len() == 5 && "merged"@.len() == 6);
}

/// The merge mode that a collection's record names counts before that of its set's,
/// and either before the default; a record that names none changes nothing.
pub proof fn law_own_merge_mode_comes_first(
    cfg: Option<ConfigView>,
    set_cfg: Option<ConfigView>,
    default: MergeMode,
    s: Seq<char>,
)
    ensures
        ({
            let effective = mode_of(mode_setting(cfg), mode_of(mode_setting(set_cfg), default));
            let own = cfg matches Some(c) && c.merge_mode == Some(s);
            let of_set = set_cfg matches Some(c) && c.merge_mode == Some(s);
            let unsaid = cfg matches Some(c) ==> c.merge_mode is None;
            let nowhere = unsaid && (set_cfg matches Some(c) ==> c.merge_mode is None);
            &&& own || (unsaid && of_set) ==> {
                &&& text::lower_seq(s) == "non-merged"@ ==> effective == MergeMode::NonMerged
                &&& text::lower_seq(s) == "split"@ ==> effective == MergeMode::Split
                &&& text::lower_seq(s) == "merged"@ ==> effective == MergeMode::Merged
            }
            &&& nowhere ==> effective == default
        }),
{
    law_merge_settings_name_modes(s, default);
    law_merge_settings_name_modes(s, mode_of(mode_setting(set_cfg), default));
}

/// Globs by their parts: what has no `*` or `?` matches itself, case aside, and
/// nothing else; `?` takes exactly one character; `*` takes any text, none too.
pub proof fn law_globs_match_by_parts(
    p: Seq<char>,
    t: Seq<char>,
    any: Seq<char>,
    c: char,
)
    ensures
        !p.contains('*') && !p.contains('?') ==> (matches(p, t) <==> text::lower_seq(p)
            == text::lower_seq(t)),
        matches(p, t) ==> matches(seq!['?'] + p, seq![c] + t),
        matches(p, t) ==> matches(seq!['*'] + p, any + t),
        matches(seq!['?'] + p, t) ==> t.len() > 0 && matches(p, t.drop_first()),
        matches(seq!['*'] + p, t) ==> exists|n: int|
            0 <= n <= t.len() && matches(p, #[trigger] t.skip(n)),
{
    if !p.contains('*') && !p.contains('?') {
        lemma_plain_glob(p, t);
    }
    if matches(p, t) {
        assert((seq!['?'] + p).drop_first() =~= p);
        assert((seq![c] + t).drop_first() =~= t);
        lemma_star_takes(p, any, t);
    }
    if matches(seq!['?'] + p, t) {
        assert((seq!['?'] + p).drop_first() =~= p);
    }
    if matches(seq!['*'] + p, t) {
        lemma_star_gives(p, t);
    }
}

proof fn lemma_plain_glob(p: Seq<char>, t: Seq<char>)
    requires
        !p.contains('*'),
        !p.contains('?'),
    ensures
        matches(p, t) <==> text::lower_seq(p) == text::lower_seq(t),
    decreases p.len(),
{
    let a = text::lower_seq(p);
    let b = text::lower_seq(t);
    assert(a.len() == p.len() && b.len() == t.len());
    if p.len() == 0 {
        if t.len() == 0 {
            assert(a =~= b);
        }
    } else if t.len() > 0 {
        let q = p.drop_first();
        let u = t.drop_first();
        assert(p.contains(p[0]));
        assert forall|c: char| q.contains(c) implies p.contains(c) by {
            let i = choose|i: int| 0 <= i < q.len() && q[i] == c;
            assert(p[i + 1] == c);
        }
        lemma_plain_glob(q, u);
        assert(a.drop_first() =~= text::lower_seq(q));
        assert(b.drop_first() =~= text::lower_seq(u));
        if a.drop_first() == b.drop_first() && a[0] == b[0] {
            assert forall|i: int| 0 <= i < a.len() implies a[i] == b[i] by {
                if i > 0 {
                    assert(a.drop_first()[i - 1] == b.drop_first()[i - 1]);
                }
            }
            assert(a =~= b);
        }
    }
}

proof fn lemma_star_takes(p: Seq<char>, any: Seq<char>, t: Seq<char>)
    requires
        matches(p, t),
    ensures
        matches(seq!['*'] + p, any + t),
    decreases any.len(),
{
    let star = seq!['*'] + p;
    assert(star.drop_first() =~= p);
    if any.len() == 0 {
        assert(any + t =~= t);
    } else {
        lemma_star_takes(p, any.drop_first(), t);
        assert((any + t).drop_first() =~= any.drop_first() + t);
    }
}

proof fn lemma_star_gives(p: Seq<char>, t: Seq<char>)
    requires
        matches(seq!['*'] + p, t),
    ensures
        exists|n: int| 0 <= n <= t.len() && matches(p, #[trigger] t.skip(n)),
    decreases t.len(),
{
    assert((seq!['*'] + p).drop_first() =~= p);
    if matches(p, t) {
        assert(t.skip(0) =~= t);
    } else {
        lemma_star_gives(p, t.drop_first());
        let n = choose|n: int|
            0 <= n <= t.drop_first().len() && matches(p, #[trigger] t.drop_first().skip(n));
        assert(t.drop_first().skip(n) =~= t.skip(n + 1));
    }
}

/// The tag of an archive format.
pub fn archive_format_tag(format: OutputFormat) -> (r: Option<&'static str>)
    ensures
        r.deep_view() == tag_of(format),
{
    match format {
        OutputFormat::Loose => None,
        OutputFormat::Zip => Some("zip"),
        OutputFormat::TorrentZip => Some("torrentzip"),
        OutputFormat::SevenZip => Some("7z"),
    }
}

/// The file extension of an archive tag.
pub fn archive_extension(tag: &str) -> (r: &'static str)
    ensures
        r@ == extension_for(tag@),
{
    if text::str_eq(tag, "7z") {
        "7z"
    } else {
        "zip"
    }
}

// ---------------------------------------------------------------------------
// 1G1R
// ---------------------------------------------------------------------------

/// The names of the games among matches, each once.
pub open spec fn games_in(ms: Seq<MatchView>) -> Seq<Seq<char>> {
    seqs::distinct(ms.map_values(|m: MatchView| m.game_name))
}

/// Names as candidates for selection.
pub open spec fn candidates_of(names: Seq<Seq<char>>) -> Seq<CandidateView> {
    names.map_values(
        |n: Seq<char>| CandidateView { name: n, parsed: parser::parsed(n), is_parent: false },
    )
}

/// The name that preferences pick of a group, if any.
pub open spec fn pick(group: Seq<Seq<char>>, prefs: PreferencesView) -> Option<Seq<char>> {
    if exists|i: int| #[trigger] preferences::chosen(candidates_of(group), prefs, i) {
        Some(group[choose|i: int| #[trigger] preferences::chosen(candidates_of(group), prefs, i)])
    } else {
        None
    }
}

/// Whether a game is the one that preferences pick among those with its title.
pub open spec fn picked(names: Seq<Seq<char>>, prefs: PreferencesView, game: Seq<char>) -> bool {
    pick(preferences::with_title(names, parser::title_of(game)), prefs) == Some(game)
}

/// The matches of the games that preferences pick.
pub open spec fn one_per_title(ms: Seq<MatchView>, prefs: PreferencesView) -> Seq<MatchView> {
    ms.filter(|m: MatchView| picked(games_in(ms), prefs, m.game_name))
}

/// After 1G1R filtering, matches with one title belong to one game, and every
/// match that is kept was there before.
pub proof fn law_one_game_per_title(
    ms: Seq<MatchView>,
    prefs: PreferencesView,
    a: MatchView,
    b: MatchView,
)
    requires
        one_per_title(ms, prefs).contains(a),
        one_per_title(ms, prefs).contains(b),
        parser::title_of(a.game_name) == parser::title_of(b.game_name),
    ensures
        a.game_name == b.game_name,
        ms.contains(a),
{
    seqs::lemma_filter_members(ms, |m: MatchView| picked(games_in(ms), prefs, m.game_name));
}

/// A game that 1G1R filtering keeps is not excluded by the preferences.
pub proof fn law_kept_games_are_not_excluded(
    ms: Seq<MatchView>,
    prefs: PreferencesView,
    a: MatchView,
)
    requires
        one_per_title(ms, prefs).contains(a),
    ensures
        !preferences::excluded(prefs, parser::parsed(a.game_name)),
{
    seqs::lemma_filter_members(ms, |m: MatchView| picked(games_in(ms), prefs, m.game_name));
    let group = preferences::with_title(games_in(ms), parser::title_of(a.game_name));
    let i = choose|i: int| #[trigger] preferences::chosen(candidates_of(group), prefs, i);
    assert(preferences::chosen(candidates_of(group), prefs, i));
    assert(preferences::eligible(candidates_of(group), prefs, i));
}

/// Of the games with one title, 1G1R filtering keeps one wherever one is not
/// excluded: one that no other game of the title, excluded ones aside, is preferred
/// to; and of that game it keeps every match.
pub proof fn law_preferred_game_is_kept(ms: Seq<MatchView>, prefs: PreferencesView, m: MatchView)
    requires
        ms.contains(m),
        !preferences::excluded(prefs, parser::parsed(m.game_name)),
    ensures
        exists|a: MatchView| #[trigger]
            one_per_title(ms, prefs).contains(a) && parser::title_of(a.game_name)
                == parser::title_of(m.game_name) && !preferences::better(
                prefs,
                parser::parsed(m.game_name),
                parser::parsed(a.game_name),
            ),
        forall|a: MatchView, b: MatchView|
            #![trigger one_per_title(ms, prefs).contains(a), ms.contains(b)]
            one_per_title(ms, prefs).contains(a) && ms.contains(b) && b.game_name == a.game_name
                ==> one_per_title(ms, prefs).contains(b),
{
    let keep = |x: MatchView| picked(games_in(ms), prefs, x.game_name);
    seqs::lemma_filter_members(ms, keep);
    let title = parser::title_of(m.game_name);
    let names = ms.map_values(|x: MatchView| x.game_name);
    let games = games_in(ms);
    seqs::lemma_distinct(names);
    let k = choose|k: int| 0 <= k < ms.len() && ms[k] == m;
    assert(names[k] == m.game_name);
    assert(names.contains(m.game_name));
    assert(games.contains(m.game_name));
    let has = |n: Seq<char>| parser::title_of(n) == title;
    seqs::lemma_filter_members(games, has);
    let group = preferences::with_title(games, title);
    assert(group.contains(m.game_name));
    let j = choose|j: int| 0 <= j < group.len() && group[j] == m.game_name;
    let c = candidates_of(group);
    assert(c[j].parsed == parser::parsed(m.game_name));
    preferences::law_some_candidate_is_chosen(c, prefs, j);
    let i = choose|i: int| #[trigger] preferences::chosen(c, prefs, i);
    assert(preferences::chosen(c, prefs, i));
    preferences::law_excluded_dumps_are_never_chosen(c, prefs, i);
    let game = group[i];
    assert(group.contains(game));
    assert(games.contains(game) && parser::title_of(game) == title);
    assert(names.contains(game));
    let q = choose|q: int| 0 <= q < names.len() && names[q] == game;
    let a = ms[q];
    assert(pick(group, prefs) == Some(game));
    assert(picked(games, prefs, a.game_name));
    assert(ms.contains(a));
    assert(one_per_title(ms, prefs).contains(a));
    assert forall|x: int| 0 <= x < c.len() implies !(#[trigger] c[x]).is_parent by {}
    preferences::law_parents_come_first(c, prefs, i, j);
}

fn pick_name<'a>(group: &Vec<&'a str>, prefs: &FilterPreferences) -> (r: Option<&'a str>)
    ensures
        r.deep_view() == pick(group.deep_view(), prefs.deep_view()),
{
    let ghost names = group.deep_view();
    let ghost p = prefs.deep_view();
    let mut candidates: Vec<RomCandidate<'a>> = Vec::new();
    let mut i: usize = 0;
    while i < group.len()
        invariant
            i <= group@.len(),
            names == group.deep_view(),
            candidates@.len() == i,
            forall|j: int|
                0 <= j < i ==> (#[trigger] candidates@[j]).deep_view() == candidates_of(names)[j],
        decreases group@.len() - i,
    {
        let name: &'a str = group[i];
        candidates.push(RomCandidate::new(name));
        i = i + 1;
    }
    proof {
        assert(preferences::candidate_views(candidates@) =~= candidates_of(names));
    }
    let r = select_preferred(candidates.as_slice(), prefs);
    proof {
        let c = candidates_of(names);
        match r {
            Some(name) => {
                let k = choose|k: int| #[trigger] preferences::chosen(c, p, k)
                    && candidates@[k].name@ == name@;
                assert(preferences::chosen(c, p, k));
                let q = choose|q: int| #[trigger] preferences::chosen(c, p, q);
                preferences::law_choice_is_unique(c, p, k, q);
                if preferences::parent_decides(c, p) {
                    assert(preferences::eligible_parent(c, p, k));
                }
                assert(preferences::eligible(c, p, k));
                assert(candidates@[k].deep_view() == c[k]);
            },
            None => {
                assert forall|q: int| !#[trigger] preferences::chosen(c, p, q) by {
                    if preferences::chosen(c, p, q) {
                        if preferences::parent_decides(c, p) {
                            assert(preferences::eligible_parent(c, p, q));
                        }
                        assert(preferences::eligible(c, p, q));
                        assert(preferences::excluded(p, c[q].parsed));
                    }
                }
            },
        }
    }
    r
}

/// Keeps, of the games with one title, only the preferred one.
pub fn apply_one_g_one_r_filter(matches: &[MatchedRom], prefs: &FilterPreferences) -> (r: Vec<
    MatchedRom,
>)
    ensures
        r.deep_view() == one_per_title(types::match_views(matches@), prefs.deep_view()),
{
    let ghost ms = types::match_views(matches@);
    let ghost p = prefs.deep_view();
    let ghost all_names = ms.map_values(|m: MatchView| m.game_name);
    let mut names: Vec<&str> = Vec::new();
    let mut seen: SortedSet<String> = SortedSet::new();
    let mut i: usize = 0;
    proof {
        assert(names.deep_view() =~= seqs::distinct(all_names.take(0)));
    }
    while i < matches.len()
        invariant
            i <= matches@.len(),
            ms == types::match_views(matches@),
            all_names == ms.map_values(|m: MatchView| m.game_name),
            names.deep_view() == seqs::distinct(all_names.take(i as int)),
            forall|n: Seq<char>|
                #[trigger] seen@.contains(n) <==> all_names.take(i as int).contains(n),
        decreases matches@.len() - i,
    {
        let ghost t = all_names.take(i as int);
        let ghost u = all_names.take(i + 1);
        let name: &str = matches[i].game_name.as_str();
        let ghost before = names.deep_view();
        proof {
            assert(u =~= t.push(name@));
            assert(u.drop_last() =~= t);
        }
        let ghost s0 = seen@;
        if !seen.contains(name) {
            seen.insert(name.to_owned());
            names.push(name);
            proof {
                assert(names.deep_view() =~= before.push(name@));
            }
        }
        proof {
            assert forall|n: Seq<char>| #[trigger] seen@.contains(n) <==> u.contains(n) by {
                assert(s0.contains(n) <==> t.contains(n));
                if t.contains(n) {
                    let j = choose|j: int| 0 <= j < t.len() && t[j] == n;
                    assert(u[j] == n);
                }
                if u.contains(n) {
                    let j = choose|j: int| 0 <= j < u.len() && u[j] == n;
                    if j < t.len() {
                        assert(t[j] == n);
                    }
                }
                assert(u[t.len() as int] == name@);
            }
        }
        i = i + 1;
    }
    proof {
        assert(all_names.take(i as int) =~= all_names);
        assert(names.deep_view() == games_in(ms));
        assert(preferences::name_views(names@) =~= names.deep_view());
    }
    let ghost games = games_in(ms);
    let groups = group_by_title(names.as_slice());
    let count = groups.len();
    let mut winners: SortedSet<String> = SortedSet::new();
    let mut g: usize = 0;
    while g < count
        invariant
            g <= count,
            count == groups.keys().len(),
            groups.linked(),
            games == games_in(ms),
            p == prefs.deep_view(),
            forall|t: Seq<char>|
                #[trigger] groups@.contains_key(t) <==> preferences::with_title(games, t).len()
                    > 0,
            forall|t: Seq<char>| #[trigger]
                groups@.contains_key(t) ==> groups@[t].deep_view() == preferences::with_title(
                    games,
                    t,
                ),
            forall|n: Seq<char>|
                #[trigger] winners@.contains(n) <==> picked(games, p, n) && groups.keys().take(
                    g as int,
                ).contains(parser::title_of(n)),
        decreases count - g,
    {
        let ghost t0 = groups.keys()[g as int];
        let list = groups.value_at(g);
        let winner = pick_name(list, prefs);
        let ghost w0 = winners@;
        let ghost keys = groups.keys();
        proof {
            assert(groups@.contains_key(t0));
            assert(groups@[t0] == *list);
            assert(list.deep_view() == preferences::with_title(games, t0));
            assert(keys.take(g + 1) =~= keys.take(g as int).push(t0));
            lemma_pick_title(games, p, t0);
        }
        if let Some(name) = winner {
            winners.insert(name.to_owned());
        }
        proof {
            assert forall|n: Seq<char>| #[trigger]
                winners@.contains(n) <==> picked(games, p, n) && keys.take(g + 1).contains(
                    parser::title_of(n),
                ) by {
                assert(w0.contains(n) <==> picked(games, p, n) && keys.take(g as int).contains(
                    parser::title_of(n),
                ));
                let a = keys.take(g as int);
                let b = keys.take(g + 1);
                let t = parser::title_of(n);
                if a.contains(t) {
                    let j = choose|j: int| 0 <= j < a.len() && a[j] == t;
                    assert(b[j] == t);
                }
                if b.contains(t) {
                    let j = choose|j: int| 0 <= j < b.len() && b[j] == t;
                    if j < a.len() {
                        assert(a[j] == t);
                    }
                }
                assert(b[g as int] == t0);
            }
        }
        g = g + 1;
    }
    proof {
        assert(groups.keys().take(g as int) =~= groups.keys());
        assert forall|n: Seq<char>| #[trigger] winners@.contains(n) <==> picked(games, p, n) by {
            if picked(games, p, n) {
                let t = parser::title_of(n);
                let group = preferences::with_title(games, t);
                let k = choose|k: int| #[trigger] preferences::chosen(candidates_of(group), p, k);
                assert(preferences::chosen(candidates_of(group), p, k));
                if preferences::parent_decides(candidates_of(group), p) {
                    assert(preferences::eligible_parent(candidates_of(group), p, k));
                }
                assert(preferences::eligible(candidates_of(group), p, k));
                assert(groups@.contains_key(t));
                assert(groups.keys().contains(t));
            }
        }
    }
    let mut kept: Vec<MatchedRom> = Vec::new();
    let mut k: usize = 0;
    let ghost keep = |m: MatchView| picked(games_in(ms), p, m.game_name);
    proof {
        reveal(Seq::filter);
        assert(kept.deep_view() =~= ms.take(0).filter(keep));
    }
    while k < matches.len()
        invariant
            k <= matches@.len(),
            ms == types::match_views(matches@),
            games == games_in(ms),
            keep == (|m: MatchView| picked(games_in(ms), p, m.game_name)),
            forall|n: Seq<char>| #[trigger] winners@.contains(n) <==> picked(games, p, n),
            kept.deep_view() == ms.take(k as int).filter(keep),
        decreases matches@.len() - k,
    {
        let ghost before = kept.deep_view();
        proof {
            assert(ms.take(k + 1).drop_last() =~= ms.take(k as int));
            reveal_with_fuel(Seq::filter, 2);
        }
        if winners.contains(matches[k].game_name.as_str()) {
            kept.push(matches[k].clone());
            proof {
                assert(kept.deep_view() =~= before.push(ms[k as int]));
            }
        }
        k = k + 1;
    }
    proof {
        assert(ms.take(k as int) =~= ms);
    }
    kept
}

/// What is picked of a group with a title has that title.
proof fn lemma_pick_title(games: Seq<Seq<char>>, p: PreferencesView, t: Seq<char>)
    ensures
        pick(preferences::with_title(games, t), p) matches Some(n) ==> parser::title_of(n) == t
            && picked(games, p, n),
        forall|n: Seq<char>| #[trigger]
            picked(games, p, n) && parser::title_of(n) == t ==> pick(
                preferences::with_title(games, t),
                p,
            ) == Some(n),
{
    let group = preferences::with_title(games, t);
    if let Some(n) = pick(group, p) {
        let c = candidates_of(group);
        let k = choose|k: int| #[trigger] preferences::chosen(c, p, k);
        assert(preferences::chosen(c, p, k));
        if preferences::parent_decides(c, p) {
            assert(preferences::eligible_parent(c, p, k));
        }
        assert(preferences::eligible(c, p, k));
        seqs::lemma_filter_members(games, |n: Seq<char>| parser::title_of(n) == t);
        assert(group.contains(group[k]));
    }
}

} // verus!
