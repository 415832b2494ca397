//! Game name parsing: title, regions, languages, dump flags and revision.

use crate::sorted_map::SortedSet;
use crate::text;
use vstd::prelude::*;

verus! {

/// Parsed information from a game name.
pub struct ParsedGameName {
    /// Base title without flags
    pub title: String,
    /// Regions found (for example "USA", "Europe")
    pub regions: Vec<String>,
    /// Languages found (for example "En", "Fr")
    pub languages: Vec<String>,
    /// Dump flags found (for example "cr", "t", "a", "b")
    pub flags: SortedSet<String>,
    /// Is this a verified dump?
    pub verified: bool,
    /// Is this a bad dump?
    pub bad_dump: bool,
    /// Revision or version text
    pub revision: Option<String>,
    /// Is this a beta, prototype or demo?
    pub is_prerelease: bool,
}

/// The mathematical content of a parsed name.
#[verifier::ext_equal]
pub struct ParsedView {
    pub title: Seq<char>,
    pub regions: Seq<Seq<char>>,
    pub languages: Seq<Seq<char>>,
    pub flags: Set<Seq<char>>,
    pub verified: bool,
    pub bad_dump: bool,
    pub revision: Option<Seq<char>>,
    pub is_prerelease: bool,
}

impl DeepView for ParsedGameName {
    type V = ParsedView;

    open spec fn deep_view(&self) -> ParsedView {
        ParsedView {
            title: self.title@,
            regions: self.regions.deep_view(),
            languages: self.languages.deep_view(),
            flags: self.flags@,
            verified: self.verified,
            bad_dump: self.bad_dump,
            revision: self.revision.deep_view(),
            is_prerelease: self.is_prerelease,
        }
    }
}

// ---------------------------------------------------------------------------
// What a name means
// ---------------------------------------------------------------------------

/// The No-Intro region that a lower-case text names.
pub open spec fn region_named(l: Seq<char>) -> Option<Seq<char>> {
    if l == "world"@ {
        Some("World"@)
    } else if l == "usa"@ {
        Some("USA"@)
    } else if l == "europe"@ {
        Some("Europe"@)
    } else if l == "japan"@ {
        Some("Japan"@)
    } else if l == "australia"@ {
        Some("Australia"@)
    } else if l == "brazil"@ {
        Some("Brazil"@)
    } else if l == "canada"@ {
        Some("Canada"@)
    } else if l == "china"@ {
        Some("China"@)
    } else if l == "france"@ {
        Some("France"@)
    } else if l == "germany"@ {
        Some("Germany"@)
    } else if l == "hong kong"@ {
        Some("Hong Kong"@)
    } else if l == "italy"@ {
        Some("Italy"@)
    } else if l == "korea"@ {
        Some("Korea"@)
    } else if l == "netherlands"@ {
        Some("Netherlands"@)
    } else if l == "russia"@ {
        Some("Russia"@)
    } else if l == "spain"@ {
        Some("Spain"@)
    } else if l == "sweden"@ {
        Some("Sweden"@)
    } else if l == "taiwan"@ {
        Some("Taiwan"@)
    } else if l == "uk"@ {
        Some("UK"@)
    } else if l == "asia"@ {
        Some("Asia"@)
    } else if l == "scandinavia"@ {
        Some("Scandinavia"@)
    } else {
        None
    }
}

/// The language that a lower-case text names.
pub open spec fn language_named(l: Seq<char>) -> Option<Seq<char>> {
    if l == "en"@ {
        Some("En"@)
    } else if l == "fr"@ {
        Some("Fr"@)
    } else if l == "de"@ {
        Some("De"@)
    } else if l == "es"@ {
        Some("Es"@)
    } else if l == "it"@ {
        Some("It"@)
    } else if l == "ja"@ {
        Some("Ja"@)
    } else if l == "pt"@ {
        Some("Pt"@)
    } else if l == "zh"@ {
        Some("Zh"@)
    } else if l == "ko"@ {
        Some("Ko"@)
    } else if l == "nl"@ {
        Some("Nl"@)
    } else if l == "sv"@ {
        Some("Sv"@)
    } else if l == "ru"@ {
        Some("Ru"@)
    } else if l == "pl"@ {
        Some("Pl"@)
    } else {
        None
    }
}

/// The region of an upper-case ISO 3166-1 alpha-2 code.
pub open spec fn iso_region(code: Seq<char>) -> Option<Seq<char>> {
    if code == "US"@ {
        Some("USA"@)
    } else if code == "JP"@ {
        Some("Japan"@)
    } else if code == "EU"@ {
        Some("Europe"@)
    } else if code == "DE"@ {
        Some("Germany"@)
    } else if code == "FR"@ {
        Some("France"@)
    } else if code == "GB"@ || code == "UK"@ {
        Some("UK"@)
    } else if code == "ES"@ {
        Some("Spain"@)
    } else if code == "IT"@ {
        Some("Italy"@)
    } else if code == "BR"@ {
        Some("Brazil"@)
    } else if code == "AU"@ {
        Some("Australia"@)
    } else if code == "CA"@ {
        Some("Canada"@)
    } else if code == "CN"@ {
        Some("China"@)
    } else if code == "KR"@ {
        Some("Korea"@)
    } else if code == "NL"@ {
        Some("Netherlands"@)
    } else if code == "SE"@ {
        Some("Sweden"@)
    } else if code == "RU"@ {
        Some("Russia"@)
    } else if code == "PL"@ {
        Some("Poland"@)
    } else if code == "PT"@ {
        Some("Portugal"@)
    } else if code == "TW"@ {
        Some("Taiwan"@)
    } else if code == "HK"@ {
        Some("Hong Kong"@)
    } else {
        None
    }
}

pub open spec fn upper(c: char) -> bool {
    'A' <= c && c <= 'Z'
}

/// The region of a two-letter upper-case code.
pub open spec fn coded_region(s: Seq<char>) -> Option<Seq<char>> {
    if s.len() == 2 && upper(s[0]) && upper(s[1]) {
        iso_region(s)
    } else {
        None
    }
}

/// The regions that the parts of a comma list name, in order.
pub open spec fn listed_regions(parts: Seq<Seq<char>>) -> Seq<Seq<char>>
    decreases parts.len(),
{
    if parts.len() == 0 {
        Seq::empty()
    } else {
        let before = listed_regions(parts.drop_last());
        match region_named(text::lower_seq(text::trim(parts.last()))) {
            Some(r) => before.push(r),
            None => before,
        }
    }
}

/// The regions of the country codes among the parts, in order.
pub open spec fn coded_regions(parts: Seq<Seq<char>>) -> Seq<Seq<char>>
    decreases parts.len(),
{
    if parts.len() == 0 {
        Seq::empty()
    } else {
        let before = coded_regions(parts.drop_last());
        match coded_region(parts.last()) {
            Some(r) => before.push(r),
            None => before,
        }
    }
}

/// Whether a lower-case text marks a revision or version.
pub open spec fn revision_mark(l: Seq<char>) -> bool {
    text::begins(l, "rev "@) || text::begins(l, "v"@) || text::begins(l, "version"@)
}

/// Whether a lower-case text marks a release before the final one.
pub open spec fn prerelease_mark(l: Seq<char>) -> bool {
    l == "beta"@ || l == "proto"@ || l == "prototype"@ || l == "demo"@ || l == "sample"@ || l
        == "preview"@
}

/// What a parenthesised text adds to the information gathered so far.
pub open spec fn with_paren(p: ParsedView, content: Seq<char>) -> ParsedView {
    let l = text::lower_seq(content);
    let listed = if content.contains(',') {
        p.regions + listed_regions(text::split(content, ','))
    } else {
        p.regions
    };
    let dashed = content.contains('-') && text::utf8_len(content) <= 8;
    let coded = if dashed {
        listed + coded_regions(text::split(content, '-'))
    } else {
        listed
    };
    if region_named(l) is Some {
        ParsedView { regions: p.regions.push(region_named(l)->0), ..p }
    } else if content.contains(',') && listed.len() > 0 {
        ParsedView { regions: listed, ..p }
    } else if coded_region(content) is Some {
        ParsedView { regions: listed.push(coded_region(content)->0), ..p }
    } else if dashed && coded.len() > 0 {
        ParsedView { regions: coded, ..p }
    } else if language_named(l) is Some {
        ParsedView { languages: p.languages.push(language_named(l)->0), ..p }
    } else if revision_mark(l) {
        ParsedView { revision: Some(content), ..p }
    } else if prerelease_mark(l) {
        ParsedView { is_prerelease: true, ..p }
    } else {
        p
    }
}

/// Whether a lower-case text is a dump flag other than the bad-dump one.
pub open spec fn dump_flag(l: Seq<char>) -> bool {
    l == "cr"@ || l == "f"@ || l == "h"@ || l == "m"@ || l == "p"@ || l == "t"@ || l == "tr"@ || l
        == "o"@ || l == "u"@ || l == "v"@ || l == "a"@
}

/// The first word of a bracketed text, in lower case.
pub open spec fn flag_word(content: Seq<char>) -> Seq<char> {
    text::lower_seq(content.take(text::first_index(content, ' ')))
}

/// What a bracketed text adds to the information gathered so far.
pub open spec fn with_bracket(p: ParsedView, content: Seq<char>) -> ParsedView {
    let l = text::lower_seq(content);
    if content == "!"@ {
        ParsedView { verified: true, ..p }
    } else if l == "b"@ || text::begins(l, "b "@) {
        ParsedView { bad_dump: true, flags: p.flags.insert("b"@), ..p }
    } else if dump_flag(flag_word(content)) {
        ParsedView { flags: p.flags.insert(flag_word(content)), ..p }
    } else {
        p
    }
}

/// The texts between the outermost pairs of `open` and `close`, from position
/// `i` on, where `depth` pairs are open and the outermost text began at `start`.
pub open spec fn groups_from(
    s: Seq<char>,
    open: char,
    close: char,
    i: int,
    depth: int,
    start: int,
) -> Seq<Seq<char>>
    decreases s.len() - i,
{
    if i < 0 || i >= s.len() {
        Seq::empty()
    } else if s[i] == open {
        groups_from(s, open, close, i + 1, depth + 1, if depth == 0 {
            i + 1
        } else {
            start
        })
    } else if s[i] == close {
        let rest = groups_from(s, open, close, i + 1, depth - 1, start);
        if depth == 1 {
            seq![s.subrange(start, i)] + rest
        } else {
            rest
        }
    } else {
        groups_from(s, open, close, i + 1, depth, start)
    }
}

/// The texts between the outermost pairs of `open` and `close`.
pub open spec fn groups(s: Seq<char>, open: char, close: char) -> Seq<Seq<char>> {
    groups_from(s, open, close, 0, 0, 0)
}

pub open spec fn with_parens(p: ParsedView, contents: Seq<Seq<char>>) -> ParsedView
    decreases contents.len(),
{
    if contents.len() == 0 {
        p
    } else {
        with_paren(with_parens(p, contents.drop_last()), contents.last())
    }
}

pub open spec fn with_brackets(p: ParsedView, contents: Seq<Seq<char>>) -> ParsedView
    decreases contents.len(),
{
    if contents.len() == 0 {
        p
    } else {
        with_bracket(with_brackets(p, contents.drop_last()), contents.last())
    }
}

/// The base title of a name: what stands before its first parenthesis or bracket.
pub open spec fn title_of(name: Seq<char>) -> Seq<char> {
    let paren = text::first_index(name, '(');
    let bracket = text::first_index(name, '[');
    text::trim(name.take(if paren < bracket {
        paren
    } else {
        bracket
    }))
}

/// A name that nothing is known of but its title.
pub open spec fn bare(title: Seq<char>) -> ParsedView {
    ParsedView {
        title,
        regions: Seq::empty(),
        languages: Seq::empty(),
        flags: Set::empty(),
        verified: false,
        bad_dump: false,
        revision: None,
        is_prerelease: false,
    }
}

/// All that a game name says.
pub open spec fn parsed(name: Seq<char>) -> ParsedView {
    with_brackets(
        with_parens(bare(title_of(name)), groups(name, '(', ')')),
        groups(name, '[', ']'),
    )
}

proof fn lemma_title_kept(p: ParsedView, contents: Seq<Seq<char>>)
    ensures
        with_parens(p, contents).title == p.title,
        with_brackets(p, contents).title == p.title,
    decreases contents.len(),
{
    if contents.len() > 0 {
        lemma_title_kept(p, contents.drop_last());
    }
}

/// Whatever stands in parentheses and brackets, the title is what stands before
/// them: variants of a game share it.
pub proof fn law_marks_do_not_change_title(name: Seq<char>)
    ensures
        parsed(name).title == title_of(name),
{
    let start = bare(title_of(name));
    lemma_title_kept(start, groups(name, '(', ')'));
    lemma_title_kept(with_parens(start, groups(name, '(', ')')), groups(name, '[', ']'));
}

/// No sign of a crack, trainer, hack or another altered dump.
pub open spec fn original(p: ParsedView) -> bool {
    !(altered(p) || p.flags.contains("p"@))
}

/// A dump changed from its release: cracked, trained, hacked, fixed, modified,
/// translated, over- or under-dumped, or infected.
pub open spec fn altered(p: ParsedView) -> bool {
    ||| p.flags.contains("cr"@)
    ||| p.flags.contains("t"@)
    ||| p.flags.contains("h"@)
    ||| p.flags.contains("f"@)
    ||| p.flags.contains("m"@)
    ||| p.flags.contains("tr"@)
    ||| p.flags.contains("o"@)
    ||| p.flags.contains("u"@)
    ||| p.flags.contains("v"@)
}

/// A dump is altered exactly where it carries one of the nine flags of alteration,
/// and original exactly where it carries none of these and is no pirate copy.
pub proof fn law_nine_flags_mark_alteration(p: ParsedView, f: Seq<char>)
    ensures
        p.flags.contains(f) && (f == "cr"@ || f == "t"@ || f == "h"@ || f == "f"@ || f == "m"@ || f
            == "tr"@ || f == "o"@ || f == "u"@ || f == "v"@) ==> altered(p) && !original(p),
        p.flags.contains("p"@) ==> !original(p),
        altered(p) ==> exists|g: Seq<char>| #[trigger]
            p.flags.contains(g) && (g == "cr"@ || g == "t"@ || g == "h"@ || g == "f"@ || g == "m"@
                || g == "tr"@ || g == "o"@ || g == "u"@ || g == "v"@),
        !original(p) ==> altered(p) || p.flags.contains("p"@),
        !altered(p) && !p.flags.contains("p"@) ==> original(p),
{
}

proof fn lemma_groups_shift(
    s: Seq<char>,
    t: Seq<char>,
    open: char,
    close: char,
    n: int,
    i: int,
    depth: int,
    start: int,
)
    requires
        0 <= n <= s.len(),
        t == s.skip(n),
        0 <= i,
        depth > 0 ==> 0 <= start <= i,
    ensures
        groups_from(s, open, close, n + i, depth, n + start) == groups_from(
            t,
            open,
            close,
            i,
            depth,
            start,
        ),
    decreases t.len() - i,
{
    if i < t.len() {
        assert(s[n + i] == t[i]);
        if t[i] == open {
            if depth == 0 {
                lemma_groups_shift(s, t, open, close, n, i + 1, depth + 1, i + 1);
            } else {
                lemma_groups_shift(s, t, open, close, n, i + 1, depth + 1, start);
            }
        } else if t[i] == close {
            lemma_groups_shift(s, t, open, close, n, i + 1, depth - 1, start);
            if depth == 1 {
                assert(s.subrange(n + start, n + i) =~= t.subrange(start, i));
            }
        } else {
            lemma_groups_shift(s, t, open, close, n, i + 1, depth, start);
        }
    }
}

proof fn lemma_groups_skip(
    s: Seq<char>,
    open: char,
    close: char,
    i: int,
    to: int,
    depth: int,
    start: int,
)
    requires
        0 <= i <= to <= s.len(),
        forall|j: int| i <= j < to ==> s[j] != open && s[j] != close,
    ensures
        groups_from(s, open, close, i, depth, start) == groups_from(
            s,
            open,
            close,
            to,
            depth,
            start,
        ),
    decreases to - i,
{
    if i < to {
        lemma_groups_skip(s, open, close, i + 1, to, depth, start);
    }
}

/// A text without either mark has no group; and the group that follows such a text
/// is found, whole, before those of what follows it.
pub proof fn law_groups_are_found(
    a: Seq<char>,
    g: Seq<char>,
    b: Seq<char>,
    open: char,
    close: char,
)
    requires
        open != close,
        !a.contains(open) && !a.contains(close),
        !g.contains(open) && !g.contains(close),
    ensures
        groups(a, open, close) == Seq::<Seq<char>>::empty(),
        groups(a.push(open) + g.push(close) + b, open, close) == seq![g] + groups(b, open, close),
{
    let s = a.push(open) + g.push(close) + b;
    let m = a.len() as int;
    let n = g.len() as int;
    assert forall|j: int| 0 <= j < m implies a[j] != open && a[j] != close by {
        assert(a.contains(a[j]));
    }
    assert forall|j: int| 0 <= j < n implies g[j] != open && g[j] != close by {
        assert(g.contains(g[j]));
    }
    lemma_groups_skip(a, open, close, 0, m, 0, 0);
    assert forall|j: int| 0 <= j < m implies s[j] == a[j] by {}
    lemma_groups_skip(s, open, close, 0, m, 0, 0);
    assert(s[m] == open);
    assert forall|j: int| m + 1 <= j < m + 1 + n implies s[j] == g[j - m - 1] by {}
    lemma_groups_skip(s, open, close, m + 1, m + 1 + n, 1, m + 1);
    assert(s[m + 1 + n] == close);
    assert(s.subrange(m + 1, m + 1 + n) =~= g);
    let k = m + n + 2;
    assert(s.skip(k) =~= b);
    lemma_groups_start(s, open, close, k, m + 1, k);
    lemma_groups_shift(s, b, open, close, k, 0, 0, 0);
}

/// Where nothing is open, it does not matter where the last group began.
proof fn lemma_groups_start(s: Seq<char>, open: char, close: char, i: int, x: int, y: int)
    ensures
        groups_from(s, open, close, i, 0, x) == groups_from(s, open, close, i, 0, y),
{
    lemma_groups_closed(s, open, close, i, 0, x, y);
}

proof fn lemma_groups_closed(
    s: Seq<char>,
    open: char,
    close: char,
    i: int,
    depth: int,
    x: int,
    y: int,
)
    requires
        depth <= 0,
    ensures
        groups_from(s, open, close, i, depth, x) == groups_from(s, open, close, i, depth, y),
    decreases s.len() - i,
{
    if 0 <= i < s.len() {
        if s[i] == open {
            if depth < 0 {
                lemma_groups_closed(s, open, close, i + 1, depth + 1, x, y);
            }
        } else if s[i] == close {
            lemma_groups_closed(s, open, close, i + 1, depth - 1, x, y);
        } else {
            lemma_groups_closed(s, open, close, i + 1, depth, x, y);
        }
    }
}

proof fn lemma_flag_word(g: Seq<char>)
    ensures
        flag_word(g) == "b"@ <==> text::lower_seq(g) == "b"@ || text::begins(
            text::lower_seq(g),
            "b "@,
        ),
        g == "!"@ ==> flag_word(g) == "!"@,
{
    reveal_strlit("b");
    reveal_strlit("b ");
    reveal_strlit("!");
    let l = text::lower_seq(g);
    let i = text::first_index(g, ' ');
    text::lemma_first_index(g, ' ');
    assert(l.len() == g.len());
    assert(flag_word(g).len() == i);
    if flag_word(g) == "b"@ {
        assert("b"@.len() == 1);
        assert(flag_word(g)[0] == l[0]);
        if g.len() == 1 {
            assert(l =~= "b"@);
        } else {
            assert(l.take(2) =~= "b "@);
        }
    }
    if l == "b"@ {
        assert("b"@.len() == 1);
        assert(l[0] == 'b');
        text::lemma_first_index_is(g, ' ', 1);
        assert(flag_word(g) =~= "b"@);
    }
    if text::begins(l, "b "@) {
        assert(l.take(2)[0] == 'b' && l.take(2)[1] == ' ');
        assert(l[0] == 'b' && l[1] == ' ');
        assert(g[1] == ' ');
        text::lemma_first_index_is(g, ' ', 1);
        assert(flag_word(g) =~= "b"@);
    }
    if g == "!"@ {
        assert(g[0] == '!');
        text::lemma_first_index_is(g, ' ', 1);
        assert(flag_word(g) =~= "!"@);
    }
}

/// Whether a text is one of the dump flags that names carry in brackets.
spec fn known_flag(f: Seq<char>) -> bool {
    f == "a"@ || f == "b"@ || f == "cr"@ || f == "f"@ || f == "h"@ || f == "m"@ || f == "o"@ || f
        == "p"@ || f == "t"@ || f == "tr"@ || f == "u"@ || f == "v"@
}

/// Whether the first word of one of some texts is `f`, case aside.
spec fn word_among(contents: Seq<Seq<char>>, f: Seq<char>) -> bool {
    exists|i: int| 0 <= i < contents.len() && flag_word(#[trigger] contents[i]) == f
}

proof fn lemma_word_push(contents: Seq<Seq<char>>, f: Seq<char>)
    requires
        contents.len() > 0,
    ensures
        word_among(contents, f) <==> word_among(contents.drop_last(), f) || flag_word(
            contents.last(),
        ) == f,
{
    let rest = contents.drop_last();
    if word_among(rest, f) {
        let i = choose|i: int| 0 <= i < rest.len() && flag_word(#[trigger] rest[i]) == f;
        assert(contents[i] == rest[i]);
    }
    if flag_word(contents.last()) == f {
        assert(contents[contents.len() - 1] == contents.last());
    }
    if word_among(contents, f) && flag_word(contents.last()) != f {
        let i = choose|i: int| 0 <= i < contents.len() && flag_word(#[trigger] contents[i]) == f;
        assert(rest[i] == contents[i]);
    }
}

proof fn lemma_bracket_flags(p: ParsedView, contents: Seq<Seq<char>>, f: Seq<char>)
    ensures
        with_brackets(p, contents).flags.contains(f) <==> p.flags.contains(f) || (known_flag(f)
            && word_among(contents, f)),
        with_brackets(p, contents).bad_dump <==> p.bad_dump || word_among(contents, "b"@),
        with_brackets(p, contents).verified <==> p.verified || contents.contains("!"@),
        with_brackets(p, contents).is_prerelease == p.is_prerelease,
        with_brackets(p, contents).regions == p.regions,
        with_brackets(p, contents).languages == p.languages,
        with_brackets(p, contents).revision == p.revision,
    decreases contents.len(),
{
    if contents.len() > 0 {
        let rest = contents.drop_last();
        let last = contents.last();
        let before = with_brackets(p, rest);
        lemma_bracket_flags(p, rest, f);
        lemma_word_push(contents, f);
        lemma_word_push(contents, "b"@);
        lemma_flag_word(last);
        assert(contents =~= rest.push(last));
        assert(contents.contains("!"@) <==> rest.contains("!"@) || last == "!"@) by {
            if rest.contains("!"@) {
                let i = choose|i: int| 0 <= i < rest.len() && rest[i] == "!"@;
                assert(contents[i] == "!"@);
            }
            if last == "!"@ {
                assert(contents[contents.len() - 1] == "!"@);
            }
            if contents.contains("!"@) && last != "!"@ {
                let i = choose|i: int| 0 <= i < contents.len() && contents[i] == "!"@;
                assert(rest[i] == "!"@);
            }
        }
        reveal_strlit("!");
        reveal_strlit("a");
        reveal_strlit("b");
        reveal_strlit("cr");
        reveal_strlit("f");
        reveal_strlit("h");
        reveal_strlit("m");
        reveal_strlit("o");
        reveal_strlit("p");
        reveal_strlit("t");
        reveal_strlit("tr");
        reveal_strlit("u");
        reveal_strlit("v");
        assert("!"@[0] == '!');
        assert("a"@[0] == 'a' && "b"@[0] == 'b' && "f"@[0] == 'f' && "h"@[0] == 'h');
        assert("m"@[0] == 'm' && "o"@[0] == 'o' && "p"@[0] == 'p' && "t"@[0] == 't');
        assert("u"@[0] == 'u' && "v"@[0] == 'v');
        assert(!known_flag("!"@));
    } else {
        assert(!contents.contains("!"@));
    }
}

proof fn lemma_parens_keep(p: ParsedView, contents: Seq<Seq<char>>)
    ensures
        with_parens(p, contents).flags == p.flags,
        with_parens(p, contents).bad_dump == p.bad_dump,
        with_parens(p, contents).verified == p.verified,
    decreases contents.len(),
{
    if contents.len() > 0 {
        lemma_parens_keep(p, contents.drop_last());
    }
}

/// The flags of a name are the first words of its bracketed texts, case aside, as
/// far as these are dump flags; a bad dump is one flagged `b`, and a verified dump
/// one with `[!]`.
pub proof fn law_flags_are_bracketed_words(name: Seq<char>, f: Seq<char>)
    ensures
        ({
            let brackets = groups(name, '[', ']');
            let p = parsed(name);
            &&& p.flags.contains(f) <==> (f == "a"@ || f == "b"@ || f == "cr"@ || f == "f"@ || f
                == "h"@ || f == "m"@ || f == "o"@ || f == "p"@ || f == "t"@ || f == "tr"@ || f
                == "u"@ || f == "v"@) && exists|i: int|
                0 <= i < brackets.len() && flag_word(#[trigger] brackets[i]) == f
            &&& p.bad_dump <==> p.flags.contains("b"@)
            &&& p.verified <==> brackets.contains("!"@)
        }),
{
    let start = bare(title_of(name));
    let parens = groups(name, '(', ')');
    let middle = with_parens(start, parens);
    lemma_parens_keep(start, parens);
    lemma_bracket_flags(middle, groups(name, '[', ']'), f);
    lemma_bracket_flags(middle, groups(name, '[', ']'), "b"@);
    assert(word_among(groups(name, '[', ']'), f) == exists|i: int|
        0 <= i < groups(name, '[', ']').len() && flag_word(#[trigger] groups(name, '[', ']')[i])
            == f);
}

/// The first word of a flag alone, or of one that a space and more follow, is the
/// flag in lower case.
pub proof fn law_flag_is_the_first_word(f: Seq<char>, more: Seq<char>)
    requires
        !f.contains(' '),
    ensures
        flag_word(f) == text::lower_seq(f),
        flag_word(f.push(' ') + more) == text::lower_seq(f),
        forall|i: int| 0 <= i < f.len() ==> #[trigger] text::lower_seq(f)[i] == text::lower(f[i]),
{
    assert forall|j: int| 0 <= j < f.len() implies f[j] != ' ' by {
        assert(f.contains(f[j]));
    }
    text::lemma_first_index_is(f, ' ', f.len() as int);
    assert(f.take(f.len() as int) =~= f);
    let g = f.push(' ') + more;
    text::lemma_first_index_is(g, ' ', f.len() as int);
    assert(g.take(f.len() as int) =~= f);
}

/// A name of a region, in whatever case, stands for that region, as it is spelt:
/// only case is ever put right.
pub proof fn law_regions_are_spelt_as_named(l: Seq<char>)
    ensures
        region_named(l) matches Some(r) ==> text::lower_seq(r) == l,
        language_named(l) matches Some(r) ==> text::lower_seq(r) == l,
{
    lemma_region_spelling(l);
    lemma_language_spelling(l);
}

proof fn lemma_region_spelling(l: Seq<char>)
    ensures
        region_named(l) matches Some(r) ==> text::lower_seq(r) == l,
{
    if l == "world"@ {
        reveal_strlit("world");
        reveal_strlit("World");
        assert(text::lower_seq("World"@) =~= "world"@);
    } else if l == "usa"@ {
        reveal_strlit("usa");
        reveal_strlit("USA");
        assert(text::lower_seq("USA"@) =~= "usa"@);
    } else if l == "europe"@ {
        reveal_strlit("europe");
        reveal_strlit("Europe");
        assert(text::lower_seq("Europe"@) =~= "europe"@);
    } else if l == "japan"@ {
        reveal_strlit("japan");
        reveal_strlit("Japan");
        assert(text::lower_seq("Japan"@) =~= "japan"@);
    } else if l == "australia"@ {
        reveal_strlit("australia");
        reveal_strlit("Australia");
        assert(text::lower_seq("Australia"@) =~= "australia"@);
    } else if l == "brazil"@ {
        reveal_strlit("brazil");
        reveal_strlit("Brazil");
        assert(text::lower_seq("Brazil"@) =~= "brazil"@);
    } else if l == "canada"@ {
        reveal_strlit("canada");
        reveal_strlit("Canada");
        assert(text::lower_seq("Canada"@) =~= "canada"@);
    } else if l == "china"@ {
        reveal_strlit("china");
        reveal_strlit("China");
        assert(text::lower_seq("China"@) =~= "china"@);
    } else if l == "france"@ {
        reveal_strlit("france");
        reveal_strlit("France");
        assert(text::lower_seq("France"@) =~= "france"@);
    } else if l == "germany"@ {
        reveal_strlit("germany");
        reveal_strlit("Germany");
        assert(text::lower_seq("Germany"@) =~= "germany"@);
    } else if l == "hong kong"@ {
        reveal_strlit("hong kong");
        reveal_strlit("Hong Kong");
        assert(text::lower_seq("Hong Kong"@) =~= "hong kong"@);
    } else if l == "italy"@ {
        reveal_strlit("italy");
        reveal_strlit("Italy");
        assert(text::lower_seq("Italy"@) =~= "italy"@);
    } else if l == "korea"@ {
        reveal_strlit("korea");
        reveal_strlit("Korea");
        assert(text::lower_seq("Korea"@) =~= "korea"@);
    } else if l == "netherlands"@ {
        reveal_strlit("netherlands");
        reveal_strlit("Netherlands");
        assert(text::lower_seq("Netherlands"@) =~= "netherlands"@);
    } else if l == "russia"@ {
        reveal_strlit("russia");
        reveal_strlit("Russia");
        assert(text::lower_seq("Russia"@) =~= "russia"@);
    } else if l == "spain"@ {
        reveal_strlit("spain");
        reveal_strlit("Spain");
        assert(text::lower_seq("Spain"@) =~= "spain"@);
    } else if l == "sweden"@ {
        reveal_strlit("sweden");
        reveal_strlit("Sweden");
        assert(text::lower_seq("Sweden"@) =~= "sweden"@);
    } else if l == "taiwan"@ {
        reveal_strlit("taiwan");
        reveal_strlit("Taiwan");
        assert(text::lower_seq("Taiwan"@) =~= "taiwan"@);
    } else if l == "uk"@ {
        reveal_strlit("uk");
        reveal_strlit("UK");
        assert(text::lower_seq("UK"@) =~= "uk"@);
    } else if l == "asia"@ {
        reveal_strlit("asia");
        reveal_strlit("Asia");
        assert(text::lower_seq("Asia"@) =~= "asia"@);
    } else if l == "scandinavia"@ {
        reveal_strlit("scandinavia");
        reveal_strlit("Scandinavia");
        assert(text::lower_seq("Scandinavia"@) =~= "scandinavia"@);
    }
}

proof fn lemma_language_spelling(l: Seq<char>)
    ensures
        language_named(l) matches Some(r) ==> text::lower_seq(r) == l,
{
    if l == "en"@ {
        reveal_strlit("en");
        reveal_strlit("En");
        assert(text::lower_seq("En"@) =~= "en"@);
    } else if l == "fr"@ {
        reveal_strlit("fr");
        reveal_strlit("Fr");
        assert(text::lower_seq("Fr"@) =~= "fr"@);
    } else if l == "de"@ {
        reveal_strlit("de");
        reveal_strlit("De");
        assert(text::lower_seq("De"@) =~= "de"@);
    } else if l == "es"@ {
        reveal_strlit("es");
        reveal_strlit("Es");
        assert(text::lower_seq("Es"@) =~= "es"@);
    } else if l == "it"@ {
        reveal_strlit("it");
        reveal_strlit("It");
        assert(text::lower_seq("It"@) =~= "it"@);
    } else if l == "ja"@ {
        reveal_strlit("ja");
        reveal_strlit("Ja");
        assert(text::lower_seq("Ja"@) =~= "ja"@);
    } else if l == "pt"@ {
        reveal_strlit("pt");
        reveal_strlit("Pt");
        assert(text::lower_seq("Pt"@) =~= "pt"@);
    } else if l == "zh"@ {
        reveal_strlit("zh");
        reveal_strlit("Zh");
        assert(text::lower_seq("Zh"@) =~= "zh"@);
    } else if l == "ko"@ {
        reveal_strlit("ko");
        reveal_strlit("Ko");
        assert(text::lower_seq("Ko"@) =~= "ko"@);
    } else if l == "nl"@ {
        reveal_strlit("nl");
        reveal_strlit("Nl");
        assert(text::lower_seq("Nl"@) =~= "nl"@);
    } else if l == "sv"@ {
        reveal_strlit("sv");
        reveal_strlit("Sv");
        assert(text::lower_seq("Sv"@) =~= "sv"@);
    } else if l == "ru"@ {
        reveal_strlit("ru");
        reveal_strlit("Ru");
        assert(text::lower_seq("Ru"@) =~= "ru"@);
    } else if l == "pl"@ {
        reveal_strlit("pl");
        reveal_strlit("Pl");
        assert(text::lower_seq("Pl"@) =~= "pl"@);
    }
}

/// Lower case neither makes nor takes away a character that has no case.
proof fn lemma_lower_keeps(s: Seq<char>, c: char)
    requires
        c == ',' || c == '-',
    ensures
        s.contains(c) <==> text::lower_seq(s).contains(c),
{
    let l = text::lower_seq(s);
    if s.contains(c) {
        let i = choose|i: int| 0 <= i < s.len() && s[i] == c;
        assert(l[i] == c);
    }
    if l.contains(c) {
        let i = choose|i: int| 0 <= i < l.len() && l[i] == c;
        assert(s[i] == c);
    }
}

/// What marks a prerelease names no region or language, marks no revision, and holds
/// no separator.
proof fn lemma_prerelease_words(l: Seq<char>)
    requires
        prerelease_mark(l),
    ensures
        region_named(l) is None,
        language_named(l) is None,
        !revision_mark(l),
        !l.contains(','),
        !l.contains('-'),
        l.len() > 2,
{
    reveal_strlit("beta");
    reveal_strlit("proto");
    reveal_strlit("prototype");
    reveal_strlit("demo");
    reveal_strlit("sample");
    reveal_strlit("preview");
    reveal_strlit("world");
    reveal_strlit("usa");
    reveal_strlit("europe");
    reveal_strlit("japan");
    reveal_strlit("australia");
    reveal_strlit("brazil");
    reveal_strlit("canada");
    reveal_strlit("china");
    reveal_strlit("france");
    reveal_strlit("germany");
    reveal_strlit("hong kong");
    reveal_strlit("italy");
    reveal_strlit("korea");
    reveal_strlit("netherlands");
    reveal_strlit("russia");
    reveal_strlit("spain");
    reveal_strlit("sweden");
    reveal_strlit("taiwan");
    reveal_strlit("uk");
    reveal_strlit("asia");
    reveal_strlit("scandinavia");
    reveal_strlit("en");
    reveal_strlit("fr");
    reveal_strlit("de");
    reveal_strlit("es");
    reveal_strlit("it");
    reveal_strlit("ja");
    reveal_strlit("pt");
    reveal_strlit("zh");
    reveal_strlit("ko");
    reveal_strlit("nl");
    reveal_strlit("sv");
    reveal_strlit("ru");
    reveal_strlit("pl");
    reveal_strlit("rev ");
    reveal_strlit("v");
    reveal_strlit("version");
    assert("beta"@.len() == 4);
    assert("proto"@.len() == 5);
    assert("prototype"@.len() == 9);
    assert("demo"@.len() == 4);
    assert("sample"@.len() == 6);
    assert("preview"@.len() == 7);
    assert("world"@.len() == 5);
    assert("usa"@.len() == 3);
    assert("europe"@.len() == 6);
    assert("japan"@.len() == 5);
    assert("australia"@.len() == 9);
    assert("brazil"@.len() == 6);
    assert("canada"@.len() == 6);
    assert("china"@.len() == 5);
    assert("france"@.len() == 6);
    assert("germany"@.len() == 7);
    assert("hong kong"@.len() == 9);
    assert("italy"@.len() == 5);
    assert("korea"@.len() == 5);
    assert("netherlands"@.len() == 11);
    assert("russia"@.len() == 6);
    assert("spain"@.len() == 5);
    assert("sweden"@.len() == 6);
    assert("taiwan"@.len() == 6);
    assert("uk"@.len() == 2);
    assert("asia"@.len() == 4);
    assert("scandinavia"@.len() == 11);
    assert("en"@.len() == 2);
    assert("fr"@.len() == 2);
    assert("de"@.len() == 2);
    assert("es"@.len() == 2);
    assert("it"@.len() == 2);
    assert("ja"@.len() == 2);
    assert("pt"@.len() == 2);
    assert("zh"@.len() == 2);
    assert("ko"@.len() == 2);
    assert("nl"@.len() == 2);
    assert("sv"@.len() == 2);
    assert("ru"@.len() == 2);
    assert("pl"@.len() == 2);
    assert("rev "@.len() == 4);
    assert("v"@.len() == 1);
    assert("version"@.len() == 7);
    if l == "beta"@ {
        assert("asia"@[0] != l[0]);
        assert(l[0] == 'b');
        assert(l.take(1)[0] == l[0] && l.take(4)[0] == l[0]);
    }
    if l == "proto"@ {
        assert("world"@[0] != l[0]);
        assert("japan"@[0] != l[0]);
        assert("china"@[0] != l[0]);
        assert("italy"@[0] != l[0]);
        assert("korea"@[0] != l[0]);
        assert("spain"@[0] != l[0]);
        assert(l[0] == 'p');
        assert(l.take(1)[0] == l[0] && l.take(4)[0] == l[0]);
    }
    if l == "prototype"@ {
        assert("australia"@[0] != l[0]);
        assert("hong kong"@[0] != l[0]);
        assert(l[0] == 'p');
        assert(l.take(1)[0] == l[0] && l.take(4)[0] == l[0]);
        assert(l.take(7)[0] == l[0]);
    }
    if l == "demo"@ {
        assert("asia"@[0] != l[0]);
        assert(l[0] == 'd');
        assert(l.take(1)[0] == l[0] && l.take(4)[0] == l[0]);
    }
    if l == "sample"@ {
        assert("europe"@[0] != l[0]);
        assert("brazil"@[0] != l[0]);
        assert("canada"@[0] != l[0]);
        assert("france"@[0] != l[0]);
        assert("russia"@[0] != l[0]);
        assert("sweden"@[1] != l[1]);
        assert("taiwan"@[0] != l[0]);
        assert(l[0] == 's');
        assert(l.take(1)[0] == l[0] && l.take(4)[0] == l[0]);
    }
    if l == "preview"@ {
        assert("germany"@[0] != l[0]);
        assert(l[0] == 'p');
        assert(l.take(1)[0] == l[0] && l.take(4)[0] == l[0]);
        assert(l.take(7)[0] == l[0]);
    }
    assert("rev "@[0] == 'r' && "v"@[0] == 'v' && "version"@[0] == 'v');
}

/// Whether one of some texts marks a prerelease, case aside.
spec fn mark_among(contents: Seq<Seq<char>>) -> bool {
    exists|i: int|
        0 <= i < contents.len() && prerelease_mark(text::lower_seq(#[trigger] contents[i]))
}

proof fn lemma_parens_prerelease(p: ParsedView, contents: Seq<Seq<char>>)
    ensures
        with_parens(p, contents).is_prerelease <==> p.is_prerelease || mark_among(contents),
    decreases contents.len(),
{
    if contents.len() > 0 {
        let rest = contents.drop_last();
        let last = contents.last();
        let before = with_parens(p, rest);
        lemma_parens_prerelease(p, rest);
        assert(mark_among(contents) <==> mark_among(rest) || prerelease_mark(
            text::lower_seq(last),
        )) by {
            if mark_among(rest) {
                let i = choose|i: int|
                    0 <= i < rest.len() && prerelease_mark(text::lower_seq(#[trigger] rest[i]));
                assert(contents[i] == rest[i]);
            }
            if prerelease_mark(text::lower_seq(last)) {
                assert(contents[contents.len() - 1] == last);
            }
            if mark_among(contents) && !prerelease_mark(text::lower_seq(last)) {
                let i = choose|i: int|
                    0 <= i < contents.len() && prerelease_mark(
                        text::lower_seq(#[trigger] contents[i]),
                    );
                assert(rest[i] == contents[i]);
            }
        }
        if prerelease_mark(text::lower_seq(last)) {
            lemma_prerelease_words(text::lower_seq(last));
            lemma_lower_keeps(last, ',');
            lemma_lower_keeps(last, '-');
            assert(text::lower_seq(last).len() == last.len());
        }
    }
}

/// A name is a prerelease exactly where one of its parenthesised texts says so:
/// beta, proto, prototype, demo, sample or preview, in whatever case.
pub proof fn law_prereleases_say_so(name: Seq<char>)
    ensures
        ({
            let parens = groups(name, '(', ')');
            parsed(name).is_prerelease <==> exists|i: int|
                0 <= i < parens.len() && ({
                    let l = text::lower_seq(#[trigger] parens[i]);
                    l == "beta"@ || l == "proto"@ || l == "prototype"@ || l == "demo"@ || l
                        == "sample"@ || l == "preview"@
                })
        }),
{
    let start = bare(title_of(name));
    let parens = groups(name, '(', ')');
    lemma_parens_prerelease(start, parens);
    lemma_bracket_flags(with_parens(start, parens), groups(name, '[', ']'), "b"@);
    assert(mark_among(parens) == exists|i: int|
        0 <= i < parens.len() && prerelease_mark(text::lower_seq(#[trigger] parens[i])));
}

/// A text that names a region, in whatever case, adds that region after those found
/// before it, and does nothing else; a text that adds a region otherwise holds a
/// comma, a hyphen or two capitals; no text takes a region away.
pub proof fn law_named_region_is_found(p: ParsedView, content: Seq<char>)
    ensures
        region_named(text::lower_seq(content)) matches Some(r) ==> with_paren(p, content)
            == (ParsedView { regions: p.regions.push(r), ..p }),
        p.regions.len() <= with_paren(p, content).regions.len(),
        with_paren(p, content).regions.take(p.regions.len() as int) == p.regions,
        with_paren(p, content).regions.len() > p.regions.len() ==> region_named(
            text::lower_seq(content),
        ) is Some || content.contains(',') || content.contains('-') || (content.len() == 2
            && 'A' <= content[0] <= 'Z' && 'A' <= content[1] <= 'Z'),
{
    assert(p.regions.take(p.regions.len() as int) =~= p.regions);
    let q = with_paren(p, content);
    assert(q.regions.take(p.regions.len() as int) =~= p.regions);
}

/// Every part of a list that names a region adds that region, in order, and no other
/// part adds any; so it is with names between commas and codes between dashes.
pub proof fn law_listed_regions_are_those_named(parts: Seq<Seq<char>>, part: Seq<char>)
    ensures
        listed_regions(parts.push(part)) == (match region_named(
            text::lower_seq(text::trim(part)),
        ) {
            Some(r) => listed_regions(parts).push(r),
            None => listed_regions(parts),
        }),
        coded_regions(parts.push(part)) == (if part.len() == 2 && 'A' <= part[0] <= 'Z' && 'A'
            <= part[1] <= 'Z' && iso_region(part) is Some {
            coded_regions(parts).push(iso_region(part)->0)
        } else {
            coded_regions(parts)
        }),
        listed_regions(Seq::empty()) == Seq::<Seq<char>>::empty(),
        coded_regions(Seq::empty()) == Seq::<Seq<char>>::empty(),
{
    assert(parts.push(part).drop_last() =~= parts);
}

/// A parenthesis with a list of regions adds those of the list to the ones found
/// before and changes nothing else; a list of codes is one of at most eight bytes.
pub proof fn law_region_lists_add_their_regions(p: ParsedView, content: Seq<char>)
    requires
        region_named(text::lower_seq(content)) is None,
    ensures
        content.contains(',') && listed_regions(text::split(content, ',')).len() > 0 ==> with_paren(
            p,
            content,
        ) == (ParsedView {
            regions: p.regions + listed_regions(text::split(content, ',')),
            ..p
        }),
        !content.contains(',') && content.contains('-') && vstd::utf8::encode_utf8(content).len()
            <= 8 && coded_regions(text::split(content, '-')).len() > 0 ==> with_paren(p, content)
            == (ParsedView { regions: p.regions + coded_regions(text::split(content, '-')), ..p }),
        !content.contains(',') && content.contains('-') && vstd::utf8::encode_utf8(content).len()
            > 8 ==> with_paren(p, content).regions == p.regions,
{
    text::law_utf8_length_is_of_the_encoding(content);
    if content.contains('-') && !content.contains(',') {
        assert(coded_region(content) is None) by {
            if content.len() == 2 && upper(content[0]) && upper(content[1]) {
                let i = choose|i: int| 0 <= i < content.len() && content[i] == '-';
                assert(upper(content[i]));
            }
        }
    }
}

/// A language is known by two letters in whatever case and kept with a capital; a
/// parenthesis that names one, and is no country code, adds it and changes nothing
/// else.
pub proof fn law_languages_are_known_by_two_letters(p: ParsedView, content: Seq<char>)
    ensures
        language_named(text::lower_seq(content)) matches Some(n) ==> {
            &&& text::lower_seq(n) == text::lower_seq(content)
            &&& n.len() == 2 && content.len() == 2
            &&& 'A' <= n[0] <= 'Z' && 'a' <= n[1] <= 'z'
            &&& !('A' <= content[0] <= 'Z' && 'A' <= content[1] <= 'Z') ==> with_paren(p, content)
                == (ParsedView { languages: p.languages.push(n), ..p })
        },
        language_named("en"@) is Some && language_named("fr"@) is Some && language_named("de"@)
            is Some && language_named("es"@) is Some && language_named("it"@) is Some
            && language_named("ja"@) is Some && language_named("pt"@) is Some && language_named(
            "zh"@,
        ) is Some && language_named("ko"@) is Some && language_named("nl"@) is Some
            && language_named("sv"@) is Some && language_named("ru"@) is Some && language_named(
            "pl"@,
        ) is Some,
{
    let l = text::lower_seq(content);
    lemma_language_letters(l);
    if language_named(l) is Some {
        assert(l.len() == 2);
        if region_named(l) is Some {
            lemma_no_two_letter_region(l);
        }
        assert forall|i: int| 0 <= i < content.len() implies content[i] != ',' && content[i]
            != '-' by {
            assert('a' <= l[i] <= 'z');
            assert(l[i] == text::lower(content[i]));
        }
        assert(!content.contains(',') && !content.contains('-'));
    }
}

proof fn lemma_language_letters(l: Seq<char>)
    ensures
        language_named(l) matches Some(n) ==> l.len() == 2 && n.len() == 2 && text::lower_seq(n)
            == l && 'A' <= n[0] <= 'Z' && 'a' <= n[1] <= 'z' && 'a' <= l[0] <= 'z' && 'a' <= l[1]
            <= 'z' && l != "uk"@,
{
    reveal_strlit("en");
    reveal_strlit("En");
    reveal_strlit("fr");
    reveal_strlit("Fr");
    reveal_strlit("de");
    reveal_strlit("De");
    reveal_strlit("es");
    reveal_strlit("Es");
    reveal_strlit("it");
    reveal_strlit("It");
    reveal_strlit("ja");
    reveal_strlit("Ja");
    reveal_strlit("pt");
    reveal_strlit("Pt");
    reveal_strlit("zh");
    reveal_strlit("Zh");
    reveal_strlit("ko");
    reveal_strlit("Ko");
    reveal_strlit("nl");
    reveal_strlit("Nl");
    reveal_strlit("sv");
    reveal_strlit("Sv");
    reveal_strlit("ru");
    reveal_strlit("Ru");
    reveal_strlit("pl");
    reveal_strlit("Pl");
    reveal_strlit("uk");
    assert("uk"@[0] == 'u');
    if language_named(l) is Some {
        let n = language_named(l)->0;
        assert(l.len() == 2 && n.len() == 2);
        assert(text::lower_seq(n) =~= l);
    }
}

/// No region but the United Kingdom goes by two letters.
proof fn lemma_no_two_letter_region(l: Seq<char>)
    requires
        l.len() == 2,
        region_named(l) is Some,
    ensures
        l == "uk"@,
{
    reveal_strlit("world");
    reveal_strlit("usa");
    reveal_strlit("europe");
    reveal_strlit("japan");
    reveal_strlit("australia");
    reveal_strlit("brazil");
    reveal_strlit("canada");
    reveal_strlit("china");
    reveal_strlit("france");
    reveal_strlit("germany");
    reveal_strlit("hong kong");
    reveal_strlit("italy");
    reveal_strlit("korea");
    reveal_strlit("netherlands");
    reveal_strlit("russia");
    reveal_strlit("spain");
    reveal_strlit("sweden");
    reveal_strlit("taiwan");
    reveal_strlit("uk");
    reveal_strlit("asia");
    reveal_strlit("scandinavia");
    assert("world"@.len() == 5);
    assert("usa"@.len() == 3);
    assert("europe"@.len() == 6);
    assert("japan"@.len() == 5);
    assert("australia"@.len() == 9);
    assert("brazil"@.len() == 6);
    assert("canada"@.len() == 6);
    assert("china"@.len() == 5);
    assert("france"@.len() == 6);
    assert("germany"@.len() == 7);
    assert("hong kong"@.len() == 9);
    assert("italy"@.len() == 5);
    assert("korea"@.len() == 5);
    assert("netherlands"@.len() == 11);
    assert("russia"@.len() == 6);
    assert("spain"@.len() == 5);
    assert("sweden"@.len() == 6);
    assert("taiwan"@.len() == 6);
    assert("asia"@.len() == 4);
    assert("scandinavia"@.len() == 11);
}

/// The revision of a name is one of its parenthesised texts, which begins, case
/// aside, with `rev` and a space or with `v`; and where there is such a text, with
/// no comma or hyphen and more than two characters, the name has a revision.
pub proof fn law_revisions_say_so(name: Seq<char>)
    ensures
        ({
            let parens = groups(name, '(', ')');
            &&& parsed(name).revision matches Some(r) ==> parens.contains(r) && (text::begins(
                text::lower_seq(r),
                "rev "@,
            ) || text::lower_seq(r)[0] == 'v')
            &&& (exists|i: int| 0 <= i < parens.len() && plain_revision(#[trigger] parens[i]))
                ==> parsed(name).revision is Some
        }),
{
    let start = bare(title_of(name));
    let parens = groups(name, '(', ')');
    lemma_parens_revision(start, parens);
    lemma_bracket_flags(with_parens(start, parens), groups(name, '[', ']'), "b"@);
}

/// Whether a text says of a revision and cannot be taken for anything else.
pub open spec fn plain_revision(g: Seq<char>) -> bool {
    &&& g.len() > 2
    &&& !g.contains(',')
    &&& !g.contains('-')
    &&& text::begins(text::lower_seq(g), "rev "@) || text::lower_seq(g)[0] == 'v'
}

proof fn lemma_plain_revision(g: Seq<char>)
    requires
        plain_revision(g),
    ensures
        region_named(text::lower_seq(g)) is None,
        language_named(text::lower_seq(g)) is None,
        revision_mark(text::lower_seq(g)),
{
    let l = text::lower_seq(g);
    assert(l.len() == g.len());
    reveal_strlit("world");
    reveal_strlit("usa");
    reveal_strlit("europe");
    reveal_strlit("japan");
    reveal_strlit("australia");
    reveal_strlit("brazil");
    reveal_strlit("canada");
    reveal_strlit("china");
    reveal_strlit("france");
    reveal_strlit("germany");
    reveal_strlit("hong kong");
    reveal_strlit("italy");
    reveal_strlit("korea");
    reveal_strlit("netherlands");
    reveal_strlit("russia");
    reveal_strlit("spain");
    reveal_strlit("sweden");
    reveal_strlit("taiwan");
    reveal_strlit("uk");
    reveal_strlit("asia");
    reveal_strlit("scandinavia");
    reveal_strlit("en");
    reveal_strlit("fr");
    reveal_strlit("de");
    reveal_strlit("es");
    reveal_strlit("it");
    reveal_strlit("ja");
    reveal_strlit("pt");
    reveal_strlit("zh");
    reveal_strlit("ko");
    reveal_strlit("nl");
    reveal_strlit("sv");
    reveal_strlit("ru");
    reveal_strlit("pl");
    reveal_strlit("rev ");
    reveal_strlit("v");
    assert("world"@.len() == 5);
    assert("usa"@.len() == 3);
    assert("europe"@.len() == 6);
    assert("japan"@.len() == 5);
    assert("australia"@.len() == 9);
    assert("brazil"@.len() == 6);
    assert("canada"@.len() == 6);
    assert("china"@.len() == 5);
    assert("france"@.len() == 6);
    assert("germany"@.len() == 7);
    assert("hong kong"@.len() == 9);
    assert("italy"@.len() == 5);
    assert("korea"@.len() == 5);
    assert("netherlands"@.len() == 11);
    assert("russia"@.len() == 6);
    assert("spain"@.len() == 5);
    assert("sweden"@.len() == 6);
    assert("taiwan"@.len() == 6);
    assert("uk"@.len() == 2);
    assert("asia"@.len() == 4);
    assert("scandinavia"@.len() == 11);
    assert("en"@.len() == 2);
    assert("fr"@.len() == 2);
    assert("de"@.len() == 2);
    assert("es"@.len() == 2);
    assert("it"@.len() == 2);
    assert("ja"@.len() == 2);
    assert("pt"@.len() == 2);
    assert("zh"@.len() == 2);
    assert("ko"@.len() == 2);
    assert("nl"@.len() == 2);
    assert("sv"@.len() == 2);
    assert("ru"@.len() == 2);
    assert("pl"@.len() == 2);
    assert("rev "@.len() == 4);
    assert("v"@.len() == 1);
    if text::begins(l, "rev "@) {
        assert(l.take(4)[0] == l[0] && l.take(4)[1] == l[1]);
        assert(l[0] == 'r' && l[1] == 'e');
    } else {
        assert(l.take(1) =~= "v"@);
    }
    assert("world"@[0] == 'w');
    assert("usa"@[0] == 'u');
    assert("europe"@[0] == 'e');
    assert("japan"@[0] == 'j');
    assert("australia"@[0] == 'a');
    assert("brazil"@[0] == 'b');
    assert("canada"@[0] == 'c');
    assert("china"@[0] == 'c');
    assert("france"@[0] == 'f');
    assert("germany"@[0] == 'g');
    assert("hong kong"@[0] == 'h');
    assert("italy"@[0] == 'i');
    assert("korea"@[0] == 'k');
    assert("netherlands"@[0] == 'n');
    assert("russia"@[0] == 'r' && "russia"@[1] == 'u');
    assert("spain"@[0] == 's');
    assert("sweden"@[0] == 's');
    assert("taiwan"@[0] == 't');
    assert("uk"@[0] == 'u');
    assert("asia"@[0] == 'a');
    assert("scandinavia"@[0] == 's');
}

proof fn lemma_parens_revision(p: ParsedView, contents: Seq<Seq<char>>)
    ensures
        with_parens(p, contents).revision matches Some(r) ==> p.revision == Some(r) || (
        contents.contains(r) && (text::begins(text::lower_seq(r), "rev "@) || text::lower_seq(r)[0]
            == 'v')),
        p.revision is Some ==> with_parens(p, contents).revision is Some,
        (exists|i: int| 0 <= i < contents.len() && plain_revision(#[trigger] contents[i]))
            ==> with_parens(p, contents).revision is Some,
    decreases contents.len(),
{
    if contents.len() > 0 {
        let rest = contents.drop_last();
        let last = contents.last();
        lemma_parens_revision(p, rest);
        assert(contents[contents.len() - 1] == last);
        if with_parens(p, rest).revision is Some {
            let r = with_parens(p, rest).revision->0;
            if rest.contains(r) {
                let i = choose|i: int| 0 <= i < rest.len() && rest[i] == r;
                assert(contents[i] == r);
            }
        }
        if revision_mark(text::lower_seq(last)) {
            let l = text::lower_seq(last);
            reveal_strlit("v");
            reveal_strlit("version");
            assert("v"@[0] == 'v' && "version"@[0] == 'v');
            if text::begins(l, "v"@) {
                assert(l.take(1)[0] == l[0]);
            }
            if text::begins(l, "version"@) {
                assert(l.take(7)[0] == l[0]);
            }
        }
        if exists|i: int| 0 <= i < contents.len() && plain_revision(#[trigger] contents[i]) {
            let i = choose|i: int| 0 <= i < contents.len() && plain_revision(#[trigger] contents[i]);
            if i < rest.len() {
                assert(rest[i] == contents[i]);
            } else {
                lemma_plain_revision(last);
            }
        }
    }
}

/// The title of a name is what stands before its first parenthesis or bracket,
/// without the white space round it; variants that differ after that share it.
pub proof fn law_title_stands_before_marks(t: Seq<char>, mark: char, rest: Seq<char>)
    requires
        !t.contains('('),
        !t.contains('['),
        mark == '(' || mark == '[',
    ensures
        title_of(t.push(mark) + rest) == text::trim(t),
        title_of(t) == text::trim(t),
{
    let n = t.len() as int;
    let s = t.push(mark) + rest;
    assert forall|j: int| 0 <= j < n implies t[j] != '(' && t[j] != '[' by {
        assert(t.contains(t[j]));
    }
    text::lemma_first_index_is(t, '(', n);
    text::lemma_first_index_is(t, '[', n);
    assert(t.take(n) =~= t);
    assert(s[n] == mark);
    text::lemma_first_index(s, '(');
    text::lemma_first_index(s, '[');
    text::lemma_first_index_is(s, mark, n);
    let other = if mark == '(' {
        '['
    } else {
        '('
    };
    let f = text::first_index(s, other);
    if f < n {
        assert(s[f] == t[f]);
    }
    assert(s.take(n) =~= t);
}

/// A country code in capitals stands for its country, and each country that is known
/// has one; `GB` and `UK` are the same. In lower case it is no country code.
pub proof fn law_country_codes_stand_for_countries(code: Seq<char>)
    ensures
        coded_region("US"@) == Some("USA"@),
        coded_region("JP"@) == Some("Japan"@),
        coded_region("EU"@) == Some("Europe"@),
        coded_region("DE"@) == Some("Germany"@),
        coded_region("FR"@) == Some("France"@),
        coded_region("GB"@) == Some("UK"@),
        coded_region("UK"@) == Some("UK"@),
        coded_region("ES"@) == Some("Spain"@),
        coded_region("IT"@) == Some("Italy"@),
        coded_region("BR"@) == Some("Brazil"@),
        coded_region("AU"@) == Some("Australia"@),
        coded_region("CA"@) == Some("Canada"@),
        coded_region("CN"@) == Some("China"@),
        coded_region("KR"@) == Some("Korea"@),
        coded_region("NL"@) == Some("Netherlands"@),
        coded_region("SE"@) == Some("Sweden"@),
        coded_region("RU"@) == Some("Russia"@),
        coded_region("PL"@) == Some("Poland"@),
        coded_region("PT"@) == Some("Portugal"@),
        coded_region("TW"@) == Some("Taiwan"@),
        coded_region("HK"@) == Some("Hong Kong"@),
        coded_region(code) is Some ==> code.len() == 2 && 'A' <= code[0] <= 'Z' && 'A' <= code[1]
            <= 'Z',
{
    reveal_strlit("US");
    reveal_strlit("JP");
    reveal_strlit("EU");
    reveal_strlit("DE");
    reveal_strlit("FR");
    reveal_strlit("GB");
    reveal_strlit("UK");
    reveal_strlit("ES");
    reveal_strlit("IT");
    reveal_strlit("BR");
    reveal_strlit("AU");
    reveal_strlit("CA");
    reveal_strlit("CN");
    reveal_strlit("KR");
    reveal_strlit("NL");
    reveal_strlit("SE");
    reveal_strlit("RU");
    reveal_strlit("PL");
    reveal_strlit("PT");
    reveal_strlit("TW");
    reveal_strlit("HK");
    assert("US"@.len() == 2 && "US"@[0] == 'U' && "US"@[1] == 'S');
    assert("JP"@.len() == 2 && "JP"@[0] == 'J' && "JP"@[1] == 'P');
    assert("EU"@.len() == 2 && "EU"@[0] == 'E' && "EU"@[1] == 'U');
    assert("DE"@.len() == 2 && "DE"@[0] == 'D' && "DE"@[1] == 'E');
    assert("FR"@.len() == 2 && "FR"@[0] == 'F' && "FR"@[1] == 'R');
    assert("GB"@.len() == 2 && "GB"@[0] == 'G' && "GB"@[1] == 'B');
    assert("UK"@.len() == 2 && "UK"@[0] == 'U' && "UK"@[1] == 'K');
    assert("ES"@.len() == 2 && "ES"@[0] == 'E' && "ES"@[1] == 'S');
    assert("IT"@.len() == 2 && "IT"@[0] == 'I' && "IT"@[1] == 'T');
    assert("BR"@.len() == 2 && "BR"@[0] == 'B' && "BR"@[1] == 'R');
    assert("AU"@.len() == 2 && "AU"@[0] == 'A' && "AU"@[1] == 'U');
    assert("CA"@.len() == 2 && "CA"@[0] == 'C' && "CA"@[1] == 'A');
    assert("CN"@.len() == 2 && "CN"@[0] == 'C' && "CN"@[1] == 'N');
    assert("KR"@.len() == 2 && "KR"@[0] == 'K' && "KR"@[1] == 'R');
    assert("NL"@.len() == 2 && "NL"@[0] == 'N' && "NL"@[1] == 'L');
    assert("SE"@.len() == 2 && "SE"@[0] == 'S' && "SE"@[1] == 'E');
    assert("RU"@.len() == 2 && "RU"@[0] == 'R' && "RU"@[1] == 'U');
    assert("PL"@.len() == 2 && "PL"@[0] == 'P' && "PL"@[1] == 'L');
    assert("PT"@.len() == 2 && "PT"@[0] == 'P' && "PT"@[1] == 'T');
    assert("TW"@.len() == 2 && "TW"@[0] == 'T' && "TW"@[1] == 'W');
    assert("HK"@.len() == 2 && "HK"@[0] == 'H' && "HK"@[1] == 'K');
}

impl ParsedGameName {
    /// Whether this is an original release (no cracks, trainers, hacks).
    pub fn is_original(&self) -> (r: bool)
        ensures
            r == original(self.deep_view()),
    {
        !(self.is_altered() || self.flags.contains("p"))
    }

    /// Whether a flag marks the dump as changed from its release.
    pub fn is_altered(&self) -> (r: bool)
        ensures
            r == altered(self.deep_view()),
    {
        self.flags.contains("cr") || self.flags.contains("t") || self.flags.contains("h")
            || self.flags.contains("f") || self.flags.contains("m") || self.flags.contains("tr")
            || self.flags.contains("o") || self.flags.contains("u") || self.flags.contains("v")
    }

    /// Whether this is a clean dump (original and not bad).
    pub fn is_clean(&self) -> (r: bool)
        ensures
            r == (original(self.deep_view()) && !self.bad_dump),
    {
        self.is_original() && !self.bad_dump
    }

    /// The first region found.
    pub fn primary_region(&self) -> (r: Option<&str>)
        ensures
            match r {
                Some(s) => self.regions@.len() > 0 && s@ == self.deep_view().regions[0],
                None => self.regions@.len() == 0,
            },
    {
        if self.regions.len() > 0 {
            Some(self.regions[0].as_str())
        } else {
            None
        }
    }
}

/// Parses a game name into regions, flags and the other parts it holds.
pub fn parse_game_name(name: &str) -> (r: ParsedGameName)
    ensures
        r.deep_view() == parsed(name@),
{
    let chars = text::chars_of(name);
    let paren = text::find_char(chars.as_slice(), '(');
    let bracket = text::find_char(chars.as_slice(), '[');
    let end: usize = if paren < bracket {
        paren
    } else {
        bracket
    };
    proof {
        text::lemma_first_index(name@, '(');
        text::lemma_first_index(name@, '[');
        assert(chars@.subrange(0, end as int) =~= name@.take(end as int));
    }
    let (lo, hi) = text::trim_range(chars.as_slice(), 0, end);
    let mut result = ParsedGameName {
        title: text::string_of(chars.as_slice(), lo, hi),
        regions: Vec::new(),
        languages: Vec::new(),
        flags: SortedSet::new(),
        verified: false,
        bad_dump: false,
        revision: None,
        is_prerelease: false,
    };
    let ghost start = result.deep_view();
    proof {
        assert(start =~= bare(title_of(name@)));
    }
    let parens = extract_paren_contents(chars.as_slice());
    let mut i: usize = 0;
    while i < parens.len()
        invariant
            i <= parens@.len(),
            result.deep_view() == with_parens(start, parens.deep_view().take(i as int)),
        decreases parens@.len() - i,
    {
        proof {
            let all = parens.deep_view();
            assert(all.take(i + 1).drop_last() =~= all.take(i as int));
        }
        parse_paren_content(parens[i].as_str(), &mut result);
        i = i + 1;
    }
    let ghost middle = result.deep_view();
    proof {
        assert(parens.deep_view().take(i as int) =~= parens.deep_view());
    }
    let brackets = extract_bracket_contents(chars.as_slice());
    i = 0;
    while i < brackets.len()
        invariant
            i <= brackets@.len(),
            result.deep_view() == with_brackets(middle, brackets.deep_view().take(i as int)),
        decreases brackets@.len() - i,
    {
        proof {
            let all = brackets.deep_view();
            assert(all.take(i + 1).drop_last() =~= all.take(i as int));
        }
        parse_bracket_content(brackets[i].as_str(), &mut result);
        i = i + 1;
    }
    proof {
        assert(brackets.deep_view().take(i as int) =~= brackets.deep_view());
    }
    result
}

/// All texts within parentheses.
fn extract_paren_contents(name: &[char]) -> (r: Vec<String>)
    ensures
        r.deep_view() == groups(name@, '(', ')'),
{
    extract_groups(name, '(', ')')
}

/// All texts within square brackets.
fn extract_bracket_contents(name: &[char]) -> (r: Vec<String>)
    ensures
        r.deep_view() == groups(name@, '[', ']'),
{
    extract_groups(name, '[', ']')
}

fn extract_groups(name: &[char], open: char, close: char) -> (r: Vec<String>)
    ensures
        r.deep_view() == groups(name@, open, close),
{
    let mut results: Vec<String> = Vec::new();
    let mut depth: i128 = 0;
    let mut start: usize = 0;
    let mut i: usize = 0;
    proof {
        assert(results.deep_view() + groups(name@, open, close) =~= groups(name@, open, close));
    }
    while i < name.len()
        invariant
            start <= i <= name@.len(),
            -(i as int) <= depth <= i,
            results.deep_view() + groups_from(
                name@,
                open,
                close,
                i as int,
                depth as int,
                start as int,
            ) == groups(name@, open, close),
        decreases name@.len() - i,
    {
        if name[i] == open {
            if depth == 0 {
                start = i + 1;
            }
            depth = depth + 1;
        } else if name[i] == close {
            if depth == 1 {
                let ghost before = results.deep_view();
                let ghost found = name@.subrange(start as int, i as int);
                let ghost rest = groups_from(name@, open, close, i + 1, depth - 1, start as int);
                results.push(text::string_of(name, start, i));
                proof {
                    assert(results.deep_view() =~= before.push(found));
                    assert(results.deep_view() + rest =~= before + (seq![found] + rest));
                }
            }
            depth = depth - 1;
        }
        i = i + 1;
    }
    proof {
        assert(results.deep_view() + Seq::<Seq<char>>::empty() =~= results.deep_view());
    }
    results
}

/// Adds what a parenthesised text says.
fn parse_paren_content(content: &str, result: &mut ParsedGameName)
    ensures
        final(result).deep_view() == with_paren(old(result).deep_view(), content@),
{
    let ghost p = result.deep_view();
    let lowered = text::lower_string(content);
    if let Some(region) = no_intro_region(lowered.as_str()) {
        push_text(&mut result.regions, region);
        return;
    }
    let commas = text::contains_char(content, ',');
    if commas {
        let parts = text::split_string(content, ',');
        let mut i: usize = 0;
        proof {
            assert(result.deep_view() =~= ParsedView {
                regions: p.regions + listed_regions(parts.deep_view().take(0)),
                ..p
            });
        }
        while i < parts.len()
            invariant
                i <= parts@.len(),
                result.deep_view() == (ParsedView {
                    regions: p.regions + listed_regions(parts.deep_view().take(i as int)),
                    ..p
                }),
            decreases parts@.len() - i,
        {
            let part = text::trim_string(parts[i].as_str());
            let part_lowered = text::lower_string(part.as_str());
            proof {
                let all = parts.deep_view();
                assert(all.take(i + 1).drop_last() =~= all.take(i as int));
            }
            let ghost before = result.deep_view();
            if let Some(region) = no_intro_region(part_lowered.as_str()) {
                push_text(&mut result.regions, region);
                proof {
                    assert(result.deep_view().regions =~= p.regions + listed_regions(
                        parts.deep_view().take(i + 1),
                    ));
                    assert(result.deep_view() =~= (ParsedView {
                        regions: result.deep_view().regions,
                        ..before
                    }));
                }
            }
            i = i + 1;
        }
        proof {
            assert(parts.deep_view().take(i as int) =~= parts.deep_view());
        }
        if result.regions.len() > 0 {
            return;
        }
    }
    let ghost listed = result.deep_view();
    if let Some(region) = country(content) {
        push_text(&mut result.regions, region);
        return;
    }
    let chars = text::chars_of(content);
    if text::contains_char(content, '-') && text::utf8_at_most(chars.as_slice(), 8) {
        let parts = text::split_string(content, '-');
        let mut i: usize = 0;
        proof {
            assert(result.deep_view() =~= ParsedView {
                regions: listed.regions + coded_regions(parts.deep_view().take(0)),
                ..listed
            });
        }
        while i < parts.len()
            invariant
                i <= parts@.len(),
                result.deep_view() == (ParsedView {
                    regions: listed.regions + coded_regions(parts.deep_view().take(i as int)),
                    ..listed
                }),
            decreases parts@.len() - i,
        {
            proof {
                let all = parts.deep_view();
                assert(all.take(i + 1).drop_last() =~= all.take(i as int));
            }
            let ghost before = result.deep_view();
            if let Some(region) = country(parts[i].as_str()) {
                push_text(&mut result.regions, region);
                proof {
                    assert(result.deep_view().regions =~= listed.regions + coded_regions(
                        parts.deep_view().take(i + 1),
                    ));
                    assert(result.deep_view() =~= (ParsedView {
                        regions: result.deep_view().regions,
                        ..before
                    }));
                }
            }
            i = i + 1;
        }
        proof {
            assert(parts.deep_view().take(i as int) =~= parts.deep_view());
        }
        if result.regions.len() > 0 {
            return;
        }
    }
    proof {
        assert(result.deep_view().regions =~= p.regions);
        assert(result.deep_view() =~= p);
    }
    if let Some(lang) = language(lowered.as_str()) {
        push_text(&mut result.languages, lang);
        return;
    }
    let l = lowered.as_str();
    if text::starts_with(l, "rev ") || text::starts_with(l, "v") || text::starts_with(
        l,
        "version",
    ) {
        result.revision = Some(content.to_owned());
        return;
    }
    if text::str_eq(l, "beta") || text::str_eq(l, "proto") || text::str_eq(l, "prototype")
        || text::str_eq(l, "demo") || text::str_eq(l, "sample") || text::str_eq(l, "preview") {
        result.is_prerelease = true;
    }
}

/// Adds what a bracketed text says.
fn parse_bracket_content(content: &str, result: &mut ParsedGameName)
    ensures
        final(result).deep_view() == with_bracket(old(result).deep_view(), content@),
{
    let lowered = text::lower_string(content);
    if text::str_eq(content, "!") {
        result.verified = true;
        return;
    }
    if text::str_eq(lowered.as_str(), "b") || text::starts_with(lowered.as_str(), "b ") {
        result.bad_dump = true;
        result.flags.insert("b".to_owned());
        return;
    }
    let chars = text::chars_of(content);
    let space = text::find_char(chars.as_slice(), ' ');
    proof {
        text::lemma_first_index(content@, ' ');
        assert(chars@.subrange(0, space as int) =~= content@.take(space as int));
    }
    let word = text::string_of(chars.as_slice(), 0, space);
    let flag = text::lower_string(word.as_str());
    let f = flag.as_str();
    if text::str_eq(f, "cr") || text::str_eq(f, "f") || text::str_eq(f, "h") || text::str_eq(
        f,
        "m",
    ) || text::str_eq(f, "p") || text::str_eq(f, "t") || text::str_eq(f, "tr") || text::str_eq(
        f,
        "o",
    ) || text::str_eq(f, "u") || text::str_eq(f, "v") || text::str_eq(f, "a") {
        result.flags.insert(flag);
    }
}

fn push_text(list: &mut Vec<String>, s: &str)
    ensures
        final(list).deep_view() == old(list).deep_view().push(s@),
{
    list.push(s.to_owned());
    proof {
        assert(list.deep_view() =~= old(list).deep_view().push(s@));
    }
}

/// The region of a text that is a two-letter upper-case country code.
fn country(s: &str) -> (r: Option<&'static str>)
    ensures
        r.deep_view() == coded_region(s@),
{
    let chars = text::chars_of(s);
    if chars.len() == 2 && 'A' <= chars[0] && chars[0] <= 'Z' && 'A' <= chars[1] && chars[1]
        <= 'Z' {
        iso_to_region(s)
    } else {
        None
    }
}

/// The region name of an upper-case ISO 3166-1 alpha-2 code.
fn iso_to_region(code: &str) -> (r: Option<&'static str>)
    ensures
        r.deep_view() == iso_region(code@),
{
    if text::str_eq(code, "US") {
        Some("USA")
    } else if text::str_eq(code, "JP") {
        Some("Japan")
    } else if text::str_eq(code, "EU") {
        Some("Europe")
    } else if text::str_eq(code, "DE") {
        Some("Germany")
    } else if text::str_eq(code, "FR") {
        Some("France")
    } else if text::str_eq(code, "GB") || text::str_eq(code, "UK") {
        Some("UK")
    } else if text::str_eq(code, "ES") {
        Some("Spain")
    } else if text::str_eq(code, "IT") {
        Some("Italy")
    } else if text::str_eq(code, "BR") {
        Some("Brazil")
    } else if text::str_eq(code, "AU") {
        Some("Australia")
    } else if text::str_eq(code, "CA") {
        Some("Canada")
    } else if text::str_eq(code, "CN") {
        Some("China")
    } else if text::str_eq(code, "KR") {
        Some("Korea")
    } else if text::str_eq(code, "NL") {
        Some("Netherlands")
    } else if text::str_eq(code, "SE") {
        Some("Sweden")
    } else if text::str_eq(code, "RU") {
        Some("Russia")
    } else if text::str_eq(code, "PL") {
        Some("Poland")
    } else if text::str_eq(code, "PT") {
        Some("Portugal")
    } else if text::str_eq(code, "TW") {
        Some("Taiwan")
    } else if text::str_eq(code, "HK") {
        Some("Hong Kong")
    } else {
        None
    }
}

/// The No-Intro region that a lower-case text names.
fn no_intro_region(l: &str) -> (r: Option<&'static str>)
    ensures
        r.deep_view() == region_named(l@),
{
    if text::str_eq(l, "world") {
        Some("World")
    } else if text::str_eq(l, "usa") {
        Some("USA")
    } else if text::str_eq(l, "europe") {
        Some("Europe")
    } else if text::str_eq(l, "japan") {
        Some("Japan")
    } else if text::str_eq(l, "australia") {
        Some("Australia")
    } else if text::str_eq(l, "brazil") {
        Some("Brazil")
    } else if text::str_eq(l, "canada") {
        Some("Canada")
    } else if text::str_eq(l, "china") {
        Some("China")
    } else if text::str_eq(l, "france") {
        Some("France")
    } else if text::str_eq(l, "germany") {
        Some("Germany")
    } else if text::str_eq(l, "hong kong") {
        Some("Hong Kong")
    } else if text::str_eq(l, "italy") {
        Some("Italy")
    } else if text::str_eq(l, "korea") {
        Some("Korea")
    } else if text::str_eq(l, "netherlands") {
        Some("Netherlands")
    } else if text::str_eq(l, "russia") {
        Some("Russia")
    } else if text::str_eq(l, "spain") {
        Some("Spain")
    } else if text::str_eq(l, "sweden") {
        Some("Sweden")
    } else if text::str_eq(l, "taiwan") {
        Some("Taiwan")
    } else if text::str_eq(l, "uk") {
        Some("UK")
    } else if text::str_eq(l, "asia") {
        Some("Asia")
    } else if text::str_eq(l, "scandinavia") {
        Some("Scandinavia")
    } else {
        None
    }
}

/// The language that a lower-case text names.
fn language(l: &str) -> (r: Option<&'static str>)
    ensures
        r.deep_view() == language_named(l@),
{
    if text::str_eq(l, "en") {
        Some("En")
    } else if text::str_eq(l, "fr") {
        Some("Fr")
    } else if text::str_eq(l, "de") {
        Some("De")
    } else if text::str_eq(l, "es") {
        Some("Es")
    } else if text::str_eq(l, "it") {
        Some("It")
    } else if text::str_eq(l, "ja") {
        Some("Ja")
    } else if text::str_eq(l, "pt") {
        Some("Pt")
    } else if text::str_eq(l, "zh") {
        Some("Zh")
    } else if text::str_eq(l, "ko") {
        Some("Ko")
    } else if text::str_eq(l, "nl") {
        Some("Nl")
    } else if text::str_eq(l, "sv") {
        Some("Sv")
    } else if text::str_eq(l, "ru") {
        Some("Ru")
    } else if text::str_eq(l, "pl") {
        Some("Pl")
    } else {
        None
    }
}

} // verus!
