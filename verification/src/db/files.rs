//! Sources, content-addressed files and where they are held.

use crate::text;
use vstd::prelude::*;

verus! {

/// Whether a source's content may leave it.
#[derive(Clone, Copy, Debug, PartialEq, Eq, Structural)]
pub enum Disposition {
    /// Staging: content may leave the tree and the source be freed (moved out).
    Consume,
    /// Content is never lost from the tree: reorganised within it, copied out,
    /// but never removed.
    Preserve,
}

/// The stored form of a disposition.
pub open spec fn disposition_text(d: Disposition) -> Seq<char> {
    match d {
        Disposition::Consume => "consume"@,
        Disposition::Preserve => "preserve"@,
    }
}

/// The disposition that a stored text stands for. Anything but `consume` is
/// `Preserve`: a malformed disposition must never authorise removal.
pub open spec fn disposition_of(s: Seq<char>) -> Disposition {
    if s == "consume"@ {
        Disposition::Consume
    } else {
        Disposition::Preserve
    }
}

impl Disposition {
    /// The canonical lower-case text stored in the database.
    pub fn as_str(self) -> (r: &'static str)
        ensures
            r@ == disposition_text(self),
    {
        match self {
            Disposition::Consume => "consume",
            Disposition::Preserve => "preserve",
        }
    }

    /// Parses the stored text; unknown values are `Preserve`.
    pub fn parse(s: &str) -> (r: Disposition)
        ensures
            r == disposition_of(s@),
    {
        if text::str_eq(s, "consume") {
            Disposition::Consume
        } else {
            Disposition::Preserve
        }
    }
}

/// A stored disposition reads back as itself, and every text but `consume`
/// reads as `Preserve`.
pub proof fn law_disposition_round_trip(d: Disposition, s: Seq<char>)
    ensures
        disposition_of(disposition_text(d)) == d,
        s != disposition_text(Disposition::Consume) ==> disposition_of(s) is Preserve,
{
    reveal_strlit("consume");
    reveal_strlit("preserve");
    assert("consume"@.len() != "preserve"@.len());
}

/// A source directory.
#[derive(Clone, Debug)]
pub struct Source {
    pub id: i64,
    pub path: String,
    pub case_sensitive: bool,
    pub added_at: String,
    pub last_scanned: Option<String>,
    /// Whether this source may be consumed (emptied) or its content preserved.
    pub disposition: Disposition,
}

/// A content-addressed file.
#[derive(Clone, Debug)]
pub struct File {
    pub sha1: String,
    pub md5: Option<String>,
    pub crc32: Option<String>,
    pub size: i64,
    pub first_seen: String,
}

/// A physical location where a file exists.
#[derive(Clone, Debug)]
pub struct FileLocation {
    pub id: i64,
    pub sha1: String,
    pub source_id: i64,
    pub path: String,
    pub archive_path: Option<String>,
    pub last_seen: String,
}

/// What of a source decides where a path belongs.
#[verifier::ext_equal]
pub struct SourceView {
    pub id: i64,
    pub path: Seq<char>,
    pub disposition: Disposition,
}

impl DeepView for Source {
    type V = SourceView;

    open spec fn deep_view(&self) -> SourceView {
        SourceView { id: self.id, path: self.path@, disposition: self.disposition }
    }
}

/// The contents of a list of sources.
pub open spec fn source_views(sources: Seq<Source>) -> Seq<SourceView> {
    Seq::new(sources.len(), |i: int| sources[i].deep_view())
}

/// The root of a source, without separators at its end.
pub open spec fn root_of(s: SourceView) -> Seq<char> {
    text::trim_end_char(s.path, '/')
}

/// Whether a path lies in a source.
pub open spec fn holds(s: SourceView, abs_path: Seq<char>) -> bool {
    text::begins(abs_path, root_of(s).push('/'))
}

/// The path below the source's root.
pub open spec fn relative(s: SourceView, abs_path: Seq<char>) -> Seq<char> {
    abs_path.skip(root_of(s).len() as int + 1)
}

/// Whether source `i` is the one a path belongs to: of those that hold the path
/// one with the longest root, and the last of these.
pub open spec fn owns(sources: Seq<SourceView>, abs_path: Seq<char>, i: int) -> bool {
    &&& 0 <= i < sources.len()
    &&& holds(sources[i], abs_path)
    &&& forall|j: int|
        0 <= j < sources.len() && #[trigger] holds(sources[j], abs_path) ==> root_of(
            sources[j],
        ).len() <= root_of(sources[i]).len()
    &&& forall|j: int|
        i < j < sources.len() && #[trigger] holds(sources[j], abs_path) ==> root_of(
            sources[j],
        ).len() < root_of(sources[i]).len()
}

/// The source a path belongs to is unique.
pub proof fn law_owner_is_unique(
    sources: Seq<SourceView>,
    abs_path: Seq<char>,
    i: int,
    j: int,
)
    requires
        owns(sources, abs_path, i),
        owns(sources, abs_path, j),
    ensures
        i == j,
{
}

/// A resolved path is its source's root, a separator and the relative path.
pub proof fn law_resolved_path_rejoins(s: SourceView, abs_path: Seq<char>)
    requires
        holds(s, abs_path),
    ensures
        root_of(s) + "/"@ + relative(s, abs_path) == abs_path,
{
    reveal_strlit("/");
    let lead = root_of(s).push('/');
    assert(abs_path =~= abs_path.take(lead.len() as int) + abs_path.skip(lead.len() as int));
    assert(lead =~= root_of(s) + "/"@);
}

/// The source that a path belongs to and the path below its root, if any.
pub open spec fn resolved(sources: Seq<SourceView>, abs_path: Seq<char>) -> Option<
    (i64, Seq<char>),
> {
    if exists|i: int| #[trigger] owns(sources, abs_path, i) {
        let i = choose|i: int| #[trigger] owns(sources, abs_path, i);
        Some((sources[i].id, relative(sources[i], abs_path)))
    } else {
        None
    }
}

/// A path resolves exactly where some source's root, less the separators at its end,
/// stands before it with a separator behind; what it resolves to joins to the path
/// again, and no source with a longer root holds the path.
pub proof fn law_paths_resolve_to_the_nearest_source(sources: Seq<SourceView>, path: Seq<char>)
    ensures
        resolved(sources, path) is Some <==> exists|i: int|
            0 <= i < sources.len() && text::begins(
                path,
                text::trim_end_char((#[trigger] sources[i]).path, '/').push('/'),
            ),
        resolved(sources, path) matches Some((id, rest)) ==> exists|i: int|
            0 <= i < sources.len() && (#[trigger] sources[i]).id == id && path
                == text::trim_end_char(sources[i].path, '/').push('/') + rest && forall|j: int|
                0 <= j < sources.len() && text::begins(
                    path,
                    text::trim_end_char((#[trigger] sources[j]).path, '/').push('/'),
                ) ==> text::trim_end_char(sources[j].path, '/').len() <= text::trim_end_char(
                    sources[i].path,
                    '/',
                ).len(),
{
    if exists|i: int| 0 <= i < sources.len() && holds(#[trigger] sources[i], path) {
        lemma_some_source_owns(sources, path, sources.len() as int);
        assert(sources.take(sources.len() as int) =~= sources);
    }
    if resolved(sources, path) is Some {
        let i = choose|i: int| #[trigger] owns(sources, path, i);
        let lead = root_of(sources[i]).push('/');
        assert(holds(sources[i], path));
        assert(path =~= path.take(lead.len() as int) + path.skip(lead.len() as int));
        assert(path == lead + relative(sources[i], path));
        assert forall|j: int|
            0 <= j < sources.len() && text::begins(
                path,
                text::trim_end_char((#[trigger] sources[j]).path, '/').push('/'),
            ) implies text::trim_end_char(sources[j].path, '/').len() <= text::trim_end_char(
            sources[i].path,
            '/',
        ).len() by {
            assert(holds(sources[j], path));
        }
    }
}

/// Where a source holds a path, some source owns it.
proof fn lemma_some_source_owns(sources: Seq<SourceView>, path: Seq<char>, n: int)
    requires
        0 <= n <= sources.len(),
        exists|i: int| 0 <= i < n && holds(#[trigger] sources[i], path),
    ensures
        exists|i: int| #[trigger] owns(sources.take(n), path, i),
    decreases n,
{
    let t = sources.take(n);
    let m = n - 1;
    let u = sources.take(m);
    assert(forall|j: int| 0 <= j < m ==> #[trigger] t[j] == u[j]);
    assert(t[m] == sources[m]);
    if exists|i: int| 0 <= i < m && holds(#[trigger] sources[i], path) {
        lemma_some_source_owns(sources, path, m);
        let i = choose|i: int| #[trigger] owns(u, path, i);
        assert(holds(u[i], path));
        let later = holds(sources[m], path) && root_of(sources[m]).len() >= root_of(u[i]).len();
        let k: int = if later {
            m
        } else {
            i
        };
        assert forall|j: int|
            0 <= j < t.len() && #[trigger] holds(t[j], path) implies root_of(t[j]).len()
            <= root_of(t[k]).len() by {
            if j < m {
                assert(holds(u[j], path));
            }
        }
        assert forall|j: int|
            k < j < t.len() && #[trigger] holds(t[j], path) implies root_of(t[j]).len() < root_of(
            t[k],
        ).len() by {
            if j < m {
                assert(holds(u[j], path));
            }
        }
        assert(owns(t, path, k));
    } else {
        let i = choose|i: int| 0 <= i < n && holds(#[trigger] sources[i], path);
        assert(i == m);
        assert forall|j: int|
            0 <= j < t.len() && #[trigger] holds(t[j], path) implies root_of(t[j]).len()
            <= root_of(t[m]).len() by {
            assert(t[j] == sources[j]);
        }
        assert(owns(t, path, m));
    }
}

/// Resolves an absolute path to the source that contains it (the longest
/// matching root) and the path relative to that source. `None` when no source
/// contains the path.
pub fn resolve_in_sources(sources: &[Source], abs_path: &str) -> (r: Option<(i64, String)>)
    ensures
        r.deep_view() == resolved(source_views(sources@), abs_path@),
        r is None <==> forall|i: int|
            0 <= i < sources@.len() ==> !holds(#[trigger] source_views(sources@)[i], abs_path@),
{
    let ghost all = source_views(sources@);
    match owning_source(sources, abs_path) {
        Some((i, rel)) => {
            proof {
                let k = choose|k: int| #[trigger] owns(all, abs_path@, k);
                law_owner_is_unique(all, abs_path@, i as int, k);
                assert(holds(all[i as int], abs_path@));
            }
            Some((sources[i].id, rel))
        },
        None => None,
    }
}

/// The position of the source that contains a path, and the path below its root.
pub fn owning_source(sources: &[Source], abs_path: &str) -> (r: Option<(usize, String)>)
    ensures
        match r {
            Some((i, rel)) => i < sources@.len() && owns(
                source_views(sources@),
                abs_path@,
                i as int,
            ) && rel@ == relative(source_views(sources@)[i as int], abs_path@),
            None => forall|i: int|
                0 <= i < sources@.len() ==> !holds(
                    #[trigger] source_views(sources@)[i],
                    abs_path@,
                ),
        },
{
    let ghost all = source_views(sources@);
    let chars = text::chars_of(abs_path);
    let total: usize = chars.len();
    let mut best: Option<(usize, usize)> = None;
    let mut i: usize = 0;
    while i < sources.len()
        invariant
            i <= sources@.len(),
            all == source_views(sources@),
            match best {
                None => forall|j: int| 0 <= j < i ==> !holds(#[trigger] all[j], abs_path@),
                Some((b, n)) => b < i && n == root_of(all[b as int]).len() && holds(
                    all[b as int],
                    abs_path@,
                ) && (forall|j: int|
                    0 <= j < i && #[trigger] holds(all[j], abs_path@) ==> root_of(all[j]).len()
                        <= n) && (forall|j: int|
                    b < j < i && #[trigger] holds(all[j], abs_path@) ==> root_of(all[j]).len()
                        < n),
            },
        decreases sources@.len() - i,
    {
        let root = text::trim_end_matches(sources[i].path.as_str(), '/');
        let n: usize = text::chars_of(root.as_str()).len();
        let mut lead = root;
        lead.push('/');
        if text::starts_with(abs_path, lead.as_str()) {
            proof {
                assert(holds(all[i as int], abs_path@));
            }
            match best {
                None => {
                    best = Some((i, n));
                },
                Some((_, m)) => {
                    if n >= m {
                        best = Some((i, n));
                    }
                },
            }
        } else {
            proof {
                assert(!holds(all[i as int], abs_path@));
            }
        }
        i = i + 1;
    }
    match best {
        None => None,
        Some((b, n)) => {
            proof {
                assert(owns(all, abs_path@, b as int));
                assert(n + 1 <= total);
                assert(chars@.subrange(n + 1, chars@.len() as int) =~= relative(
                    all[b as int],
                    abs_path@,
                ));
            }
            Some((b, text::string_of(chars.as_slice(), n + 1, total)))
        },
    }
}

} // verus!
