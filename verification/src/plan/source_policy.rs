//! What a source's disposition lets a plan do with its content.

use crate::db::files::{Disposition, Source, SourceView};
use crate::db::files;
use crate::paths;
use crate::sorted_map::SortedMap;
use crate::text;
use vstd::prelude::*;

verus! {

/// Whether content of a source may leave its place once it is at `dest`: always
/// out of a source that may be consumed; out of any other (an unknown one too)
/// only where `dest` lies in the same tree, so that the tree loses nothing.
pub open spec fn may_leave(
    dispositions: Map<Seq<char>, Disposition>,
    root: Seq<char>,
    dest: Seq<char>,
) -> bool {
    (dispositions.contains_key(root) && dispositions[root] is Consume) || paths::under(dest, root)
}

/// Whether a path lies in the library: below the library-wide root or below the
/// collection's own.
pub open spec fn in_library(
    path: Seq<char>,
    default_dest: Option<Seq<char>>,
    dest_root: Seq<char>,
) -> bool {
    paths::under(path, dest_root) || (default_dest matches Some(d) && paths::under(path, d))
}

/// Why a duplicate may go.
pub open spec fn duplicate_of(dest: Seq<char>) -> Seq<char> {
    "exact duplicate — kept "@ + dest
}

/// A source that is not known to be consumable loses content only to its own
/// tree.
pub proof fn law_preserved_content_stays_in_its_tree(
    dispositions: Map<Seq<char>, Disposition>,
    root: Seq<char>,
    dest: Seq<char>,
)
    requires
        !dispositions.contains_key(root) || dispositions[root] is Preserve,
        may_leave(dispositions, root, dest),
    ensures
        paths::under(dest, root),
{
}

/// A source that may be consumed lets everything go; any source lets go what stays
/// in its own tree.
pub proof fn law_consumable_sources_let_go(
    dispositions: Map<Seq<char>, Disposition>,
    root: Seq<char>,
    rest: Seq<char>,
    dest: Seq<char>,
)
    requires
        root.len() > 0 && root.last() != '/',
    ensures
        dispositions.contains_key(root) && dispositions[root] == Disposition::Consume ==> may_leave(
            dispositions,
            root,
            dest,
        ),
        may_leave(dispositions, root, root + "/"@ + rest),
        in_library(root + "/"@ + rest, None, root),
        in_library(root + "/"@ + rest, Some(root), dest),
{
    paths::law_under_is_at_or_below(root, rest, dest);
}

fn leaves(dispositions: &SortedMap<String, Disposition>, root: &str, dest: &str) -> (r: bool)
    ensures
        r == may_leave(dispositions@, root@, dest@),
{
    match dispositions.get_str(root) {
        Some(Disposition::Consume) => true,
        _ => paths::is_under(dest, root),
    }
}

/// Whether content may be moved from a source to a destination.
pub fn may_move(dispositions: &SortedMap<String, Disposition>, source_root: &str, dest: &str) -> (r:
    bool)
    ensures
        r == may_leave(dispositions@, source_root@, dest@),
{
    leaves(dispositions, source_root, dest)
}

/// Whether a copy in a source may be deleted once its content is at a
/// destination.
pub fn may_delete(
    dispositions: &SortedMap<String, Disposition>,
    source_root: &str,
    dest: &str,
) -> (r: bool)
    ensures
        r == may_leave(dispositions@, source_root@, dest@),
{
    leaves(dispositions, source_root, dest)
}

/// Whether a path lies in the library.
pub fn is_in_library(path: &str, default_dest: Option<&str>, dest_root: &str) -> (r: bool)
    ensures
        r == in_library(path@, default_dest.deep_view(), dest_root@),
{
    if paths::is_under(path, dest_root) {
        return true;
    }
    match default_dest {
        Some(d) => paths::is_under(path, d),
        None => false,
    }
}

/// Why a duplicate may go.
pub fn dedup_reason(dest: &str) -> (r: String)
    ensures
        r@ == duplicate_of(dest@),
{
    text::concat2("exact duplicate — kept ", dest)
}

/// The disposition of each source root; of two sources with one root the later.
pub open spec fn dispositions_of(sources: Seq<SourceView>) -> Map<Seq<char>, Disposition>
    decreases sources.len(),
{
    if sources.len() == 0 {
        Map::empty()
    } else {
        dispositions_of(sources.drop_last()).insert(sources.last().path, sources.last().disposition)
    }
}

/// A root that some source has gets the disposition of the last such source; one that
/// no source has gets none.
pub proof fn law_last_source_gives_the_disposition(
    sources: Seq<SourceView>,
    root: Seq<char>,
    i: int,
)
    requires
        -1 <= i < sources.len(),
        i >= 0 ==> sources[i].path == root,
        forall|j: int| i < j < sources.len() ==> (#[trigger] sources[j]).path != root,
    ensures
        i >= 0 ==> dispositions_of(sources).contains_key(root) && dispositions_of(sources)[root]
            == sources[i].disposition,
        i == -1 ==> !dispositions_of(sources).contains_key(root),
    decreases sources.len(),
{
    if sources.len() > 0 && i < sources.len() - 1 {
        let rest = sources.drop_last();
        assert(sources[sources.len() - 1].path != root);
        assert forall|j: int| i < j < rest.len() implies (#[trigger] rest[j]).path != root by {
            assert(sources[j].path != root);
        }
        law_last_source_gives_the_disposition(rest, root, i);
    }
}

/// The disposition of each source root.
pub fn source_dispositions(sources: &[Source]) -> (r: SortedMap<String, Disposition>)
    ensures
        r@ == dispositions_of(files::source_views(sources@)),
{
    let ghost all = files::source_views(sources@);
    let mut map: SortedMap<String, Disposition> = SortedMap::new();
    let mut i: usize = 0;
    while i < sources.len()
        invariant
            i <= sources@.len(),
            all == files::source_views(sources@),
            map@ == dispositions_of(all.take(i as int)),
        decreases sources@.len() - i,
    {
        proof {
            assert(all.take(i + 1).drop_last() =~= all.take(i as int));
        }
        map.insert(sources[i].path.clone(), sources[i].disposition);
        i = i + 1;
    }
    proof {
        assert(all.take(i as int) =~= all);
    }
    map
}

} // verus!
