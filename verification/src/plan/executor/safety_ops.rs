//! Safety rules of destructive operations: what a delete must find still on disk,
//! and how files are named in quarantine.

use crate::db::files;
use crate::db::files::{resolve_in_sources, Disposition, FileLocation, Source, SourceView};
use crate::paths;
use crate::text;
use vstd::prelude::*;

verus! {

/// A recorded location of content, and whether a file is really there.
pub struct RecordedCopy {
    pub location: FileLocation,
    pub on_disk: bool,
}

#[verifier::ext_equal]
pub struct CopyView {
    pub source_id: i64,
    pub path: Seq<char>,
    pub on_disk: bool,
}

impl DeepView for RecordedCopy {
    type V = CopyView;

    open spec fn deep_view(&self) -> CopyView {
        CopyView {
            source_id: self.location.source_id,
            path: self.location.path@,
            on_disk: self.on_disk,
        }
    }
}

/// The first source with an id.
pub open spec fn source_by_id(sources: Seq<SourceView>, id: i64) -> Option<SourceView>
    decreases sources.len(),
{
    if sources.len() == 0 {
        None
    } else if sources[0].id == id {
        Some(sources[0])
    } else {
        source_by_id(sources.drop_first(), id)
    }
}

/// A source is found by its id, the first where several have it.
pub proof fn law_sources_are_found_by_id(sources: Seq<SourceView>, id: i64)
    ensures
        source_by_id(sources, id) is None ==> forall|i: int|
            0 <= i < sources.len() ==> (#[trigger] sources[i]).id != id,
        source_by_id(sources, id) matches Some(s) ==> s.id == id && exists|i: int|
            0 <= i < sources.len() && #[trigger] sources[i] == s && forall|j: int|
                0 <= j < i ==> (#[trigger] sources[j]).id != id,
    decreases sources.len(),
{
    if sources.len() > 0 && sources[0].id != id {
        let rest = sources.drop_first();
        law_sources_are_found_by_id(rest, id);
        assert forall|j: int| 0 < j < sources.len() implies #[trigger] sources[j] == rest[j
            - 1] by {}
        if source_by_id(rest, id) is Some {
            let s = source_by_id(rest, id)->0;
            let k = choose|k: int|
                0 <= k < rest.len() && #[trigger] rest[k] == s && forall|j: int|
                    0 <= j < k ==> (#[trigger] rest[j]).id != id;
            assert(sources[k + 1] == s);
        }
    }
}

/// Whether a source's content must stay in its tree; so it is for an unknown one.
pub open spec fn strict(sources: Seq<SourceView>, id: i64) -> bool {
    match source_by_id(sources, id) {
        Some(s) => s.disposition is Preserve,
        None => true,
    }
}

/// Whether a copy stands in for the file at a location: another file, really
/// there, in a registered source, and in the same tree where that tree's content
/// must stay in it.
pub open spec fn stands_in(
    sources: Seq<SourceView>,
    id: i64,
    rel: Seq<char>,
    c: CopyView,
) -> bool {
    &&& !(c.source_id == id && c.path == rel)
    &&& strict(sources, id) ==> c.source_id == id
    &&& source_by_id(sources, c.source_id) is Some
    &&& c.on_disk
}

/// Whether one of some copies stands in for the file at a location.
pub open spec fn covered(
    sources: Seq<SourceView>,
    id: i64,
    rel: Seq<char>,
    copies: Seq<CopyView>,
) -> bool {
    exists|j: int| 0 <= j < copies.len() && stands_in(sources, id, rel, #[trigger] copies[j])
}

/// Whether a file may be deleted: it lies in a source, its contents are recorded,
/// and a copy stands in for it for each of them.
pub open spec fn survives(
    sources: Seq<SourceView>,
    abs_path: Seq<char>,
    contents: Seq<Seq<CopyView>>,
) -> bool {
    match files::resolved(sources, abs_path) {
        None => false,
        Some((id, rel)) => contents.len() > 0 && forall|i: int|
            0 <= i < contents.len() ==> covered(sources, id, rel, #[trigger] contents[i]),
    }
}

/// A delete never takes the last copy: where one is allowed, each content of the
/// file is on disk elsewhere, and, if the file's tree is to be preserved, elsewhere
/// in that same tree.
pub proof fn law_delete_keeps_content(
    sources: Seq<SourceView>,
    abs_path: Seq<char>,
    contents: Seq<Seq<CopyView>>,
    i: int,
)
    requires
        survives(sources, abs_path, contents),
        0 <= i < contents.len(),
    ensures
        files::resolved(sources, abs_path) matches Some((id, rel)) && exists|j: int|
            0 <= j < contents[i].len() && {
                let c = #[trigger] contents[i][j];
                c.on_disk && (c.source_id != id || c.path != rel) && (strict(sources, id) ==>
                    c.source_id == id)
            },
{
    let (id, rel) = files::resolved(sources, abs_path)->0;
    assert(covered(sources, id, rel, contents[i]));
    let j = choose|j: int|
        0 <= j < contents[i].len() && stands_in(sources, id, rel, #[trigger] contents[i][j]);
    assert(stands_in(sources, id, rel, contents[i][j]));
}

/// A delete is refused wherever nothing vouches for the file: outside every
/// source, without recorded contents, or with content that has no copy on disk.
pub proof fn law_unvouched_delete_is_refused(
    sources: Seq<SourceView>,
    abs_path: Seq<char>,
    contents: Seq<Seq<CopyView>>,
    i: int,
)
    ensures
        files::resolved(sources, abs_path) is None ==> !survives(sources, abs_path, contents),
        contents.len() == 0 ==> !survives(sources, abs_path, contents),
        0 <= i < contents.len() && (forall|j: int|
            0 <= j < contents[i].len() ==> !(#[trigger] contents[i][j]).on_disk) ==> !survives(
            sources,
            abs_path,
            contents,
        ),
{
    if survives(sources, abs_path, contents) && 0 <= i < contents.len() {
        law_delete_keeps_content(sources, abs_path, contents, i);
    }
}

proof fn lemma_source_by_id(sources: Seq<SourceView>, id: i64)
    ensures
        source_by_id(sources, id) is Some <==> exists|k: int|
            0 <= k < sources.len() && (#[trigger] sources[k]).id == id,
        source_by_id(sources, id) matches Some(s) ==> s.id == id && sources.contains(s),
    decreases sources.len(),
{
    if sources.len() > 0 && sources[0].id != id {
        let rest = sources.drop_first();
        lemma_source_by_id(rest, id);
        if source_by_id(rest, id) is Some {
            let s = source_by_id(rest, id)->0;
            let k = choose|k: int| 0 <= k < rest.len() && rest[k] == s;
            assert(sources[k + 1] == s);
        }
        if exists|k: int| 0 <= k < sources.len() && (#[trigger] sources[k]).id == id {
            let k = choose|k: int| 0 <= k < sources.len() && (#[trigger] sources[k]).id == id;
            assert(rest[k - 1].id == id);
        }
    } else if sources.len() > 0 {
        assert(sources[0].id == id);
    }
}

/// Whether there is, on disk, another file with some content than the one at a
/// location, in a source that is registered.
pub open spec fn on_disk_elsewhere(
    sources: Seq<SourceView>,
    id: i64,
    rel: Seq<char>,
    c: CopyView,
) -> bool {
    &&& c.on_disk
    &&& c.source_id != id || c.path != rel
    &&& exists|k: int| 0 <= k < sources.len() && (#[trigger] sources[k]).id == c.source_id
}

/// A file may be deleted exactly where each of its contents, of which there is at
/// least one, is on disk in another file of a registered source; out of a source that
/// is to be preserved only where that file is in the same source. A source counts as
/// preserved unless it is known to be consumable.
pub proof fn law_deletable_exactly_where_copies_remain(
    sources: Seq<SourceView>,
    abs_path: Seq<char>,
    contents: Seq<Seq<CopyView>>,
    id: i64,
    rel: Seq<char>,
)
    requires
        files::resolved(sources, abs_path) == Some((id, rel)),
        forall|a: int, b: int|
            0 <= a < sources.len() && 0 <= b < sources.len() && (#[trigger] sources[a]).id == (
            #[trigger] sources[b]).id ==> sources[a].disposition == sources[b].disposition,
    ensures
        survives(sources, abs_path, contents) <==> contents.len() > 0 && forall|i: int|
            0 <= i < contents.len() ==> remains(sources, id, rel, #[trigger] contents[i]),
{
    if survives(sources, abs_path, contents) {
        assert forall|i: int| 0 <= i < contents.len() implies remains(
            sources,
            id,
            rel,
            #[trigger] contents[i],
        ) by {
            assert(covered(sources, id, rel, contents[i]));
            let j = choose|j: int|
                0 <= j < contents[i].len() && stands_in(sources, id, rel, #[trigger] contents[i][j]);
            lemma_strict(sources, id);
            lemma_source_by_id(sources, contents[i][j].source_id);
            assert(on_disk_elsewhere(sources, id, rel, contents[i][j]));
        }
    }
    if contents.len() > 0 && forall|i: int|
        0 <= i < contents.len() ==> remains(sources, id, rel, #[trigger] contents[i]) {
        assert forall|i: int| 0 <= i < contents.len() implies covered(
            sources,
            id,
            rel,
            #[trigger] contents[i],
        ) by {
            assert(remains(sources, id, rel, contents[i]));
            let j = choose|j: int|
                0 <= j < contents[i].len() && on_disk_elsewhere(
                    sources,
                    id,
                    rel,
                    #[trigger] contents[i][j],
                ) && (!consumable(sources, id) ==> contents[i][j].source_id == id);
            lemma_strict(sources, id);
            lemma_source_by_id(sources, contents[i][j].source_id);
            assert(stands_in(sources, id, rel, contents[i][j]));
        }
    }
}

/// Whether a source is known to be one that may be consumed.
pub open spec fn consumable(sources: Seq<SourceView>, id: i64) -> bool {
    exists|k: int|
        0 <= k < sources.len() && (#[trigger] sources[k]).id == id && sources[k].disposition
            == Disposition::Consume
}

/// Whether some content remains once the file at a location is gone.
pub open spec fn remains(
    sources: Seq<SourceView>,
    id: i64,
    rel: Seq<char>,
    copies: Seq<CopyView>,
) -> bool {
    exists|j: int|
        0 <= j < copies.len() && on_disk_elsewhere(sources, id, rel, #[trigger] copies[j]) && (
        !consumable(sources, id) ==> copies[j].source_id == id)
}

proof fn lemma_strict(sources: Seq<SourceView>, id: i64)
    requires
        forall|a: int, b: int|
            0 <= a < sources.len() && 0 <= b < sources.len() && (#[trigger] sources[a]).id == (
            #[trigger] sources[b]).id ==> sources[a].disposition == sources[b].disposition,
    ensures
        strict(sources, id) <==> !consumable(sources, id),
{
    lemma_source_by_id(sources, id);
    if source_by_id(sources, id) is Some {
        let s = source_by_id(sources, id)->0;
        let k = choose|k: int| 0 <= k < sources.len() && sources[k] == s;
        assert(sources[k].id == id);
        if consumable(sources, id) {
            let m = choose|m: int|
                0 <= m < sources.len() && (#[trigger] sources[m]).id == id && sources[m].disposition
                    == Disposition::Consume;
            assert(sources[m].disposition == sources[k].disposition);
        }
    }
}

/// The position of the first source with an id.
fn find_source(sources: &[Source], id: i64) -> (r: Option<usize>)
    ensures
        match r {
            Some(i) => i < sources@.len() && source_by_id(files::source_views(sources@), id)
                == Some(sources@[i as int].deep_view()),
            None => source_by_id(files::source_views(sources@), id) is None,
        },
{
    let ghost all = files::source_views(sources@);
    let mut i: usize = 0;
    proof {
        assert(all.skip(0) =~= all);
    }
    while i < sources.len()
        invariant
            i <= sources@.len(),
            all == files::source_views(sources@),
            source_by_id(all, id) == source_by_id(all.skip(i as int), id),
        decreases sources@.len() - i,
    {
        if sources[i].id == id {
            return Some(i);
        }
        proof {
            assert(all.skip(i as int).drop_first() =~= all.skip(i + 1));
        }
        i = i + 1;
    }
    None
}

/// Where the file of a recorded location is, or none where its source is not
/// registered.
pub fn copy_path(sources: &[Source], location: &FileLocation) -> (r: Option<String>)
    ensures
        r.deep_view() == match source_by_id(
            files::source_views(sources@),
            location.source_id,
        ) {
            Some(s) => Some(files::root_of(s) + "/"@ + location.path@),
            None => None,
        },
{
    match find_source(sources, location.source_id) {
        Some(i) => {
            let root = text::trim_end_matches(sources[i].path.as_str(), '/');
            Some(text::concat3(root.as_str(), "/", location.path.as_str()))
        },
        None => None,
    }
}

fn covers(
    sources: &[Source],
    id: i64,
    rel: &str,
    preserve: bool,
    copies: &Vec<RecordedCopy>,
) -> (r: bool)
    requires
        preserve == strict(files::source_views(sources@), id),
    ensures
        r == covered(files::source_views(sources@), id, rel@, copies.deep_view()),
{
    let ghost all = files::source_views(sources@);
    let ghost cs = copies.deep_view();
    let mut j: usize = 0;
    while j < copies.len()
        invariant
            j <= copies@.len(),
            all == files::source_views(sources@),
            cs == copies.deep_view(),
            preserve == strict(all, id),
            forall|k: int| 0 <= k < j ==> !stands_in(all, id, rel@, #[trigger] cs[k]),
        decreases copies@.len() - j,
    {
        let c = &copies[j];
        let itself = c.location.source_id == id && text::str_eq(c.location.path.as_str(), rel);
        let other_tree = preserve && c.location.source_id != id;
        if !itself && !other_tree && find_source(sources, c.location.source_id).is_some()
            && c.on_disk {
            proof {
                assert(stands_in(all, id, rel@, cs[j as int]));
            }
            return true;
        }
        proof {
            assert(!stands_in(all, id, rel@, cs[j as int]));
        }
        j = j + 1;
    }
    false
}

/// Whether every content held at a path also exists in another file on disk, so
/// that removing the path cannot destroy the only copy. `contents` lists, for
/// each content recorded at the path, all its recorded locations.
pub fn delete_has_surviving_copy(
    sources: &[Source],
    abs_path: &str,
    contents: &Vec<Vec<RecordedCopy>>,
) -> (r: bool)
    ensures
        r == survives(files::source_views(sources@), abs_path@, contents.deep_view()),
{
    let ghost all = files::source_views(sources@);
    let ghost lists = contents.deep_view();
    proof {
        assert(lists.len() == contents@.len());
    }
    let (id, rel) = match resolve_in_sources(sources, abs_path) {
        Some(found) => found,
        None => {
            return false;
        },
    };
    let preserve = match find_source(sources, id) {
        Some(i) => sources[i].disposition == Disposition::Preserve,
        None => true,
    };
    if contents.len() == 0 {
        return false;
    }
    let mut i: usize = 0;
    while i < contents.len()
        invariant
            i <= contents@.len(),
            all == files::source_views(sources@),
            lists == contents.deep_view(),
            preserve == strict(all, id),
            files::resolved(all, abs_path@) == Some((id, rel@)),
            forall|k: int| 0 <= k < i ==> covered(all, id, rel@, #[trigger] lists[k]),
        decreases contents@.len() - i,
    {
        if !covers(sources, id, rel.as_str(), preserve, &contents[i]) {
            proof {
                assert(!covered(all, id, rel@, lists[i as int]));
            }
            return false;
        }
        i = i + 1;
    }
    true
}

/// The name of a file in quarantine: its full digest and its own name.
pub open spec fn quarantine_name(sha1: Seq<char>, file_path: Seq<char>) -> Seq<char> {
    sha1 + "_"@ + match paths::file_name(file_path) {
        Some(name) => name,
        None => "unknown"@,
    }
}

/// Files with different digests never share a name in quarantine.
pub proof fn law_quarantine_names_do_not_collide(
    a: Seq<char>,
    p: Seq<char>,
    b: Seq<char>,
    q: Seq<char>,
)
    requires
        a.len() == b.len(),
        quarantine_name(a, p) == quarantine_name(b, q),
    ensures
        a == b,
{
    assert(quarantine_name(a, p).take(a.len() as int) =~= a);
    assert(quarantine_name(b, q).take(b.len() as int) =~= b);
}

/// A file keeps its own name in quarantine, after its digest.
pub proof fn law_quarantine_keeps_the_name(sha1: Seq<char>, dir: Seq<char>, name: Seq<char>)
    requires
        name.len() > 0,
        !name.contains('/'),
        name != seq!['.'],
        name != seq!['.', '.'],
    ensures
        quarantine_name(sha1, dir + "/"@ + name) == sha1 + "_"@ + name,
{
    paths::law_file_name_is_the_last_component(dir, name);
}

/// The name of a file in quarantine.
pub fn quarantine_filename(sha1: &str, file_path: &str) -> (r: String)
    ensures
        r@ == quarantine_name(sha1@, file_path@),
{
    match paths::file_name_of(file_path) {
        Some(name) => text::concat3(sha1, "_", name.as_str()),
        None => text::concat3(sha1, "_", "unknown"),
    }
}

} // verus!
