//! Destination path construction and validation for planned outputs.

use crate::paths;
use crate::paths::{join_under_root, validate_relative_path, PathError, PathErrorView};
use crate::text;
use vstd::prelude::*;

verus! {

/// The destination root of a collection: an explicit path as it is; else the
/// library-wide root joined with the collection's library path; else none.
pub open spec fn dest_root_of(
    explicit: Option<Seq<char>>,
    default_dest: Option<Seq<char>>,
    hierarchy: Seq<char>,
) -> Result<Option<Seq<char>>, PathErrorView> {
    match (explicit, default_dest) {
        (Some(p), _) => Ok(Some(p)),
        (None, None) => Ok(None),
        (None, Some(base)) => match paths::joined(
            base,
            seq![("collection hierarchy"@, hierarchy)],
        ) {
            Ok(root) => Ok(Some(root)),
            Err(e) => Err(e),
        },
    }
}

/// Where a loose ROM goes: flat for a single-ROM game, else in the game's folder.
pub open spec fn loose_dest(
    dest_root: Seq<char>,
    game_name: Seq<char>,
    rom_name: Seq<char>,
    multi_rom: bool,
) -> Result<Seq<char>, PathErrorView> {
    paths::joined(
        dest_root,
        if multi_rom {
            seq![("game name"@, game_name), ("ROM name"@, rom_name)]
        } else {
            seq![("ROM name"@, rom_name)]
        },
    )
}

/// Where the archive of a game goes.
pub open spec fn archive_dest(dest_root: Seq<char>, game_name: Seq<char>, ext: Seq<char>) -> Result<
    Seq<char>,
    PathErrorView,
> {
    match paths::fault_of(game_name) {
        Some(fault) => Err(PathErrorView { label: "game name"@, value: game_name, fault }),
        None => paths::joined(
            dest_root,
            seq![("archive filename"@, game_name + "."@ + ext)],
        ),
    }
}

/// Where a disk image goes: loose, in its game's folder.
pub open spec fn disk_dest(
    dest_root: Seq<char>,
    game_name: Seq<char>,
    rom_name: Seq<char>,
) -> Result<Seq<char>, PathErrorView> {
    match paths::fault_of(rom_name) {
        Some(fault) => Err(PathErrorView { label: "disk name"@, value: rom_name, fault }),
        None => paths::joined(
            dest_root,
            seq![("game name"@, game_name), ("disk filename"@, rom_name + ".chd"@)],
        ),
    }
}

/// Whether an executable result is the one that its model says.
pub open spec fn agrees(r: Result<String, PathError>, model: Result<Seq<char>, PathErrorView>) -> bool {
    match r {
        Ok(s) => model == Ok::<Seq<char>, PathErrorView>(s@),
        Err(e) => model == Err::<Seq<char>, PathErrorView>(e.deep_view()),
    }
}

/// Every destination built below a root lies below it and never climbs out.
pub proof fn law_destinations_stay_under_root(
    dest_root: Seq<char>,
    game_name: Seq<char>,
    rom_name: Seq<char>,
    ext: Seq<char>,
    multi_rom: bool,
)
    ensures
        loose_dest(dest_root, game_name, rom_name, multi_rom) matches Ok(out) ==> placed_below(
            dest_root,
            out,
        ),
        archive_dest(dest_root, game_name, ext) matches Ok(out) ==> placed_below(dest_root, out),
        disk_dest(dest_root, game_name, rom_name) matches Ok(out) ==> placed_below(dest_root, out),
{
    let a = if multi_rom {
        seq![("game name"@, game_name), ("ROM name"@, rom_name)]
    } else {
        seq![("ROM name"@, rom_name)]
    };
    let b = seq![("archive filename"@, game_name + "."@ + ext)];
    let c = seq![("game name"@, game_name), ("disk filename"@, rom_name + ".chd"@)];
    if paths::joined(dest_root, a) is Ok {
        paths::law_joined_stays_under_root(dest_root, a);
    }
    if paths::joined(dest_root, b) is Ok {
        paths::law_joined_stays_under_root(dest_root, b);
    }
    if paths::joined(dest_root, c) is Ok {
        paths::law_joined_stays_under_root(dest_root, c);
    }
}

/// What is pushed onto a path can be told from the path that comes out.
proof fn lemma_pushed_apart(base: Seq<char>, a: Seq<char>, b: Seq<char>)
    requires
        paths::pushed(base, a) == paths::pushed(base, b),
    ensures
        a == b,
{
    let lead = paths::folder(base);
    assert((lead + a).skip(lead.len() as int) =~= a);
    assert((lead + b).skip(lead.len() as int) =~= b);
}

proof fn lemma_one_part(root: Seq<char>, label: Seq<char>, part: Seq<char>)
    ensures
        paths::joined(root, seq![(label, part)]) matches Ok(out) ==> out == paths::pushed(
            paths::base_of(root),
            part,
        ),
{
    let parts = seq![(label, part)];
    assert(parts.drop_last() =~= Seq::empty());
    assert(paths::joined(root, parts.drop_last()) is Ok);
}

proof fn lemma_two_parts(root: Seq<char>, a: (Seq<char>, Seq<char>), b: (Seq<char>, Seq<char>))
    ensures
        paths::joined(root, seq![a, b]) matches Ok(out) ==> out == paths::pushed(
            paths::pushed(paths::base_of(root), a.1),
            b.1,
        ) && a.1.len() > 0,
{
    let parts = seq![a, b];
    assert(parts.drop_last() =~= seq![a]);
    lemma_one_part(root, a.0, a.1);
    assert(seq![a].drop_last() =~= Seq::empty());
    assert(paths::joined(root, seq![a].drop_last()) is Ok);
}

/// Each game of a collection has an archive of its own: different games never go
/// to the same archive.
pub proof fn law_games_have_archives_of_their_own(
    dest_root: Seq<char>,
    a: Seq<char>,
    b: Seq<char>,
    ext: Seq<char>,
)
    requires
        a != b,
        archive_dest(dest_root, a, ext) is Ok,
        archive_dest(dest_root, b, ext) is Ok,
    ensures
        archive_dest(dest_root, a, ext) != archive_dest(dest_root, b, ext),
{
    let base = paths::base_of(dest_root);
    let p = a + "."@ + ext;
    let q = b + "."@ + ext;
    lemma_one_part(dest_root, "archive filename"@, p);
    lemma_one_part(dest_root, "archive filename"@, q);
    if paths::pushed(base, p) == paths::pushed(base, q) {
        lemma_pushed_apart(base, p, q);
        let tail = "."@ + ext;
        assert(p =~= a + tail);
        assert(q =~= b + tail);
        assert(p.take(p.len() - tail.len()) =~= a);
        assert(q.take(q.len() - tail.len()) =~= b);
    }
}

/// The shape of a destination below a root that does not end in a separator: the
/// root, then the game's folder where the game has several ROMs, then the ROM; of an
/// archive the game's name with the extension; of a disk image the game's folder,
/// then its name with the extension of a compressed disk.
pub proof fn law_destinations_are_named_after_game_and_rom(
    dest_root: Seq<char>,
    game_name: Seq<char>,
    rom_name: Seq<char>,
    ext: Seq<char>,
)
    requires
        dest_root.len() > 0,
        dest_root.last() != '/',
        game_name.len() > 0 && game_name.last() != '/',
    ensures
        loose_dest(dest_root, game_name, rom_name, false) matches Ok(out) ==> out == dest_root
            + "/"@ + rom_name,
        loose_dest(dest_root, game_name, rom_name, true) matches Ok(out) ==> out == dest_root
            + "/"@ + game_name + "/"@ + rom_name,
        archive_dest(dest_root, game_name, ext) matches Ok(out) ==> out == dest_root + "/"@
            + game_name + "."@ + ext,
        disk_dest(dest_root, game_name, rom_name) matches Ok(out) ==> out == dest_root + "/"@
            + game_name + "/"@ + rom_name + ".chd"@,
{
    reveal_strlit("/");
    let base = paths::base_of(dest_root);
    assert(base == dest_root);
    lemma_one_part(dest_root, "ROM name"@, rom_name);
    lemma_two_parts(dest_root, ("game name"@, game_name), ("ROM name"@, rom_name));
    lemma_one_part(dest_root, "archive filename"@, game_name + "."@ + ext);
    lemma_two_parts(
        dest_root,
        ("game name"@, game_name),
        ("disk filename"@, rom_name + ".chd"@),
    );
    let folder = paths::pushed(base, game_name);
    assert(paths::pushed(base, rom_name) =~= dest_root + "/"@ + rom_name);
    assert(folder =~= dest_root + "/"@ + game_name);
    assert(folder.last() == game_name.last());
    assert(paths::pushed(folder, rom_name) =~= folder + "/"@ + rom_name);
    assert(paths::pushed(base, game_name + "."@ + ext) =~= dest_root + "/"@ + game_name + "."@
        + ext);
    assert(paths::pushed(folder, rom_name + ".chd"@) =~= folder + "/"@ + rom_name + ".chd"@);
}

/// Whatever the root and the game, an archive's path ends in a dot and its extension.
pub proof fn law_archive_has_its_extension(
    dest_root: Seq<char>,
    game_name: Seq<char>,
    ext: Seq<char>,
)
    ensures
        archive_dest(dest_root, game_name, ext) matches Ok(out) ==> text::finishes(
            out,
            "."@ + ext,
        ),
{
    let file = game_name + "."@ + ext;
    lemma_one_part(dest_root, "archive filename"@, file);
    let lead = paths::folder(paths::base_of(dest_root));
    let out = lead + file;
    let tail = "."@ + ext;
    assert(out.skip(out.len() - tail.len()) =~= tail);
}

/// The root below a library-wide one is that root with the library path after it.
pub proof fn lemma_default_root(base: Seq<char>, hierarchy: Seq<char>)
    requires
        base.len() > 0 && base.last() != '/',
        paths::fault_of(hierarchy) is None,
    ensures
        dest_root_of(None, Some(base), hierarchy) == Ok::<Option<Seq<char>>, PathErrorView>(
            Some(base + "/"@ + hierarchy),
        ),
{
    reveal_strlit("/");
    let part = seq![("collection hierarchy"@, hierarchy)];
    assert(part.drop_last() =~= Seq::empty());
    assert(paths::base_of(base) == base);
    assert(paths::joined(base, part.drop_last()) is Ok);
    assert(paths::pushed(base, hierarchy) =~= base + "/"@ + hierarchy);
}

/// A destination is built wherever the names can be placed below a root.
pub proof fn law_placeable_names_have_destinations(
    dest_root: Seq<char>,
    game_name: Seq<char>,
    rom_name: Seq<char>,
)
    requires
        paths::fault_of(game_name) is None,
        paths::fault_of(rom_name) is None,
    ensures
        loose_dest(dest_root, game_name, rom_name, true) is Ok,
        loose_dest(dest_root, game_name, rom_name, false) is Ok,
{
    let one = seq![("ROM name"@, rom_name)];
    let two = seq![("game name"@, game_name), ("ROM name"@, rom_name)];
    let first = seq![("game name"@, game_name)];
    assert(one.drop_last() =~= Seq::empty());
    assert(two.drop_last() =~= first);
    assert(first.drop_last() =~= Seq::empty());
    assert(paths::joined(dest_root, Seq::empty()) is Ok);
    assert(paths::joined(dest_root, first) is Ok);
}

/// Different ROMs of a collection go to different paths, where no name holds a
/// separator: all but two single-ROM games whose ROMs have the same name, which
/// are both placed flat.
pub proof fn law_roms_have_places_of_their_own(
    dest_root: Seq<char>,
    a: (Seq<char>, Seq<char>),
    a_multi: bool,
    b: (Seq<char>, Seq<char>),
    b_multi: bool,
)
    requires
        a != b,
        a.1 == b.1 ==> a_multi || b_multi,
        !a.0.contains('/') && !a.1.contains('/'),
        !b.0.contains('/') && !b.1.contains('/'),
        loose_dest(dest_root, a.0, a.1, a_multi) is Ok,
        loose_dest(dest_root, b.0, b.1, b_multi) is Ok,
    ensures
        loose_dest(dest_root, a.0, a.1, a_multi) != loose_dest(dest_root, b.0, b.1, b_multi),
{
    let base = paths::base_of(dest_root);
    lemma_loose_dest(dest_root, a, a_multi);
    lemma_loose_dest(dest_root, b, b_multi);
    let p = below(a, a_multi);
    let q = below(b, b_multi);
    if paths::pushed(base, p) == paths::pushed(base, q) {
        lemma_pushed_apart(base, p, q);
        lemma_first_separator(a, a_multi);
        lemma_first_separator(b, b_multi);
        if a_multi && b_multi {
            assert(p.take(a.0.len() as int) =~= a.0);
            assert(q.take(b.0.len() as int) =~= b.0);
            assert(p.skip(a.0.len() as int + 1) =~= a.1);
            assert(q.skip(b.0.len() as int + 1) =~= b.1);
        }
    }
}

/// Where a ROM goes below the root.
spec fn below(id: (Seq<char>, Seq<char>), multi_rom: bool) -> Seq<char> {
    if multi_rom {
        id.0.push('/') + id.1
    } else {
        id.1
    }
}

proof fn lemma_loose_dest(dest_root: Seq<char>, id: (Seq<char>, Seq<char>), multi_rom: bool)
    requires
        !id.0.contains('/'),
        loose_dest(dest_root, id.0, id.1, multi_rom) is Ok,
    ensures
        loose_dest(dest_root, id.0, id.1, multi_rom) == Ok::<Seq<char>, PathErrorView>(
            paths::pushed(paths::base_of(dest_root), below(id, multi_rom)),
        ),
{
    let base = paths::base_of(dest_root);
    if multi_rom {
        lemma_two_parts(dest_root, ("game name"@, id.0), ("ROM name"@, id.1));
        let folder = paths::pushed(base, id.0);
        assert(folder.last() == id.0.last());
        assert(id.0.contains(id.0.last()));
        assert(folder.push('/') + id.1 =~= paths::pushed(base, below(id, true)));
    } else {
        lemma_one_part(dest_root, "ROM name"@, id.1);
    }
}

proof fn lemma_first_separator(id: (Seq<char>, Seq<char>), multi_rom: bool)
    requires
        !id.0.contains('/'),
        !id.1.contains('/'),
    ensures
        text::first_index(below(id, multi_rom), '/') == (if multi_rom {
            id.0.len()
        } else {
            id.1.len()
        }),
        below(id, multi_rom).contains('/') == multi_rom,
{
    let s = below(id, multi_rom);
    let n = if multi_rom {
        id.0.len() as int
    } else {
        id.1.len() as int
    };
    assert forall|j: int| 0 <= j < n implies s[j] != '/' by {
        if multi_rom {
            assert(id.0.contains(id.0[j]));
        } else {
            assert(id.1.contains(id.1[j]));
        }
    }
    text::lemma_first_index_is(s, '/', n);
    text::lemma_first_index(s, '/');
}

/// A path below a root, with nothing after the root that climbs back.
pub open spec fn placed_below(root: Seq<char>, out: Seq<char>) -> bool {
    let base = paths::base_of(root);
    &&& text::begins(out, base)
    &&& text::begins(out, paths::folder(base))
    &&& !paths::climbs(out.skip(base.len() as int))
}

/// Resolves a collection's destination root, or none where there is neither an
/// explicit path nor a library-wide default.
pub fn resolve_dest_root(
    explicit: Option<&str>,
    default_dest: Option<&str>,
    hierarchy: &str,
) -> (r: Result<Option<String>, PathError>)
    ensures
        match r {
            Ok(root) => dest_root_of(explicit.deep_view(), default_dest.deep_view(), hierarchy@)
                == Ok::<Option<Seq<char>>, PathErrorView>(root.deep_view()),
            Err(e) => dest_root_of(explicit.deep_view(), default_dest.deep_view(), hierarchy@)
                == Err::<Option<Seq<char>>, PathErrorView>(e.deep_view()),
        },
{
    match explicit {
        Some(p) => Ok(Some(p.to_owned())),
        None => match default_dest {
            None => Ok(None),
            Some(base) => {
                let parts: [(&str, &str); 1] = [("collection hierarchy", hierarchy)];
                proof {
                    assert(paths::part_views(parts@) =~= seq![
                        ("collection hierarchy"@, hierarchy@),
                    ]);
                }
                match join_under_root(base, &parts) {
                    Ok(root) => Ok(Some(root)),
                    Err(e) => Err(e),
                }
            },
        },
    }
}

/// The destination of a loose ROM.
pub fn build_dest_path(dest_root: &str, game_name: &str, rom_name: &str, multi_rom: bool) -> (r:
    Result<String, PathError>)
    ensures
        agrees(r, loose_dest(dest_root@, game_name@, rom_name@, multi_rom)),
{
    if multi_rom {
        let parts: [(&str, &str); 2] = [("game name", game_name), ("ROM name", rom_name)];
        proof {
            assert(paths::part_views(parts@) =~= seq![
                ("game name"@, game_name@),
                ("ROM name"@, rom_name@),
            ]);
        }
        join_under_root(dest_root, &parts)
    } else {
        let parts: [(&str, &str); 1] = [("ROM name", rom_name)];
        proof {
            assert(paths::part_views(parts@) =~= seq![("ROM name"@, rom_name@)]);
        }
        join_under_root(dest_root, &parts)
    }
}

/// The destination of a game's archive.
pub fn build_archive_dest_path(dest_root: &str, game_name: &str, ext: &str) -> (r: Result<
    String,
    PathError,
>)
    ensures
        agrees(r, archive_dest(dest_root@, game_name@, ext@)),
{
    match validate_relative_path("game name", game_name) {
        Err(e) => Err(e),
        Ok(_) => {
            let file_name = text::concat3(game_name, ".", ext);
            let parts: [(&str, &str); 1] = [("archive filename", file_name.as_str())];
            proof {
                assert(paths::part_views(parts@) =~= seq![("archive filename"@, file_name@)]);
            }
            join_under_root(dest_root, &parts)
        },
    }
}

/// The destination of a disk image.
pub fn build_disk_dest_path(dest_root: &str, game_name: &str, rom_name: &str) -> (r: Result<
    String,
    PathError,
>)
    ensures
        agrees(r, disk_dest(dest_root@, game_name@, rom_name@)),
{
    match validate_relative_path("disk name", rom_name) {
        Err(e) => Err(e),
        Ok(_) => {
            let file_name = text::concat2(rom_name, ".chd");
            let parts: [(&str, &str); 2] = [
                ("game name", game_name),
                ("disk filename", file_name.as_str()),
            ];
            proof {
                assert(paths::part_views(parts@) =~= seq![
                    ("game name"@, game_name@),
                    ("disk filename"@, file_name@),
                ]);
            }
            join_under_root(dest_root, &parts)
        },
    }
}

} // verus!
