//! Checks on files: what their content hashes to, and where output may go.

use crate::digest;
use crate::digest::{hex_upper, sha1_hex, verify_sha1};
use crate::paths;
use crate::text;
use vstd::prelude::*;

verus! {

/// Whether a path is that of a compressed disk image.
pub open spec fn chd(path: Seq<char>) -> bool {
    paths::extension(path) matches Some(e) && text::same_ignoring_case(e, "chd"@)
}

/// Why the header of a disk image cannot be read.
#[derive(Clone, Copy, Debug, PartialEq, Eq, Structural)]
pub enum ChdFault {
    /// Shorter than a header
    Truncated,
    /// Without the leading tag
    NotChd,
    /// Of a version whose layout is not known
    UnsupportedVersion,
}

/// The size of a version 5 header.
pub const CHD_HEADER: usize = 124;

/// The SHA-1 that a version 5 header records of the data inside, or what is wrong
/// with the header: eight bytes of tag, the version as a big-endian number at
/// offset 12, and the digest at offset 84.
pub open spec fn chd_digest(data: Seq<u8>) -> Result<Seq<u8>, ChdFault> {
    if data.len() < CHD_HEADER {
        Err(ChdFault::Truncated)
    } else if data.take(8) != seq![0x4du8, 0x43, 0x6f, 0x6d, 0x70, 0x72, 0x48, 0x44] {
        Err(ChdFault::NotChd)
    } else if data.subrange(12, 16) != seq![0u8, 0, 0, 5] {
        Err(ChdFault::UnsupportedVersion)
    } else {
        Ok(data.subrange(84, 104))
    }
}

/// Whether written content is what it should be: a disk image by the digest that
/// its header records, anything else by the digest of its bytes.
pub open spec fn written_ok(path: Seq<char>, data: Seq<u8>, expected: Seq<char>) -> Result<
    bool,
    ChdFault,
> {
    if chd(path) {
        match chd_digest(data) {
            Err(fault) => Err(fault),
            Ok(d) => Ok(text::same_ignoring_case(digest::hex(d), expected)),
        }
    } else {
        Ok(text::same_ignoring_case(digest::hex(digest::sha1_of(data)), expected))
    }
}

/// A disk image is told by its extension, in whatever case, and by nothing else.
pub proof fn law_disk_images_are_told_by_extension(stem: Seq<char>, ext: Seq<char>)
    requires
        stem.len() > 0,
        !stem.contains('/') && !ext.contains('/'),
        !ext.contains('.'),
        ext.len() > 0,
    ensures
        chd(stem + "."@ + ext) <==> text::lower_seq(ext) == "chd"@,
        !chd(ext),
{
    reveal_strlit("chd");
    paths::law_extension_follows_the_last_dot(stem, ext);
    assert(text::lower_seq("chd"@) =~= "chd"@);
}

/// The digest of a disk image stands in its header, in twenty bytes; what follows
/// the header does not count. A header that is cut short, or has another tag or
/// version, gives none.
pub proof fn law_digest_stands_in_the_header(data: Seq<u8>, more: Seq<u8>)
    ensures
        data.len() >= 124 ==> chd_digest(data + more) == chd_digest(data),
        chd_digest(data) is Ok <==> data.len() >= 124 && data[0] == 'M' as u8 && data[1]
            == 'C' as u8 && data[2] == 'o' as u8 && data[3] == 'm' as u8 && data[4] == 'p' as u8
            && data[5] == 'r' as u8 && data[6] == 'H' as u8 && data[7] == 'D' as u8 && data[12] == 0
            && data[13] == 0 && data[14] == 0 && data[15] == 5,
        chd_digest(data) matches Ok(d) ==> d.len() == 20 && forall|i: int|
            0 <= i < 20 ==> #[trigger] d[i] == data[84 + i],
        data.len() < 124 ==> chd_digest(data) == Err::<Seq<u8>, ChdFault>(ChdFault::Truncated),
{
    let tag = seq![0x4du8, 0x43, 0x6f, 0x6d, 0x70, 0x72, 0x48, 0x44];
    let five = seq![0u8, 0, 0, 5];
    if data.len() >= 124 {
        assert((data + more).take(8) =~= data.take(8));
        assert((data + more).subrange(12, 16) =~= data.subrange(12, 16));
        assert((data + more).subrange(84, 104) =~= data.subrange(84, 104));
        assert(forall|i: int| 0 <= i < 8 ==> data.take(8)[i] == data[i]);
        assert(forall|i: int| 0 <= i < 4 ==> data.subrange(12, 16)[i] == data[12 + i]);
        if data[0] == 0x4d && data[1] == 0x43 && data[2] == 0x6f && data[3] == 0x6d && data[4]
            == 0x70 && data[5] == 0x72 && data[6] == 0x48 && data[7] == 0x44 {
            assert(data.take(8) =~= tag);
        }
        if data.take(8) == tag {
            assert(data.take(8)[0] == tag[0] && data.take(8)[1] == tag[1] && data.take(8)[2]
                == tag[2] && data.take(8)[3] == tag[3] && data.take(8)[4] == tag[4]
                && data.take(8)[5] == tag[5] && data.take(8)[6] == tag[6] && data.take(8)[7]
                == tag[7]);
        }
        if data[12] == 0 && data[13] == 0 && data[14] == 0 && data[15] == 5 {
            assert(data.subrange(12, 16) =~= five);
        }
        if data.subrange(12, 16) == five {
            let v = data.subrange(12, 16);
            assert(v[0] == five[0] && v[1] == five[1] && v[2] == five[2] && v[3] == five[3]);
        }
    }
}

/// Written content passes exactly where its digest, case aside, is the expected one:
/// the digest of all its bytes, or, for a disk image, the one in its header. A disk
/// image whose header cannot be read is an error, not a pass.
pub proof fn law_content_passes_by_its_digest(
    path: Seq<char>,
    data: Seq<u8>,
    expected: Seq<char>,
)
    ensures
        !chd(path) ==> (written_ok(path, data, expected) == Ok::<bool, ChdFault>(
            text::lower_seq(digest::hex(digest::sha1_of(data))) == text::lower_seq(expected),
        )),
        chd(path) && chd_digest(data) is Ok ==> written_ok(path, data, expected) == Ok::<
            bool,
            ChdFault,
        >(text::lower_seq(digest::hex(chd_digest(data)->Ok_0)) == text::lower_seq(expected)),
        chd(path) && chd_digest(data) is Err ==> written_ok(path, data, expected) is Err,
{
}

/// Whether a path is that of a compressed disk image.
pub fn is_chd_path(path: &str) -> (r: bool)
    ensures
        r == chd(path@),
{
    match paths::extension_of(path) {
        Some(e) => text::eq_ignore_case(e.as_str(), "chd"),
        None => false,
    }
}

/// The upper-case digest that the header of a disk image records.
pub fn read_chd_sha1(data: &[u8]) -> (r: Result<String, ChdFault>)
    ensures
        match r {
            Ok(s) => chd_digest(data@) matches Ok(d) && s@ == digest::hex(d),
            Err(fault) => chd_digest(data@) == Err::<Seq<u8>, ChdFault>(fault),
        },
{
    if data.len() < CHD_HEADER {
        return Err(ChdFault::Truncated);
    }
    let tag_ok = data[0] == 0x4d && data[1] == 0x43 && data[2] == 0x6f && data[3] == 0x6d
        && data[4] == 0x70 && data[5] == 0x72 && data[6] == 0x48 && data[7] == 0x44;
    proof {
        let tag = seq![0x4du8, 0x43, 0x6f, 0x6d, 0x70, 0x72, 0x48, 0x44];
        if tag_ok {
            assert(data@.take(8) =~= tag);
        } else if data@.take(8) == tag {
            assert(forall|i: int| 0 <= i < 8 ==> data@.take(8)[i] == data@[i]);
            assert(data@.take(8)[0] == tag[0] && data@.take(8)[1] == tag[1] && data@.take(8)[2]
                == tag[2] && data@.take(8)[3] == tag[3] && data@.take(8)[4] == tag[4]
                && data@.take(8)[5] == tag[5] && data@.take(8)[6] == tag[6] && data@.take(8)[7]
                == tag[7]);
        }
    }
    if !tag_ok {
        return Err(ChdFault::NotChd);
    }
    let version_ok = data[12] == 0 && data[13] == 0 && data[14] == 0 && data[15] == 5;
    proof {
        let five = seq![0u8, 0, 0, 5];
        let v = data@.subrange(12, 16);
        if version_ok {
            assert(v =~= five);
        } else if v == five {
            assert(v[0] == data@[12] && v[1] == data@[13] && v[2] == data@[14] && v[3]
                == data@[15]);
        }
    }
    if !version_ok {
        return Err(ChdFault::UnsupportedVersion);
    }
    let mut d: Vec<u8> = Vec::new();
    let mut i: usize = 84;
    while i < 104
        invariant
            84 <= i <= 104,
            data@.len() >= CHD_HEADER,
            d@ == data@.subrange(84, i as int),
        decreases 104 - i,
    {
        d.push(data[i]);
        i = i + 1;
        proof {
            assert(d@ =~= data@.subrange(84, i as int));
        }
    }
    Ok(hex_upper(d.as_slice()))
}

/// Whether written content is what it should be.
pub fn verify_written_sha1(path: &str, data: &[u8], expected: &str) -> (r: Result<bool, ChdFault>)
    ensures
        r == written_ok(path@, data@, expected@),
{
    if is_chd_path(path) {
        match read_chd_sha1(data) {
            Ok(actual) => Ok(text::eq_ignore_case(actual.as_str(), expected)),
            Err(fault) => Err(fault),
        }
    } else {
        Ok(verify_sha1(data, expected))
    }
}

/// The upper-case digest of a whole file.
pub fn hash_file(data: &[u8]) -> (r: String)
    ensures
        r@ == digest::hex(digest::sha1_of(data@)),
{
    sha1_hex(data)
}

/// Whether two files hold the same content, by their digests.
pub fn byte_faithful(source: &[u8], dest: &[u8]) -> (r: bool)
    ensures
        r == (digest::hex(digest::sha1_of(source@)) == digest::hex(digest::sha1_of(dest@))),
        source@ == dest@ ==> r,
{
    let a = hash_file(source);
    let b = hash_file(dest);
    text::str_eq(a.as_str(), b.as_str())
}

/// A faithful copy verifies: a byte-for-byte copy of content that verifies also
/// verifies at any path of the same nature.
pub proof fn law_copies_verify_alike(
    from: Seq<char>,
    to: Seq<char>,
    data: Seq<u8>,
    expected: Seq<char>,
)
    requires
        chd(from) == chd(to),
    ensures
        written_ok(from, data, expected) == written_ok(to, data, expected),
{
}

/// Whether output may not go to a path: one that climbs, or starts with `.`.
pub open spec fn unsafe_output(path: Seq<char>) -> bool {
    paths::leads_with_dot(path) || paths::climbs(path)
}

/// Checks that output may go to a path.
pub fn validate_output_path(path: &str) -> (r: Result<(), String>)
    ensures
        match r {
            Ok(_) => !unsafe_output(path@),
            Err(message) => unsafe_output(path@) && message@
                == "output path contains an unsafe component: "@ + path@,
        },
{
    let chars = text::chars_of(path);
    if paths::dot_leads(chars.as_slice()) || paths::has_parent(chars.as_slice()) {
        Err(text::concat2("output path contains an unsafe component: ", path))
    } else {
        Ok(())
    }
}

/// Every destination that a plan is given below a root without `..` or a leading
/// `.` is one that output may go to.
pub proof fn law_built_destinations_are_writable(root: Seq<char>, part: Seq<char>)
    requires
        !unsafe_output(paths::base_of(root)),
        paths::fault_of(part) is None,
    ensures
        !unsafe_output(paths::pushed(paths::base_of(root), part)),
{
    let base = paths::base_of(root);
    let lead = paths::folder(base);
    let out = paths::pushed(base, part);
    if paths::climbs(out) {
        paths::lemma_climbs_join(lead, part);
        let i = choose|i: int| #[trigger] paths::parent_at(lead, i);
        assert(paths::parent_at(base, i));
    }
    if paths::leads_with_dot(out) {
        if base.len() == 0 {
            assert(out =~= part);
        } else {
            assert(out[0] == base[0]);
            if base.len() > 1 {
                assert(base[1] == out[1]);
            }
        }
    }
}

} // verus!
