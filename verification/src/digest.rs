//! SHA-1 digests in the upper-case hexadecimal form that catalogues hold.

use crate::text;
use sha1::Digest;
use vstd::prelude::*;

verus! {

/// The SHA-1 digest of a byte string.
pub uninterp spec fn sha1_of(data: Seq<u8>) -> Seq<u8>;

/// `sha1::Sha1::digest`: the SHA-1 digest of the bytes, twenty bytes long, a
/// function of the bytes alone.
#[verifier::external_body]
fn sha1_digest(data: &[u8]) -> (d: Vec<u8>)
    ensures
        d@ == sha1_of(data@),
        d@.len() == 20,
{
    sha1::Sha1::digest(data).to_vec()
}

/// The upper-case hexadecimal digit of a number below sixteen.
pub open spec fn hex_digit(n: nat) -> char {
    if n < 10 {
        (n + 48) as char
    } else {
        (n + 55) as char
    }
}

/// The upper-case hexadecimal text of a byte string.
pub open spec fn hex(bytes: Seq<u8>) -> Seq<char> {
    Seq::new(
        2 * bytes.len(),
        |i: int|
            if i % 2 == 0 {
                hex_digit((bytes[i / 2] / 16) as nat)
            } else {
                hex_digit((bytes[i / 2] % 16) as nat)
            },
    )
}

fn hex_char(n: u8) -> (c: char)
    requires
        n < 16,
    ensures
        c == hex_digit(n as nat),
{
    if n < 10 {
        (n + 48) as char
    } else {
        (n + 55) as char
    }
}

/// The upper-case hexadecimal text of a byte string.
pub fn hex_upper(bytes: &[u8]) -> (s: String)
    ensures
        s@ == hex(bytes@),
{
    let mut s = String::new();
    let mut i: usize = 0;
    while i < bytes.len()
        invariant
            i <= bytes@.len(),
            s@ == hex(bytes@.take(i as int)),
        decreases bytes@.len() - i,
    {
        let ghost before = bytes@.take(i as int);
        s.push(hex_char(bytes[i] / 16));
        s.push(hex_char(bytes[i] % 16));
        i = i + 1;
        proof {
            let now = bytes@.take(i as int);
            assert forall|j: int| 0 <= j < hex(now).len() implies s@[j] == hex(now)[j] by {
                if j < 2 * before.len() {
                    assert(now[j / 2] == before[j / 2]);
                    assert(hex(before)[j] == hex(now)[j]);
                } else {
                    assert(j / 2 == i - 1);
                }
            }
            assert(s@ =~= hex(now));
        }
    }
    proof {
        assert(bytes@.take(i as int) =~= bytes@);
    }
    s
}

/// The number that a hexadecimal digit stands for.
pub open spec fn hex_value(c: char) -> int {
    if '0' <= c && c <= '9' {
        c as int - '0' as int
    } else {
        c as int - 'A' as int + 10
    }
}

/// The hexadecimal text of a byte string spells each byte in two digits, the higher
/// first, all of them decimal digits or capital letters up to F.
pub proof fn law_hex_spells_the_bytes(bytes: Seq<u8>, i: int)
    requires
        0 <= i < bytes.len(),
    ensures
        hex(bytes).len() == 2 * bytes.len(),
        hex_value(hex(bytes)[2 * i]) * 16 + hex_value(hex(bytes)[2 * i + 1]) == bytes[i],
        '0' <= hex(bytes)[2 * i] <= '9' || 'A' <= hex(bytes)[2 * i] <= 'F',
        '0' <= hex(bytes)[2 * i + 1] <= '9' || 'A' <= hex(bytes)[2 * i + 1] <= 'F',
{
    let b = bytes[i];
    assert(hex(bytes)[2 * i] == hex_digit((b / 16) as nat));
    assert((2 * i + 1) / 2 == i);
    assert(hex(bytes)[2 * i + 1] == hex_digit((b % 16) as nat));
    assert(b / 16 < 16 && b % 16 < 16);
}

/// The upper-case hexadecimal SHA-1 of a byte string.
pub fn sha1_hex(data: &[u8]) -> (s: String)
    ensures
        s@ == hex(sha1_of(data@)),
        s@.len() == 40,
{
    let d = sha1_digest(data);
    hex_upper(d.as_slice())
}

/// Whether a byte string has the expected SHA-1, in either case of its digits.
pub fn verify_sha1(data: &[u8], expected: &str) -> (r: bool)
    ensures
        r == text::same_ignoring_case(hex(sha1_of(data@)), expected@),
{
    let actual = sha1_hex(data);
    text::eq_ignore_case(actual.as_str(), expected)
}

} // verus!
