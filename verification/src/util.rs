//! How sizes and paths are shown.

use crate::text;
use vstd::prelude::*;

verus! {

/// A quotient in hundredths, rounded to the nearest, ties to even.
pub open spec fn hundredths(bytes: nat, unit: nat) -> nat {
    let q = bytes * 100 / unit;
    let r = bytes * 100 % unit;
    if 2 * r > unit || (2 * r == unit && q % 2 == 1) {
        q + 1
    } else {
        q
    }
}

/// A number of bytes in some unit, with two decimals.
pub open spec fn in_unit(bytes: nat, unit: nat, name: Seq<char>) -> Seq<char> {
    let h = hundredths(bytes, unit);
    text::decimal(h / 100) + "."@ + text::padded(h % 100, 2) + name
}

/// A size for people to read: plain below a kilobyte, else in the largest unit
/// that it reaches, up to gigabytes.
pub open spec fn size_text(bytes: u64) -> Seq<char> {
    if bytes >= 1073741824 {
        in_unit(bytes as nat, 1073741824, " GB"@)
    } else if bytes >= 1048576 {
        in_unit(bytes as nat, 1048576, " MB"@)
    } else if bytes >= 1024 {
        in_unit(bytes as nat, 1024, " KB"@)
    } else {
        text::decimal(bytes as nat) + " bytes"@
    }
}

fn unit_text(bytes: u64, unit: u64, name: &str) -> (r: String)
    requires
        unit >= 1024,
    ensures
        r@ == in_unit(bytes as nat, unit as nat, name@),
{
    let scaled: u128 = (bytes as u128) * 100;
    let wide: u128 = unit as u128;
    let q: u128 = scaled / wide;
    let r: u128 = scaled % wide;
    proof {
        assert(scaled / wide <= scaled) by (nonlinear_arith)
            requires
                wide >= 1,
        ;
        assert(scaled % wide < wide) by (nonlinear_arith)
            requires
                wide >= 1,
        ;
        assert(q <= 1844674407370955162) by (nonlinear_arith)
            requires
                q == scaled / wide,
                scaled <= 1844674407370955161500,
                wide >= 1024,
        ;
    }
    let h: u128 = if 2 * r > wide || (2 * r == wide && q % 2 == 1) {
        q + 1
    } else {
        q
    };
    let whole = text::decimal_string((h / 100) as u64);
    let part = text::padded_string((h % 100) as u64, 2);
    let number = text::concat3(whole.as_str(), ".", part.as_str());
    text::concat2(number.as_str(), name)
}

/// A size for people to read.
pub fn format_bytes(bytes: u64) -> (r: String)
    ensures
        r@ == size_text(bytes),
{
    if bytes >= 1073741824 {
        unit_text(bytes, 1073741824, " GB")
    } else if bytes >= 1048576 {
        unit_text(bytes, 1048576, " MB")
    } else if bytes >= 1024 {
        unit_text(bytes, 1024, " KB")
    } else {
        let number = text::decimal_string(bytes);
        text::concat2(number.as_str(), " bytes")
    }
}

/// A path that fits a width: itself, or three dots and as much of its end as
/// still fits.
pub open spec fn shortened(path: Seq<char>, width: nat) -> Seq<char> {
    if path.len() <= width {
        path
    } else {
        let tail = if width >= 3 {
            width - 3
        } else {
            0
        };
        "..."@ + path.skip(path.len() - tail)
    }
}

/// A shortened path has exactly the width that it was given.
pub proof fn law_shortened_path_fits(path: Seq<char>, width: nat)
    requires
        width >= 3,
    ensures
        shortened(path, width).len() <= width,
        path.len() > width ==> shortened(path, width).len() == width,
{
    reveal_strlit("...");
}

/// The hundredths that are shown are the nearest to the quotient, and the even one
/// of two that are equally near.
pub proof fn law_hundredths_are_the_nearest(bytes: nat, unit: nat)
    requires
        unit > 0,
    ensures
        2 * (hundredths(bytes, unit) * unit - bytes * 100) <= unit,
        2 * (bytes * 100 - hundredths(bytes, unit) * unit) <= unit,
        2 * (hundredths(bytes, unit) * unit - bytes * 100) == unit || 2 * (bytes * 100
            - hundredths(bytes, unit) * unit) == unit ==> hundredths(bytes, unit) % 2 == 0,
{
    let n = (bytes * 100) as int;
    let u = unit as int;
    let q = n / u;
    let r = n % u;
    vstd::arithmetic::div_mod::lemma_fundamental_div_mod(n, u);
    vstd::arithmetic::div_mod::lemma_mod_bound(n, u);
    vstd::arithmetic::mul::lemma_mul_is_commutative(u, q);
    vstd::arithmetic::mul::lemma_mul_is_distributive_add_other_way(u, q, 1);
    assert((q + 1) * u == q * u + u);
}

/// A size is shown in the largest of the units bytes, KB, MB and GB that it reaches,
/// beyond bytes as a number of hundredths that is the nearest to it.
pub proof fn law_sizes_are_shown_in_the_largest_unit(bytes: u64)
    ensures
        bytes < 1024 ==> size_text(bytes) == text::decimal(bytes as nat) + " bytes"@,
        1024 <= bytes < 1048576 ==> text::finishes(size_text(bytes), " KB"@) && size_text(bytes)
            == in_unit(bytes as nat, 1024, " KB"@),
        1048576 <= bytes < 1073741824 ==> text::finishes(size_text(bytes), " MB"@) && size_text(
            bytes,
        ) == in_unit(bytes as nat, 1048576, " MB"@),
        1073741824 <= bytes ==> text::finishes(size_text(bytes), " GB"@) && size_text(bytes)
            == in_unit(bytes as nat, 1073741824, " GB"@),
{
    let s = size_text(bytes);
    let name = if bytes >= 1073741824 {
        " GB"@
    } else if bytes >= 1048576 {
        " MB"@
    } else {
        " KB"@
    };
    if bytes >= 1024 {
        assert(s.skip(s.len() - name.len()) =~= name);
    }
}

/// A size beyond bytes reads as its hundredths: the digits before the point and the
/// two behind it spell them.
pub proof fn law_shown_number_is_in_hundredths(bytes: nat, unit: nat, name: Seq<char>)
    ensures
        exists|whole: Seq<char>, part: Seq<char>|
            in_unit(bytes, unit, name) == #[trigger] (whole + "."@ + part + name) && part.len()
                == 2 && text::spelt(whole) * 100 + text::spelt(part) == hundredths(bytes, unit),
{
    let h = hundredths(bytes, unit);
    let whole = text::decimal(h / 100);
    let part = text::padded(h % 100, 2);
    text::law_decimal_spells_its_number(h / 100);
    text::law_padding_keeps_the_number(h % 100, 2);
    text::lemma_decimal_len(h % 100);
    assert(in_unit(bytes, unit, name) == whole + "."@ + part + name);
}

/// A path that fits is shown whole, and of a longer one its end, after three dots.
pub proof fn law_end_of_the_path_is_shown(path: Seq<char>, width: nat)
    requires
        width >= 3,
    ensures
        path.len() <= width ==> shortened(path, width) == path,
        path.len() > width ==> text::begins(shortened(path, width), "..."@) && text::finishes(
            path,
            shortened(path, width).skip(3),
        ) && shortened(path, width).len() == width,
{
    reveal_strlit("...");
    if path.len() > width {
        let s = shortened(path, width);
        let tail = path.skip(path.len() - (width - 3));
        assert(s.take(3) =~= "..."@);
        assert(s.skip(3) =~= tail);
        assert(path.skip(path.len() - tail.len()) =~= tail);
    }
}

/// A path that fits a width.
pub fn truncate_path(path: &str, width: usize) -> (r: String)
    ensures
        r@ == shortened(path@, width as nat),
{
    let chars = text::chars_of(path);
    if chars.len() <= width {
        return path.to_owned();
    }
    let tail: usize = if width >= 3 {
        width - 3
    } else {
        0
    };
    let end = text::string_of(chars.as_slice(), chars.len() - tail, chars.len());
    proof {
        assert(chars@.subrange(chars@.len() - tail, chars@.len() as int) =~= path@.skip(
            path@.len() - tail,
        ));
    }
    text::concat2("...", end.as_str())
}

} // verus!
