//! Text helpers over `Seq<char>` models: ASCII case folding, trimming,
//! splitting, searching, decimal rendering and the byte order of strings.

use vstd::prelude::*;
use vstd::string::StringExecFns;
use vstd::utf8::encode_utf8;

verus! {

/// `String::push`: the character is appended and nothing else changes.
pub assume_specification[ String::push ](s: &mut String, c: char)
    ensures
        final(s)@ == old(s)@.push(c),
;

/// The ASCII lower-case form of a character; every other character is kept.
pub open spec fn lower(c: char) -> char {
    if 'A' <= c && c <= 'Z' {
        (c as u8 + 32) as char
    } else {
        c
    }
}

/// The ASCII lower-case form of a text.
pub open spec fn lower_seq(s: Seq<char>) -> Seq<char> {
    s.map_values(|c: char| lower(c))
}

/// Two texts that differ at most in ASCII case.
pub open spec fn same_ignoring_case(a: Seq<char>, b: Seq<char>) -> bool {
    lower_seq(a) == lower_seq(b)
}

/// The characters with the Unicode White_Space property.
pub open spec fn white(c: char) -> bool {
    let n = c as u32;
    ||| 0x9 <= n <= 0xd
    ||| n == 0x20
    ||| n == 0x85
    ||| n == 0xa0
    ||| n == 0x1680
    ||| 0x2000 <= n <= 0x200a
    ||| n == 0x2028
    ||| n == 0x2029
    ||| n == 0x202f
    ||| n == 0x205f
    ||| n == 0x3000
}

pub open spec fn trim_start(s: Seq<char>) -> Seq<char>
    decreases s.len(),
{
    if s.len() > 0 && white(s[0]) {
        trim_start(s.drop_first())
    } else {
        s
    }
}

pub open spec fn trim_end(s: Seq<char>) -> Seq<char>
    decreases s.len(),
{
    if s.len() > 0 && white(s.last()) {
        trim_end(s.drop_last())
    } else {
        s
    }
}

/// A text without its leading and trailing white space.
pub open spec fn trim(s: Seq<char>) -> Seq<char> {
    trim_end(trim_start(s))
}

/// A text without the given character at its end.
pub open spec fn trim_end_char(s: Seq<char>, c: char) -> Seq<char>
    decreases s.len(),
{
    if s.len() > 0 && s.last() == c {
        trim_end_char(s.drop_last(), c)
    } else {
        s
    }
}

/// The position of the first `c` in `s`, or the length of `s`.
pub open spec fn first_index(s: Seq<char>, c: char) -> int
    decreases s.len(),
{
    if s.len() == 0 || s[0] == c {
        0
    } else {
        1 + first_index(s.drop_first(), c)
    }
}

/// The pieces of a text between the separators: always at least one piece.
pub open spec fn split(s: Seq<char>, sep: char) -> Seq<Seq<char>>
    decreases s.len(),
{
    let i = first_index(s, sep);
    if 0 <= i < s.len() {
        seq![s.take(i)] + split(s.skip(i + 1), sep)
    } else {
        seq![s]
    }
}

/// Whether `p` begins `s`.
pub open spec fn begins(s: Seq<char>, p: Seq<char>) -> bool {
    p.len() <= s.len() && s.take(p.len() as int) == p
}

/// Whether `p` ends `s`.
pub open spec fn finishes(s: Seq<char>, p: Seq<char>) -> bool {
    p.len() <= s.len() && s.skip(s.len() - p.len()) == p
}

/// How many bytes the UTF-8 form of a character takes.
pub open spec fn utf8_width(c: char) -> nat {
    let n = c as u32;
    if n < 0x80 {
        1
    } else if n < 0x800 {
        2
    } else if n < 0x10000 {
        3
    } else {
        4
    }
}

/// How many bytes the UTF-8 form of a text takes.
pub open spec fn utf8_len(s: Seq<char>) -> nat
    decreases s.len(),
{
    if s.len() == 0 {
        0
    } else {
        utf8_len(s.drop_last()) + utf8_width(s.last())
    }
}

/// The decimal digit of a number below ten.
pub open spec fn digit(n: nat) -> char {
    (n + 48) as char
}

/// A number in decimal, without leading zeros.
pub open spec fn decimal(n: nat) -> Seq<char>
    decreases n,
{
    if n < 10 {
        seq![digit(n)]
    } else {
        decimal(n / 10).push(digit(n % 10))
    }
}

/// A number in decimal, filled up with leading zeros to at least `width` characters.
pub open spec fn padded(n: nat, width: nat) -> Seq<char> {
    zeros((width - decimal(n).len()) as int) + decimal(n)
}

/// That many zero digits (none for a negative count).
pub open spec fn zeros(n: int) -> Seq<char> {
    Seq::new((if n > 0 { n } else { 0 }) as nat, |i: int| '0')
}

/// Lexicographic order of byte strings.
pub open spec fn bytes_before(a: Seq<u8>, b: Seq<u8>) -> bool
    decreases a.len(),
{
    if b.len() == 0 {
        false
    } else if a.len() == 0 {
        true
    } else if a[0] != b[0] {
        a[0] < b[0]
    } else {
        bytes_before(a.drop_first(), b.drop_first())
    }
}

/// The order of strings: that of their UTF-8 bytes.
pub open spec fn before(a: Seq<char>, b: Seq<char>) -> bool {
    bytes_before(encode_utf8(a), encode_utf8(b))
}

/// Where one value stands relative to another in a total order.
#[derive(Clone, Copy, Debug, PartialEq, Eq, Structural)]
pub enum Rank {
    Before,
    Same,
    After,
}

// ---------------------------------------------------------------------------
// Lemmas
// ---------------------------------------------------------------------------

pub proof fn lemma_bytes_irreflexive(a: Seq<u8>)
    ensures
        !bytes_before(a, a),
    decreases a.len(),
{
    if a.len() > 0 {
        lemma_bytes_irreflexive(a.drop_first());
    }
}

pub proof fn lemma_bytes_transitive(a: Seq<u8>, b: Seq<u8>, c: Seq<u8>)
    requires
        bytes_before(a, b),
        bytes_before(b, c),
    ensures
        bytes_before(a, c),
    decreases a.len(),
{
    if a.len() > 0 && b.len() > 0 && c.len() > 0 && a[0] == b[0] && b[0] == c[0] {
        lemma_bytes_transitive(a.drop_first(), b.drop_first(), c.drop_first());
    }
}

pub proof fn lemma_bytes_total(a: Seq<u8>, b: Seq<u8>)
    ensures
        bytes_before(a, b) || bytes_before(b, a) || a == b,
    decreases a.len(),
{
    if a.len() > 0 && b.len() > 0 && a[0] == b[0] {
        lemma_bytes_total(a.drop_first(), b.drop_first());
        if a.drop_first() == b.drop_first() {
            assert(a =~= seq![a[0]] + a.drop_first());
            assert(b =~= seq![b[0]] + b.drop_first());
        }
    } else if a.len() == 0 && b.len() == 0 {
        assert(a =~= b);
    }
}

/// Texts with the same bytes are the same.
pub proof fn lemma_encoding_injective(a: Seq<char>, b: Seq<char>)
    requires
        encode_utf8(a) == encode_utf8(b),
    ensures
        a == b,
{
    vstd::utf8::encode_utf8_decode_utf8(a);
    vstd::utf8::encode_utf8_decode_utf8(b);
}

pub proof fn lemma_first_index(s: Seq<char>, c: char)
    ensures
        0 <= first_index(s, c) <= s.len(),
        first_index(s, c) < s.len() ==> s[first_index(s, c)] == c,
        forall|j: int| 0 <= j < first_index(s, c) ==> s[j] != c,
        s.contains(c) <==> first_index(s, c) < s.len(),
    decreases s.len(),
{
    if s.len() > 0 && s[0] != c {
        let t = s.drop_first();
        lemma_first_index(t, c);
        assert forall|j: int| 0 <= j < first_index(s, c) implies s[j] != c by {
            if j > 0 {
                assert(s[j] == t[j - 1]);
            }
        }
        if s.contains(c) {
            let j = choose|j: int| 0 <= j < s.len() && s[j] == c;
            assert(t[j - 1] == c);
        }
        if first_index(t, c) < t.len() {
            assert(s[first_index(t, c) + 1] == c);
        }
    }
}

/// A position with no `c` before it and `c` at it (or the end) is the first index.
pub proof fn lemma_first_index_is(s: Seq<char>, c: char, i: int)
    requires
        0 <= i <= s.len(),
        i < s.len() ==> s[i] == c,
        forall|j: int| 0 <= j < i ==> s[j] != c,
    ensures
        first_index(s, c) == i,
{
    lemma_first_index(s, c);
    let f = first_index(s, c);
    if f < i {
        assert(s[f] != c);
    }
    if i < f {
        assert(s[i] != c);
    }
}

/// Each prefix of a text takes no more bytes than the text.
pub proof fn lemma_utf8_len_prefix(s: Seq<char>, n: int)
    requires
        0 <= n <= s.len(),
    ensures
        utf8_len(s.take(n)) <= utf8_len(s),
    decreases s.len(),
{
    if n < s.len() {
        lemma_utf8_len_prefix(s.drop_last(), n);
        assert(s.drop_last().take(n) =~= s.take(n));
    } else {
        assert(s.take(n) =~= s);
    }
}

/// Lower case changes the twenty-six capital letters, each to its small one, and
/// nothing else.
pub proof fn law_lower_case_is_of_letters(s: Seq<char>, i: int)
    requires
        0 <= i < s.len(),
    ensures
        lower_seq(s).len() == s.len(),
        65 <= s[i] as int <= 90 ==> lower_seq(s)[i] as int == s[i] as int + 32,
        !(65 <= s[i] as int <= 90) ==> lower_seq(s)[i] == s[i],
        lower_seq(lower_seq(s)) == lower_seq(s),
{
    assert(lower_seq(lower_seq(s)) =~= lower_seq(s));
}

proof fn lemma_trim_start(s: Seq<char>)
    ensures
        exists|k: int|
            0 <= k <= s.len() && #[trigger] s.skip(k) == trim_start(s) && forall|j: int|
                0 <= j < k ==> white(#[trigger] s[j]),
        trim_start(s).len() > 0 ==> !white(trim_start(s)[0]),
    decreases s.len(),
{
    if s.len() > 0 && white(s[0]) {
        let t = s.drop_first();
        lemma_trim_start(t);
        let k = choose|k: int|
            0 <= k <= t.len() && #[trigger] t.skip(k) == trim_start(t) && forall|j: int|
                0 <= j < k ==> white(#[trigger] t[j]);
        assert(s.skip(k + 1) =~= t.skip(k));
        assert forall|j: int| 0 <= j < k + 1 implies white(#[trigger] s[j]) by {
            if j > 0 {
                assert(t[j - 1] == s[j]);
            }
        }
    } else {
        assert(s.skip(0) =~= s);
    }
}

proof fn lemma_trim_end(s: Seq<char>)
    ensures
        exists|k: int|
            0 <= k <= s.len() && #[trigger] s.take(k) == trim_end(s) && forall|j: int|
                k <= j < s.len() ==> white(#[trigger] s[j]),
        trim_end(s).len() > 0 ==> !white(trim_end(s).last()),
    decreases s.len(),
{
    if s.len() > 0 && white(s.last()) {
        let t = s.drop_last();
        lemma_trim_end(t);
        let k = choose|k: int|
            0 <= k <= t.len() && #[trigger] t.take(k) == trim_end(t) && forall|j: int|
                k <= j < t.len() ==> white(#[trigger] t[j]);
        assert(s.take(k) =~= t.take(k));
        assert forall|j: int| k <= j < s.len() implies white(#[trigger] s[j]) by {
            if j < t.len() {
                assert(t[j] == s[j]);
            }
        }
    } else {
        assert(s.take(s.len() as int) =~= s);
    }
}

/// Trimming takes white space from both ends, all of it, and nothing else.
pub proof fn law_trimming_takes_the_edges(s: Seq<char>)
    ensures
        trim(s).len() > 0 ==> !white(trim(s)[0]) && !white(trim(s).last()),
        exists|a: int, b: int|
            0 <= a <= b <= s.len() && #[trigger] s.subrange(a, b) == trim(s) && (forall|j: int|
                0 <= j < a ==> white(#[trigger] s[j])) && (forall|j: int|
                b <= j < s.len() ==> white(#[trigger] s[j])),
{
    lemma_trim_start(s);
    let t = trim_start(s);
    lemma_trim_end(t);
    let a = choose|k: int|
        0 <= k <= s.len() && #[trigger] s.skip(k) == t && forall|j: int|
            0 <= j < k ==> white(#[trigger] s[j]);
    let k = choose|k: int|
        0 <= k <= t.len() && #[trigger] t.take(k) == trim_end(t) && forall|j: int|
            k <= j < t.len() ==> white(#[trigger] t[j]);
    assert(s.subrange(a, a + k) =~= t.take(k));
    assert forall|j: int| a + k <= j < s.len() implies white(#[trigger] s[j]) by {
        assert(t[j - a] == s[j]);
    }
    if k > 0 {
        assert(trim(s)[0] == t[0]);
    }
}

/// The white space of ASCII: tab, line feed, vertical tab, form feed, carriage
/// return and space.
pub proof fn law_ascii_white_space(c: char)
    requires
        c as int <= 127,
    ensures
        white(c) <==> c == '\t' || c == '\n' || c as int == 11 || c as int == 12 || c == '\r' || c
            == ' ',
{
}

/// Pieces with a separator between each two.
pub open spec fn rejoined(parts: Seq<Seq<char>>, sep: char) -> Seq<char>
    decreases parts.len(),
{
    if parts.len() == 0 {
        Seq::empty()
    } else if parts.len() == 1 {
        parts[0]
    } else {
        parts[0].push(sep) + rejoined(parts.drop_first(), sep)
    }
}

/// Splitting loses nothing: the pieces hold no separator, and with separators
/// between them they are the text again.
pub proof fn law_split_pieces_rejoin(s: Seq<char>, sep: char)
    ensures
        split(s, sep).len() > 0,
        rejoined(split(s, sep), sep) == s,
        forall|i: int| 0 <= i < split(s, sep).len() ==> !(#[trigger] split(s, sep)[i]).contains(sep),
    decreases s.len(),
{
    lemma_first_index(s, sep);
    let i = first_index(s, sep);
    let parts = split(s, sep);
    if i < s.len() {
        let rest = s.skip(i + 1);
        law_split_pieces_rejoin(rest, sep);
        assert(parts.drop_first() =~= split(rest, sep));
        assert(s =~= s.take(i).push(sep) + rest);
        assert(!s.take(i).contains(sep)) by {
            if s.take(i).contains(sep) {
                let j = choose|j: int| 0 <= j < i && s.take(i)[j] == sep;
                assert(s[j] != sep);
            }
        }
        assert forall|k: int| 0 <= k < parts.len() implies !(#[trigger] parts[k]).contains(
            sep,
        ) by {
            if k > 0 {
                assert(parts[k] == split(rest, sep)[k - 1]);
            }
        }
    } else {
        assert(parts =~= seq![s]);
    }
}

/// The number that decimal digits spell.
pub open spec fn spelt(s: Seq<char>) -> int
    decreases s.len(),
{
    if s.len() == 0 {
        0
    } else {
        spelt(s.drop_last()) * 10 + (s.last() as int - '0' as int)
    }
}

/// A number in decimal spells that number, in digits alone, and begins with no zero
/// unless it is zero.
pub proof fn law_decimal_spells_its_number(n: nat)
    ensures
        spelt(decimal(n)) == n,
        decimal(n).len() > 0,
        forall|i: int| 0 <= i < decimal(n).len() ==> '0' <= #[trigger] decimal(n)[i] <= '9',
        decimal(n)[0] == '0' ==> n == 0 && decimal(n).len() == 1,
    decreases n,
{
    let d = decimal(n);
    if n < 10 {
        assert(d.drop_last() =~= Seq::<char>::empty());
        assert(spelt(d.drop_last()) == 0);
    } else {
        law_decimal_spells_its_number(n / 10);
        assert(d.drop_last() =~= decimal(n / 10));
        assert(d.last() == digit(n % 10));
        assert(d[0] == decimal(n / 10)[0]);
    }
}

proof fn lemma_leading_zeros(k: int, s: Seq<char>)
    ensures
        spelt(zeros(k) + s) == spelt(s),
    decreases s.len(), k,
{
    if s.len() > 0 {
        lemma_leading_zeros(k, s.drop_last());
        assert((zeros(k) + s).drop_last() =~= zeros(k) + s.drop_last());
    } else if k > 0 {
        lemma_leading_zeros(k - 1, s);
        assert((zeros(k) + s).drop_last() =~= zeros(k - 1) + s);
    } else {
        assert(zeros(k) + s =~= s);
    }
}

/// How many digits a number takes grows with it.
pub proof fn lemma_decimal_len(n: nat)
    ensures
        n < 10 ==> decimal(n).len() == 1,
        n < 100 ==> decimal(n).len() <= 2,
        n < 10000 ==> decimal(n).len() <= 4,
{
    reveal_with_fuel(decimal, 5);
}

/// A padded number spells the same number, with zeros before it up to the width and
/// no more.
pub proof fn law_padding_keeps_the_number(n: nat, width: nat)
    ensures
        spelt(padded(n, width)) == n,
        padded(n, width).len() == (if decimal(n).len() > width {
            decimal(n).len()
        } else {
            width
        }),
        finishes(padded(n, width), decimal(n)),
{
    law_decimal_spells_its_number(n);
    let k = (width - decimal(n).len()) as int;
    lemma_leading_zeros(k, decimal(n));
    let p = padded(n, width);
    assert(p.skip(p.len() - decimal(n).len()) =~= decimal(n));
}

/// Trimming a character from the end takes every one that stands there and nothing
/// else.
pub proof fn law_trimmed_end_is_that_character(s: Seq<char>, c: char)
    ensures
        trim_end_char(s, c).len() <= s.len(),
        s.take(trim_end_char(s, c).len() as int) == trim_end_char(s, c),
        forall|j: int| trim_end_char(s, c).len() <= j < s.len() ==> #[trigger] s[j] == c,
        trim_end_char(s, c).len() > 0 ==> trim_end_char(s, c).last() != c,
    decreases s.len(),
{
    if s.len() > 0 && s.last() == c {
        let t = s.drop_last();
        law_trimmed_end_is_that_character(t, c);
        let n = trim_end_char(t, c).len() as int;
        assert(s.take(n) =~= t.take(n));
        assert forall|j: int| n <= j < s.len() implies #[trigger] s[j] == c by {
            if j < t.len() {
                assert(t[j] == s[j]);
            }
        }
    } else {
        assert(s.take(s.len() as int) =~= s);
    }
}

/// The first byte in which two byte strings differ decides which comes first; a
/// byte string comes before every longer one that it begins.
pub proof fn law_first_difference_decides(p: Seq<u8>, x: u8, a: Seq<u8>, y: u8, b: Seq<u8>)
    ensures
        x < y ==> bytes_before(p.push(x) + a, p.push(y) + b),
        bytes_before(p, p.push(x) + a),
        !bytes_before(p.push(x) + a, p),
    decreases p.len(),
{
    let s = p.push(x) + a;
    let t = p.push(y) + b;
    if p.len() > 0 {
        let q = p.drop_first();
        law_first_difference_decides(q, x, a, y, b);
        assert(s.drop_first() =~= q.push(x) + a);
        assert(t.drop_first() =~= q.push(y) + b);
    }
}

/// Texts of the same letters in another case are the same ignoring case, and texts
/// of different lengths are not.
pub proof fn law_case_is_ignored(a: Seq<char>, b: Seq<char>)
    ensures
        same_ignoring_case(a, b) <==> a.len() == b.len() && forall|i: int|
            0 <= i < a.len() ==> (#[trigger] a[i] == b[i] || (65 <= a[i] as int <= 90 && b[i] as int
                == a[i] as int + 32) || (65 <= b[i] as int <= 90 && a[i] as int == b[i] as int
                + 32)),
{
    let la = lower_seq(a);
    let lb = lower_seq(b);
    if la == lb {
        assert(la.len() == lb.len());
        assert forall|i: int| 0 <= i < a.len() implies (#[trigger] a[i] == b[i] || (65
            <= a[i] as int <= 90 && b[i] as int == a[i] as int + 32) || (65 <= b[i] as int <= 90
            && a[i] as int == b[i] as int + 32)) by {
            assert(la[i] == lb[i]);
        }
    }
    if a.len() == b.len() && forall|i: int|
        0 <= i < a.len() ==> (#[trigger] a[i] == b[i] || (65 <= a[i] as int <= 90 && b[i] as int
            == a[i] as int + 32) || (65 <= b[i] as int <= 90 && a[i] as int == b[i] as int + 32)) {
        assert(la =~= lb) by {
            assert forall|i: int| 0 <= i < la.len() implies la[i] == lb[i] by {
                assert(la[i] == lower(a[i]) && lb[i] == lower(b[i]));
            }
        }
    }
}

proof fn lemma_utf8_len_front(s: Seq<char>)
    requires
        s.len() > 0,
    ensures
        utf8_len(s) == utf8_width(s[0]) + utf8_len(s.drop_first()),
    decreases s.len(),
{
    if s.len() == 1 {
        assert(s.drop_last() =~= Seq::<char>::empty());
        assert(s.drop_first() =~= Seq::<char>::empty());
        assert(s.last() == s[0]);
        assert(utf8_len(Seq::<char>::empty()) == 0);
    } else {
        let t = s.drop_last();
        lemma_utf8_len_front(t);
        assert(t.drop_first() =~= s.drop_first().drop_last());
        assert(s.drop_first().last() == s.last());
        assert(t[0] == s[0]);
    }
}

/// How many bytes a text takes is how many its UTF-8 form has.
pub proof fn law_utf8_length_is_of_the_encoding(s: Seq<char>)
    ensures
        utf8_len(s) == encode_utf8(s).len(),
    decreases s.len(),
{
    if s.len() > 0 {
        law_utf8_length_is_of_the_encoding(s.drop_first());
        lemma_utf8_len_front(s);
        vstd::utf8::char_is_scalar(s[0]);
    }
}

// ---------------------------------------------------------------------------
// Executable helpers
// ---------------------------------------------------------------------------

/// The characters of a text.
pub fn chars_of(s: &str) -> (v: Vec<char>)
    ensures
        v@ == s@,
{
    let mut v: Vec<char> = Vec::new();
    for c in it: s.chars()
        invariant
            it.seq() == s@,
            v@ == s@.take(it.index()),
    {
        v.push(c);
        proof {
            assert(s@.take(it.index() + 1) =~= s@.take(it.index()).push(c));
        }
    }
    proof {
        assert(s@.take(s@.len() as int) =~= s@);
    }
    v
}

/// The text made of the characters in `from..to`.
pub fn string_of(chars: &[char], from: usize, to: usize) -> (s: String)
    requires
        from <= to <= chars@.len(),
    ensures
        s@ == chars@.subrange(from as int, to as int),
{
    let mut s = String::new();
    let mut i: usize = from;
    while i < to
        invariant
            from <= i <= to <= chars@.len(),
            s@ == chars@.subrange(from as int, i as int),
        decreases to - i,
    {
        s.push(chars[i]);
        i = i + 1;
        proof {
            assert(chars@.subrange(from as int, i as int) =~= chars@.subrange(
                from as int,
                i - 1,
            ).push(chars@[i - 1]));
        }
    }
    s
}

/// How two byte strings stand to one another.
pub fn bytes_rank(a: &[u8], b: &[u8]) -> (r: Rank)
    ensures
        match r {
            Rank::Before => bytes_before(a@, b@),
            Rank::Same => a@ == b@,
            Rank::After => bytes_before(b@, a@),
        },
{
    let mut i: usize = 0;
    proof {
        assert(a@.skip(0) =~= a@);
        assert(b@.skip(0) =~= b@);
    }
    while i < a.len() && i < b.len()
        invariant
            i <= a@.len(),
            i <= b@.len(),
            a@.take(i as int) == b@.take(i as int),
            bytes_before(a@, b@) == bytes_before(a@.skip(i as int), b@.skip(i as int)),
            bytes_before(b@, a@) == bytes_before(b@.skip(i as int), a@.skip(i as int)),
        decreases a@.len() - i,
    {
        let x: u8 = a[i];
        let y: u8 = b[i];
        proof {
            assert(a@.skip(i as int).drop_first() =~= a@.skip(i + 1));
            assert(b@.skip(i as int).drop_first() =~= b@.skip(i + 1));
        }
        if x < y {
            return Rank::Before;
        }
        if y < x {
            return Rank::After;
        }
        proof {
            assert(a@.take(i + 1) =~= a@.take(i as int).push(x));
            assert(b@.take(i + 1) =~= b@.take(i as int).push(y));
        }
        i = i + 1;
    }
    if i < b.len() {
        Rank::Before
    } else if i < a.len() {
        Rank::After
    } else {
        proof {
            assert(a@.take(i as int) =~= a@);
            assert(b@.take(i as int) =~= b@);
        }
        Rank::Same
    }
}

/// How two texts stand to one another in the order of strings.
pub fn str_rank(a: &str, b: &str) -> (r: Rank)
    ensures
        match r {
            Rank::Before => before(a@, b@),
            Rank::Same => a@ == b@,
            Rank::After => before(b@, a@),
        },
{
    let r = bytes_rank(a.as_bytes(), b.as_bytes());
    proof {
        if r is Same {
            lemma_encoding_injective(a@, b@);
        }
    }
    r
}

/// Whether two texts are equal.
pub fn str_eq(a: &str, b: &str) -> (r: bool)
    ensures
        r == (a@ == b@),
{
    let rank = str_rank(a, b);
    proof {
        if a@ == b@ {
            lemma_bytes_irreflexive(encode_utf8(a@));
        }
    }
    match rank {
        Rank::Same => true,
        _ => false,
    }
}

/// The ASCII lower-case form of a character.
pub fn lower_char(c: char) -> (r: char)
    ensures
        r == lower(c),
{
    if 'A' <= c && c <= 'Z' {
        ((c as u8) + 32) as char
    } else {
        c
    }
}

/// The ASCII lower-case form of a text.
pub fn lower_string(s: &str) -> (r: String)
    ensures
        r@ == lower_seq(s@),
{
    let mut r = String::new();
    for c in it: s.chars()
        invariant
            it.seq() == s@,
            r@ == lower_seq(s@.take(it.index())),
    {
        r.push(lower_char(c));
        proof {
            assert(lower_seq(s@.take(it.index() + 1)) =~= lower_seq(s@.take(it.index())).push(
                lower(c),
            ));
        }
    }
    proof {
        assert(s@.take(s@.len() as int) =~= s@);
    }
    r
}

/// Whether two texts differ at most in ASCII case.
pub fn eq_ignore_case(a: &str, b: &str) -> (r: bool)
    ensures
        r == same_ignoring_case(a@, b@),
{
    let x = lower_string(a);
    let y = lower_string(b);
    str_eq(x.as_str(), y.as_str())
}

/// Whether a character has the White_Space property.
pub fn is_white(c: char) -> (r: bool)
    ensures
        r == white(c),
{
    let n: u32 = c as u32;
    (0x9 <= n && n <= 0xd) || n == 0x20 || n == 0x85 || n == 0xa0 || n == 0x1680 || (0x2000 <= n
        && n <= 0x200a) || n == 0x2028 || n == 0x2029 || n == 0x202f || n == 0x205f || n == 0x3000
}

/// The bounds of the trimmed part of `chars[from..to]`.
pub fn trim_range(chars: &[char], from: usize, to: usize) -> (r: (usize, usize))
    requires
        from <= to <= chars@.len(),
    ensures
        from <= r.0 <= r.1 <= to,
        chars@.subrange(r.0 as int, r.1 as int) == trim(
            chars@.subrange(from as int, to as int),
        ),
{
    let ghost whole = chars@.subrange(from as int, to as int);
    let mut lo: usize = from;
    while lo < to && is_white(chars[lo])
        invariant
            from <= lo <= to <= chars@.len(),
            trim_start(whole) == trim_start(chars@.subrange(lo as int, to as int)),
        decreases to - lo,
    {
        proof {
            assert(chars@.subrange(lo as int, to as int).drop_first() =~= chars@.subrange(
                lo + 1,
                to as int,
            ));
        }
        lo = lo + 1;
    }
    let mut hi: usize = to;
    while lo < hi && is_white(chars[hi - 1])
        invariant
            lo <= hi <= to <= chars@.len(),
            trim_end(trim_start(whole)) == trim_end(chars@.subrange(lo as int, hi as int)),
        decreases hi - lo,
    {
        proof {
            assert(chars@.subrange(lo as int, hi as int).drop_last() =~= chars@.subrange(
                lo as int,
                hi - 1,
            ));
        }
        hi = hi - 1;
    }
    (lo, hi)
}

/// A text without its leading and trailing white space.
pub fn trim_string(s: &str) -> (r: String)
    ensures
        r@ == trim(s@),
{
    let chars = chars_of(s);
    let (lo, hi) = trim_range(chars.as_slice(), 0, chars.len());
    proof {
        assert(chars@.subrange(0, chars@.len() as int) =~= s@);
    }
    string_of(chars.as_slice(), lo, hi)
}

/// A text without the given character at its end.
pub fn trim_end_matches(s: &str, c: char) -> (r: String)
    ensures
        r@ == trim_end_char(s@, c),
{
    let chars = chars_of(s);
    let mut hi: usize = chars.len();
    proof {
        assert(chars@.take(hi as int) =~= s@);
    }
    while hi > 0 && chars[hi - 1] == c
        invariant
            hi <= chars@.len(),
            trim_end_char(s@, c) == trim_end_char(chars@.take(hi as int), c),
        decreases hi,
    {
        proof {
            assert(chars@.take(hi as int).drop_last() =~= chars@.take(hi - 1));
        }
        hi = hi - 1;
    }
    proof {
        assert(chars@.take(hi as int) =~= chars@.subrange(0, hi as int));
    }
    string_of(chars.as_slice(), 0, hi)
}

/// The position of the first `c`, or the length.
pub fn find_char(chars: &[char], c: char) -> (i: usize)
    ensures
        i == first_index(chars@, c),
{
    let mut i: usize = 0;
    while i < chars.len() && chars[i] != c
        invariant
            i <= chars@.len(),
            forall|j: int| 0 <= j < i ==> chars@[j] != c,
        decreases chars@.len() - i,
    {
        i = i + 1;
    }
    proof {
        lemma_first_index_is(chars@, c, i as int);
    }
    i
}

/// Whether a text holds a character.
pub fn contains_char(s: &str, c: char) -> (r: bool)
    ensures
        r == s@.contains(c),
{
    let chars = chars_of(s);
    let i = find_char(chars.as_slice(), c);
    proof {
        lemma_first_index(s@, c);
    }
    i < chars.len()
}

/// The pieces of a text between the separators.
pub fn split_string(s: &str, sep: char) -> (parts: Vec<String>)
    ensures
        parts.deep_view() == split(s@, sep),
        parts@.len() >= 1,
{
    let chars = chars_of(s);
    let mut parts: Vec<String> = Vec::new();
    let mut start: usize = 0;
    let mut i: usize = 0;
    proof {
        assert(chars@.skip(0) =~= s@);
        assert(parts.deep_view() + split(s@, sep) =~= split(s@, sep));
    }
    while i < chars.len()
        invariant
            start <= i <= chars@.len(),
            chars@ == s@,
            forall|j: int| start <= j < i ==> chars@[j] != sep,
            parts.deep_view() + split(chars@.skip(start as int), sep) == split(s@, sep),
        decreases chars@.len() - i,
    {
        if chars[i] == sep {
            let ghost rest = chars@.skip(start as int);
            let ghost old_parts = parts.deep_view();
            proof {
                lemma_first_index_is(rest, sep, i - start);
                assert(rest.take(i - start) =~= chars@.subrange(start as int, i as int));
                assert(rest.skip(i - start + 1) =~= chars@.skip(i + 1));
            }
            parts.push(string_of(chars.as_slice(), start, i));
            proof {
                assert(parts.deep_view() =~= old_parts.push(
                    chars@.subrange(start as int, i as int),
                ));
                assert(parts.deep_view() + split(chars@.skip(i + 1), sep) =~= old_parts + split(
                    rest,
                    sep,
                ));
            }
            start = i + 1;
        }
        i = i + 1;
    }
    let ghost rest = chars@.skip(start as int);
    let ghost old_parts = parts.deep_view();
    proof {
        lemma_first_index_is(rest, sep, rest.len() as int);
        assert(rest =~= chars@.subrange(start as int, chars@.len() as int));
    }
    parts.push(string_of(chars.as_slice(), start, chars.len()));
    proof {
        assert(parts.deep_view() =~= old_parts + seq![rest]);
    }
    parts
}

/// Whether `p` begins `s`.
pub fn starts_with(s: &str, p: &str) -> (r: bool)
    ensures
        r == begins(s@, p@),
{
    let a = chars_of(s);
    let b = chars_of(p);
    if b.len() > a.len() {
        return false;
    }
    let mut i: usize = 0;
    while i < b.len()
        invariant
            i <= b@.len() <= a@.len(),
            a@ == s@,
            b@ == p@,
            forall|j: int| 0 <= j < i ==> a@[j] == b@[j],
        decreases b@.len() - i,
    {
        if a[i] != b[i] {
            proof {
                assert(s@.take(p@.len() as int)[i as int] != p@[i as int]);
            }
            return false;
        }
        i = i + 1;
    }
    proof {
        assert(s@.take(p@.len() as int) =~= p@);
    }
    true
}

/// Whether `p` ends `s`.
pub fn ends_with(s: &str, p: &str) -> (r: bool)
    ensures
        r == finishes(s@, p@),
{
    let a = chars_of(s);
    let b = chars_of(p);
    if b.len() > a.len() {
        return false;
    }
    let shift: usize = a.len() - b.len();
    let mut i: usize = 0;
    while i < b.len()
        invariant
            i <= b@.len() <= a@.len(),
            shift == a@.len() - b@.len(),
            a@.len() <= usize::MAX,
            a@ == s@,
            b@ == p@,
            forall|j: int| 0 <= j < i ==> a@[shift + j] == b@[j],
        decreases b@.len() - i,
    {
        if a[shift + i] != b[i] {
            proof {
                assert(s@.skip(shift as int)[i as int] != p@[i as int]);
            }
            return false;
        }
        i = i + 1;
    }
    proof {
        assert(s@.skip(shift as int) =~= p@);
    }
    true
}

/// Whether the UTF-8 form of the characters takes at most `limit` bytes.
pub fn utf8_at_most(chars: &[char], limit: usize) -> (r: bool)
    ensures
        r == (utf8_len(chars@) <= limit),
{
    let mut used: usize = 0;
    let mut i: usize = 0;
    while i < chars.len()
        invariant
            i <= chars@.len(),
            used == utf8_len(chars@.take(i as int)),
            used <= limit,
        decreases chars@.len() - i,
    {
        let n: u32 = chars[i] as u32;
        let width: usize = if n < 0x80 {
            1
        } else if n < 0x800 {
            2
        } else if n < 0x10000 {
            3
        } else {
            4
        };
        proof {
            assert(chars@.take(i + 1).drop_last() =~= chars@.take(i as int));
        }
        if width > limit - used {
            proof {
                lemma_utf8_len_prefix(chars@, i + 1);
            }
            return false;
        }
        used = used + width;
        i = i + 1;
    }
    proof {
        assert(chars@.take(i as int) =~= chars@);
    }
    true
}

/// Two texts joined.
pub fn concat2(a: &str, b: &str) -> (r: String)
    ensures
        r@ == a@ + b@,
{
    let mut r = a.to_owned();
    r.append(b);
    r
}

/// Three texts joined.
pub fn concat3(a: &str, b: &str, c: &str) -> (r: String)
    ensures
        r@ == a@ + b@ + c@,
{
    let mut r = a.to_owned();
    r.append(b);
    r.append(c);
    r
}

/// A number in decimal.
pub fn decimal_string(n: u64) -> (r: String)
    ensures
        r@ == decimal(n as nat),
    decreases n,
{
    let last: char = (48 + (n % 10) as u8) as char;
    if n < 10 {
        let mut r = String::new();
        r.push(last);
        proof {
            assert(r@ =~= seq![digit(n as nat)]);
        }
        r
    } else {
        let mut r = decimal_string(n / 10);
        r.push(last);
        r
    }
}

/// A number in decimal with leading zeros.
pub fn padded_string(n: u64, width: usize) -> (r: String)
    ensures
        r@ == padded(n as nat, width as nat),
{
    let digits = decimal_string(n);
    let count: usize = chars_of(digits.as_str()).len();
    let mut r = String::new();
    let mut k: usize = count;
    while k < width
        invariant
            count <= k,
            k <= width || k == count,
            r@ == zeros(k - count),
        decreases width - k,
    {
        r.push('0');
        k = k + 1;
        proof {
            assert(r@ =~= zeros(k - count));
        }
    }
    r.append(digits.as_str());
    proof {
        assert(zeros(k - count) =~= zeros(width as int - count as int));
    }
    r
}

/// A copy of an optional text.
pub fn clone_opt(s: &Option<String>) -> (r: Option<String>)
    ensures
        r.deep_view() == s.deep_view(),
        r is Some == s is Some,
{
    match s {
        Some(t) => Some(t.clone()),
        None => None,
    }
}

/// A copy of a list of texts.
pub fn clone_list(list: &[String]) -> (r: Vec<String>)
    ensures
        r.deep_view() == Seq::new(list@.len(), |i: int| list@[i]@),
{
    let mut r: Vec<String> = Vec::new();
    let mut i: usize = 0;
    while i < list.len()
        invariant
            i <= list@.len(),
            r.deep_view() == Seq::new(i as nat, |j: int| list@[j]@),
        decreases list@.len() - i,
    {
        let ghost before = r.deep_view();
        r.push(list[i].clone());
        i = i + 1;
        proof {
            assert(r.deep_view() =~= before.push(list@[i - 1]@));
            assert(r.deep_view() =~= Seq::new(i as nat, |j: int| list@[j]@));
        }
    }
    r
}

/// The smaller of a sum and the largest `u64`.
pub open spec fn capped(n: int) -> u64 {
    if n > u64::MAX {
        u64::MAX
    } else if n < 0 {
        0
    } else {
        n as u64
    }
}

/// The position of the last `c` in `s`, or -1.
pub open spec fn last_index(s: Seq<char>, c: char) -> int
    decreases s.len(),
{
    if s.len() == 0 {
        -1
    } else if s.last() == c {
        s.len() - 1
    } else {
        last_index(s.drop_last(), c)
    }
}

/// What follows the last `c` in `s`; all of `s` where it holds none.
pub open spec fn after_last(s: Seq<char>, c: char) -> Seq<char> {
    s.skip(last_index(s, c) + 1)
}

/// What follows the last separator holds none, and what stands before it is the
/// rest of the text.
pub proof fn law_last_part_holds_no_separator(s: Seq<char>, c: char)
    ensures
        -1 <= last_index(s, c) < s.len(),
        !after_last(s, c).contains(c),
        s.contains(c) ==> s == s.take(last_index(s, c)).push(c) + after_last(s, c),
        !s.contains(c) ==> after_last(s, c) == s,
    decreases s.len(),
{
    if s.len() == 0 {
        assert(after_last(s, c) =~= s);
    } else if s.last() == c {
        assert(after_last(s, c) =~= Seq::<char>::empty());
        assert(s =~= s.drop_last().push(c));
        assert(s[s.len() - 1] == c);
        assert(s.take(last_index(s, c)) =~= s.drop_last());
        assert(s =~= s.take(last_index(s, c)).push(c) + after_last(s, c));
    } else {
        let t = s.drop_last();
        law_last_part_holds_no_separator(t, c);
        let i = last_index(t, c);
        let a = after_last(s, c);
        assert(a =~= after_last(t, c).push(s.last()));
        if a.contains(c) {
            let j = choose|j: int| 0 <= j < a.len() && a[j] == c;
            assert(after_last(t, c)[j] == c);
        }
        if s.contains(c) {
            let j = choose|j: int| 0 <= j < s.len() && s[j] == c;
            assert(t[j] == c);
            assert(t.contains(c));
            assert(s =~= t.push(s.last()));
            assert(s.take(i) =~= t.take(i));
            assert(s =~= s.take(i).push(c) + a);
        } else {
            if t.contains(c) {
                let j = choose|j: int| 0 <= j < t.len() && t[j] == c;
                assert(s[j] == c);
            }
            assert(a =~= s);
        }
    }
}

/// The position of the last `c` before `to`, plus one; zero where there is none.
pub fn find_last(chars: &[char], to: usize, c: char) -> (i: usize)
    requires
        to <= chars@.len(),
    ensures
        i == last_index(chars@.take(to as int), c) + 1,
        i <= to,
{
    let mut i: usize = to;
    while i > 0 && chars[i - 1] != c
        invariant
            i <= to <= chars@.len(),
            last_index(chars@.take(to as int), c) == last_index(chars@.take(i as int), c),
        decreases i,
    {
        proof {
            assert(chars@.take(i as int).drop_last() =~= chars@.take(i - 1));
        }
        i = i - 1;
    }
    i
}

/// What follows the last `c` in `s`; all of `s` where it holds none.
pub fn after_last_char(s: &str, c: char) -> (r: String)
    ensures
        r@ == after_last(s@, c),
{
    let chars = chars_of(s);
    let i = find_last(chars.as_slice(), chars.len(), c);
    proof {
        assert(chars@.take(chars@.len() as int) =~= s@);
        assert(chars@.subrange(i as int, chars@.len() as int) =~= s@.skip(i as int));
    }
    string_of(chars.as_slice(), i, chars.len())
}

} // verus!
