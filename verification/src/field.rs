//! Numeric header fields.
//!
//! ustar stores numbers as fixed-width ASCII octal, NUL-terminated and
//! zero-padded.  Sizes too large for eleven octal digits use the GNU
//! base-256 form: a first byte with the high bit set, then the value in
//! big-endian bytes.  This module gives both codecs exact specifications
//! and proves that decoding inverts encoding.

use vstd::prelude::*;

verus! {

/// `base` raised to `e`.
pub open spec fn pow_n(base: nat, e: nat) -> nat
    decreases e,
{
    if e == 0 {
        1
    } else {
        base * pow_n(base, (e - 1) as nat)
    }
}

pub proof fn lemma_pow_n_pos(base: nat, e: nat)
    requires
        base >= 1,
    ensures
        pow_n(base, e) >= 1,
    decreases e,
{
    if e > 0 {
        lemma_pow_n_pos(base, (e - 1) as nat);
        assert(base * pow_n(base, (e - 1) as nat) >= 1) by (nonlinear_arith)
            requires
                base >= 1,
                pow_n(base, (e - 1) as nat) >= 1,
        ;
    }
}

/// ASCII '0' through '7'.
pub open spec fn is_octal_digit(b: u8) -> bool {
    48 <= b <= 55
}

/// Value of a sequence of octal digit bytes, most significant first.
pub open spec fn octal_value(s: Seq<u8>) -> nat
    decreases s.len(),
{
    if s.len() == 0 {
        0
    } else {
        octal_value(s.drop_last()) * 8 + ((s.last() - 48) as nat)
    }
}

/// `w` octal digit bytes for `v`, most significant first, zero padded.
pub open spec fn octal_digits(v: nat, w: nat) -> Seq<u8>
    decreases w,
{
    if w == 0 {
        Seq::empty()
    } else {
        octal_digits(v / 8, (w - 1) as nat).push((48 + v % 8) as u8)
    }
}

pub proof fn lemma_octal_digits_len(v: nat, w: nat)
    ensures
        octal_digits(v, w).len() == w,
        forall|i: int| 0 <= i < w ==> is_octal_digit(#[trigger] octal_digits(v, w)[i]),
    decreases w,
{
    if w > 0 {
        lemma_octal_digits_len(v / 8, (w - 1) as nat);
    }
}

/// Decoding `w` octal digits gives back the value they were made from.
pub proof fn lemma_octal_value_of_digits(v: nat, w: nat)
    requires
        v < pow_n(8, w),
    ensures
        octal_value(octal_digits(v, w)) == v,
    decreases w,
{
    if w == 0 {
    } else {
        let s = octal_digits(v, w);
        let prefix = octal_digits(v / 8, (w - 1) as nat);
        assert(s == prefix.push((48 + v % 8) as u8));
        assert(s.drop_last() =~= prefix);
        assert(v / 8 < pow_n(8, (w - 1) as nat)) by {
            assert(pow_n(8, w) == 8 * pow_n(8, (w - 1) as nat));
            assert(v < 8 * pow_n(8, (w - 1) as nat) ==> v / 8 < pow_n(8, (w - 1) as nat))
                by (nonlinear_arith);
        }
        lemma_octal_value_of_digits(v / 8, (w - 1) as nat);
        assert(octal_value(s) == (v / 8) * 8 + v % 8);
        assert((v / 8) * 8 + v % 8 == v) by (nonlinear_arith);
    }
}

/// A digit sequence of length `w` is worth less than `8^w`.
pub proof fn lemma_octal_value_bound(s: Seq<u8>)
    requires
        forall|i: int| 0 <= i < s.len() ==> is_octal_digit(#[trigger] s[i]),
    ensures
        octal_value(s) < pow_n(8, s.len()),
    decreases s.len(),
{
    if s.len() > 0 {
        assert(forall|i: int|
            0 <= i < s.drop_last().len() ==> is_octal_digit(#[trigger] s.drop_last()[i]));
        lemma_octal_value_bound(s.drop_last());
        assert(octal_value(s.drop_last()) * 8 + 8 <= pow_n(8, s.drop_last().len()) * 8)
            by (nonlinear_arith)
            requires
                octal_value(s.drop_last()) + 1 <= pow_n(8, s.drop_last().len()),
        ;
    }
}

/// Number of leading space bytes.
pub open spec fn leading_spaces(s: Seq<u8>) -> nat
    decreases s.len(),
{
    if s.len() == 0 || s[0] != 32 {
        0
    } else {
        1 + leading_spaces(s.drop_first())
    }
}

pub proof fn lemma_leading_spaces(s: Seq<u8>)
    ensures
        leading_spaces(s) <= s.len(),
        forall|i: int| 0 <= i < leading_spaces(s) ==> s[i] == 32,
        leading_spaces(s) < s.len() ==> s[leading_spaces(s) as int] != 32,
    decreases s.len(),
{
    if s.len() > 0 && s[0] == 32 {
        lemma_leading_spaces(s.drop_first());
        assert forall|i: int| 0 <= i < leading_spaces(s) implies s[i] == 32 by {
            if i > 0 {
                assert(s.drop_first()[i - 1] == s[i]);
            }
        }
        if leading_spaces(s) < s.len() {
            assert(s[leading_spaces(s) as int] == s.drop_first()[leading_spaces(
                s.drop_first(),
            ) as int]);
        }
    }
}

/// Number of leading octal digit bytes.
pub open spec fn leading_digits(s: Seq<u8>) -> nat
    decreases s.len(),
{
    if s.len() == 0 || !is_octal_digit(s[0]) {
        0
    } else {
        1 + leading_digits(s.drop_first())
    }
}

pub proof fn lemma_leading_digits(s: Seq<u8>)
    ensures
        leading_digits(s) <= s.len(),
        forall|i: int| 0 <= i < leading_digits(s) ==> is_octal_digit(#[trigger] s[i]),
        leading_digits(s) < s.len() ==> !is_octal_digit(s[leading_digits(s) as int]),
    decreases s.len(),
{
    if s.len() > 0 && is_octal_digit(s[0]) {
        lemma_leading_digits(s.drop_first());
        assert forall|i: int| 0 <= i < leading_digits(s) implies is_octal_digit(
            #[trigger] s[i],
        ) by {
            if i > 0 {
                assert(s.drop_first()[i - 1] == s[i]);
            }
        }
        if leading_digits(s) < s.len() {
            assert(s[leading_digits(s) as int] == s.drop_first()[leading_digits(
                s.drop_first(),
            ) as int]);
        }
    }
}

/// A NUL or space byte: what may legally pad a numeric field.
pub open spec fn is_field_pad(b: u8) -> bool {
    b == 0 || b == 32
}

/// Tolerant reading of a NUL- or space-padded octal field: leading spaces,
/// then at least one octal digit, then only NUL or space bytes.
pub open spec fn spec_parse_octal(s: Seq<u8>) -> Option<nat> {
    let sk = s.skip(leading_spaces(s) as int);
    let d = leading_digits(sk);
    if d == 0 {
        None
    } else if exists|i: int| d <= i < sk.len() && !is_field_pad(#[trigger] sk[i]) {
        None
    } else {
        Some(octal_value(sk.take(d as int)))
    }
}

/// Reads a padded octal field of at most twelve bytes.
pub fn parse_octal(s: &[u8]) -> (r: Option<u64>)
    requires
        s@.len() <= 12,
    ensures
        match r {
            Some(v) => spec_parse_octal(s@) == Some(v as nat),
            None => spec_parse_octal(s@) is None,
        },
{
    let ghost gs = s@;
    let n = s.len();
    let mut i: usize = 0;
    while i < n && s[i] == 32
        invariant
            0 <= i <= n,
            n == gs.len() <= 12,
            gs == s@,
            forall|j: int| 0 <= j < i ==> gs[j] == 32,
        decreases n - i,
    {
        i = i + 1;
    }
    proof {
        lemma_leading_spaces(gs);
        lemma_leading_spaces_exact(gs, i as nat);
    }
    let ghost sk = gs.skip(i as int);
    let start = i;
    let mut v: u64 = 0;
    while i < n && 48 <= s[i] && s[i] <= 55
        invariant
            start <= i <= n,
            n == gs.len() <= 12,
            gs == s@,
            sk == gs.skip(start as int),
            forall|j: int| start <= j < i ==> is_octal_digit(#[trigger] gs[j]),
            v as nat == octal_value(sk.take(i - start)),
            (v as nat) < pow_n(8, (i - start) as nat),
        decreases n - i,
    {
        proof {
            let d = sk.take(i + 1 - start);
            assert(d.drop_last() =~= sk.take(i - start));
            assert(d.last() == gs[i as int]);
            lemma_pow12_bounds();
            assert(pow_n(8, (i - start) as nat) <= pow_n(8, 11)) by {
                lemma_pow_n_mono(8, (i - start) as nat, 11);
            }
            assert(v * 8 + 8 <= pow_n(8, ((i + 1) - start) as nat)) by (nonlinear_arith)
                requires
                    v as nat + 1 <= pow_n(8, (i - start) as nat),
                    pow_n(8, ((i + 1) - start) as nat) == 8 * pow_n(8, (i - start) as nat),
            ;
        }
        v = v * 8 + ((s[i] - 48) as u64);
        i = i + 1;
    }
    proof {
        assert forall|j: int| 0 <= j < i - start implies is_octal_digit(#[trigger] sk[j]) by {
            assert(sk[j] == gs[j + start]);
        }
        if i < n {
            assert(sk[i - start] == gs[i as int]);
        }
        lemma_leading_digits_exact(sk, (i - start) as nat);
    }
    if i == start {
        return None;
    }
    // everything after the digits must be padding
    let ghost d = (i - start) as nat;
    let mut j = i;
    while j < n
        invariant
            start < i <= j <= n,
            n == gs.len(),
            gs == s@,
            start == leading_spaces(gs),
            sk == gs.skip(start as int),
            d == i - start,
            d == leading_digits(sk),
            forall|k: int| i <= k < j ==> is_field_pad(#[trigger] gs[k]),
        decreases n - j,
    {
        if s[j] != 0 && s[j] != 32 {
            proof {
                assert(sk[j - start] == gs[j as int]);
                assert(d <= j - start < sk.len() && !is_field_pad(sk[j - start]));
            }
            return None;
        }
        j = j + 1;
    }
    proof {
        assert forall|k: int| d <= k < sk.len() implies is_field_pad(#[trigger] sk[k]) by {
            assert(sk[k] == gs[k + start]);
        }
    }
    Some(v)
}

/// The skipped-space count matches the loop's stopping point.
proof fn lemma_leading_spaces_exact(s: Seq<u8>, i: nat)
    requires
        i <= s.len(),
        forall|j: int| 0 <= j < i ==> s[j] == 32,
        i < s.len() ==> s[i as int] != 32,
    ensures
        leading_spaces(s) == i,
    decreases s.len(),
{
    if s.len() > 0 && s[0] == 32 {
        lemma_leading_spaces_exact(s.drop_first(), (i - 1) as nat);
    }
}

/// The digit count matches the loop's stopping point.
proof fn lemma_leading_digits_exact(s: Seq<u8>, i: nat)
    requires
        i <= s.len(),
        forall|j: int| 0 <= j < i ==> is_octal_digit(#[trigger] s[j]),
        i < s.len() ==> !is_octal_digit(s[i as int]),
    ensures
        leading_digits(s) == i,
    decreases s.len(),
{
    if s.len() > 0 && is_octal_digit(s[0]) {
        lemma_leading_digits_exact(s.drop_first(), (i - 1) as nat);
    }
}

pub proof fn lemma_pow_n_mono(base: nat, a: nat, b: nat)
    requires
        base >= 1,
        a <= b,
    ensures
        pow_n(base, a) <= pow_n(base, b),
    decreases b,
{
    if a < b {
        lemma_pow_n_mono(base, a, (b - 1) as nat);
        lemma_pow_n_pos(base, (b - 1) as nat);
        assert(pow_n(base, b) == base * pow_n(base, (b - 1) as nat));
        assert(base * pow_n(base, (b - 1) as nat) >= pow_n(base, (b - 1) as nat))
            by (nonlinear_arith)
            requires
                base >= 1,
                pow_n(base, (b - 1) as nat) >= 1,
        ;
    }
}

/// The octal widths the header uses all fit comfortably in a u64.
pub proof fn lemma_pow12_bounds()
    ensures
        pow_n(8, 6) == 0o1000000,
        pow_n(8, 7) == 0o10000000,
        pow_n(8, 8) == 0o100000000,
        pow_n(8, 11) == 0o100000000000,
        pow_n(8, 12) == 0o1000000000000,
{
    reveal_with_fuel(pow_n, 13);
}

/// Writes `w` octal digits for `v`, most significant first.
pub fn encode_octal_digits(v: u64, w: usize) -> (r: Vec<u8>)
    ensures
        r@ == octal_digits(v as nat, w as nat),
        r@.len() == w,
    decreases w,
{
    proof {
        lemma_octal_digits_len(v as nat, w as nat);
    }
    if w == 0 {
        Vec::new()
    } else {
        let mut r = encode_octal_digits(v / 8, w - 1);
        r.push(48 + (v % 8) as u8);
        r
    }
}

/// An octal field of total width `w`: `w - 1` digits and a trailing NUL.
pub open spec fn octal_field(v: nat, w: nat) -> Seq<u8>
    recommends
        w >= 1,
{
    octal_digits(v, (w - 1) as nat).push(0u8)
}

/// Writes a NUL-terminated octal field of total width `w`.
pub fn encode_octal_field(v: u64, w: usize) -> (r: Vec<u8>)
    requires
        1 <= w,
    ensures
        r@ == octal_field(v as nat, w as nat),
        r@.len() == w,
{
    let mut r = encode_octal_digits(v, w - 1);
    r.push(0);
    r
}

/// An octal field always reads back as the value it was made from.
pub proof fn lemma_octal_field_roundtrip(v: nat, w: nat)
    requires
        2 <= w,
        v < pow_n(8, (w - 1) as nat),
    ensures
        spec_parse_octal(octal_field(v, w)) == Some(v),
{
    let s = octal_field(v, w);
    let digits = octal_digits(v, (w - 1) as nat);
    lemma_octal_digits_len(v, (w - 1) as nat);
    assert(s.len() == w);
    assert forall|i: int| 0 <= i < w - 1 implies is_octal_digit(#[trigger] s[i]) by {
        assert(s[i] == digits[i]);
    }
    assert(s[w - 1] == 0u8);
    assert(s[0] == digits[0]);
    assert(is_octal_digit(s[0]));
    lemma_leading_spaces_exact(s, 0);
    assert(s.skip(0) =~= s);
    lemma_leading_digits_exact(s, (w - 1) as nat);
    assert(s.take((w - 1) as int) =~= digits);
    lemma_octal_value_of_digits(v, (w - 1) as nat);
    assert(forall|i: int| (w - 1) <= i < s.len() ==> is_field_pad(#[trigger] s[i]));
}

/// A parsed octal field is bounded by the field's width.
pub proof fn lemma_parse_octal_bound(s: Seq<u8>)
    ensures
        spec_parse_octal(s) matches Some(v) ==> v < pow_n(8, s.len()),
{
    if spec_parse_octal(s) is Some {
        let sk = s.skip(leading_spaces(s) as int);
        let d = leading_digits(sk);
        lemma_leading_spaces(s);
        lemma_leading_digits(sk);
        assert forall|i: int| 0 <= i < d implies is_octal_digit(#[trigger] sk.take(d as int)[i]) by {
            assert(sk.take(d as int)[i] == sk[i]);
        }
        lemma_octal_value_bound(sk.take(d as int));
        lemma_pow_n_mono(8, d, s.len());
    }
}

/// Octal digits followed by any NUL or space padding read back as the
/// value they were made from.
pub proof fn lemma_octal_digits_padded_roundtrip(v: nat, w: nat, pad: Seq<u8>)
    requires
        1 <= w,
        v < pow_n(8, w),
        forall|i: int| 0 <= i < pad.len() ==> is_field_pad(#[trigger] pad[i]),
    ensures
        spec_parse_octal(octal_digits(v, w) + pad) == Some(v),
{
    let digits = octal_digits(v, w);
    let s = digits + pad;
    lemma_octal_digits_len(v, w);
    assert forall|i: int| 0 <= i < w implies is_octal_digit(#[trigger] s[i]) by {
        assert(s[i] == digits[i]);
    }
    assert(s[0] == digits[0]);
    lemma_leading_spaces_exact(s, 0);
    assert(s.skip(0) =~= s);
    if w < s.len() {
        assert(s[w as int] == pad[0]);
    }
    lemma_leading_digits_exact(s, w);
    assert(s.take(w as int) =~= digits);
    lemma_octal_value_of_digits(v, w);
    assert forall|i: int| w <= i < s.len() implies is_field_pad(#[trigger] s[i]) by {
        assert(s[i] == pad[i - w]);
    }
}

/// Value of big-endian bytes, most significant first.
pub open spec fn base256_value(s: Seq<u8>) -> nat
    decreases s.len(),
{
    if s.len() == 0 {
        0
    } else {
        base256_value(s.drop_last()) * 256 + (s.last() as nat)
    }
}

/// `w` big-endian bytes of `v`, most significant first.
pub open spec fn be_bytes(v: nat, w: nat) -> Seq<u8>
    decreases w,
{
    if w == 0 {
        Seq::empty()
    } else {
        be_bytes(v / 256, (w - 1) as nat).push((v % 256) as u8)
    }
}

pub proof fn lemma_be_bytes_len(v: nat, w: nat)
    ensures
        be_bytes(v, w).len() == w,
    decreases w,
{
    if w > 0 {
        lemma_be_bytes_len(v / 256, (w - 1) as nat);
    }
}

/// Decoding big-endian bytes gives back the value they were made from.
pub proof fn lemma_base256_of_be_bytes(v: nat, w: nat)
    requires
        v < pow_n(256, w),
    ensures
        base256_value(be_bytes(v, w)) == v,
    decreases w,
{
    if w > 0 {
        let prefix = be_bytes(v / 256, (w - 1) as nat);
        assert(be_bytes(v, w).drop_last() =~= prefix);
        assert(v / 256 < pow_n(256, (w - 1) as nat)) by {
            assert(pow_n(256, w) == 256 * pow_n(256, (w - 1) as nat));
            assert(v < 256 * pow_n(256, (w - 1) as nat) ==> v / 256 < pow_n(256, (w - 1) as nat))
                by (nonlinear_arith);
        }
        lemma_base256_of_be_bytes(v / 256, (w - 1) as nat);
        assert((v / 256) * 256 + v % 256 == v) by (nonlinear_arith);
    }
}

pub proof fn lemma_base256_bound(s: Seq<u8>)
    ensures
        base256_value(s) < pow_n(256, s.len()),
    decreases s.len(),
{
    if s.len() > 0 {
        lemma_base256_bound(s.drop_last());
        assert(base256_value(s.drop_last()) * 256 + 256 <= pow_n(256, s.drop_last().len()) * 256)
            by (nonlinear_arith)
            requires
                base256_value(s.drop_last()) + 1 <= pow_n(256, s.drop_last().len()),
        ;
    }
}

/// The first byte alone gives a lower bound on a big-endian value.
pub proof fn lemma_base256_lower(s: Seq<u8>)
    requires
        s.len() > 0,
    ensures
        base256_value(s) >= (s[0] as nat) * pow_n(256, (s.len() - 1) as nat),
    decreases s.len(),
{
    if s.len() == 1 {
        assert(s.drop_last() =~= Seq::<u8>::empty());
        assert(base256_value(s) == s[0]);
        assert(pow_n(256, 0) == 1);
    } else {
        assert(s.drop_last()[0] == s[0]);
        lemma_base256_lower(s.drop_last());
        let p = pow_n(256, (s.len() - 2) as nat);
        assert(pow_n(256, (s.len() - 1) as nat) == 256 * p);
        assert(base256_value(s) >= base256_value(s.drop_last()) * 256);
        assert(base256_value(s.drop_last()) * 256 >= (s[0] as nat) * (256 * p))
            by (nonlinear_arith)
            requires
                base256_value(s.drop_last()) >= (s[0] as nat) * p,
        ;
    }
}

/// Leading zero bytes do not change a big-endian value.
pub proof fn lemma_base256_drop_leading_zero(s: Seq<u8>)
    requires
        s.len() > 0,
        s[0] == 0,
    ensures
        base256_value(s) == base256_value(s.drop_first()),
    decreases s.len(),
{
    if s.len() == 1 {
        assert(s.drop_last() =~= Seq::<u8>::empty());
        assert(s.drop_first() =~= Seq::<u8>::empty());
    } else {
        assert(s.drop_last()[0] == 0);
        lemma_base256_drop_leading_zero(s.drop_last());
        assert(s.drop_last().drop_first() =~= s.drop_first().drop_last());
        assert(s.drop_first().last() == s.last());
    }
}

pub proof fn lemma_pow256_bounds()
    ensures
        pow_n(256, 8) == 0x10000000000000000,
        pow_n(256, 7) == 0x100000000000000,
{
    reveal_with_fuel(pow_n, 9);
}

/// Writes `w` big-endian bytes of `v`.
pub fn encode_be_bytes(v: u64, w: usize) -> (r: Vec<u8>)
    ensures
        r@ == be_bytes(v as nat, w as nat),
        r@.len() == w,
    decreases w,
{
    proof {
        lemma_be_bytes_len(v as nat, w as nat);
    }
    if w == 0 {
        Vec::new()
    } else {
        let mut r = encode_be_bytes(v / 256, w - 1);
        r.push((v % 256) as u8);
        r
    }
}

} // verus!
