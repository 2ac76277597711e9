//! The 512-byte ustar header block.
//!
//! A header is a fixed layout of NUL-padded string fields and NUL- or
//! space-terminated octal fields, protected by a checksum: the unsigned
//! sum of all 512 bytes with the checksum field itself read as eight
//! spaces.  Sizes that do not fit in eleven octal digits use the GNU
//! base-256 form.  Encoding and decoding are specified field by field,
//! and decoding is proved to invert encoding.

use crate::bytes::{
    cstr, lemma_cstr_of_padded, lemma_sum_bytes_bound, lemma_sum_bytes_concat,
    lemma_sum_bytes_update, nul_free, push_bytes, read_cstr, space_bytes, sum_bytes, sum_slice,
    zero_bytes, zeros,
};
use crate::errors::ArchiveError;
use crate::field::{
    base256_value, be_bytes, encode_be_bytes, encode_octal_digits, encode_octal_field,
    is_octal_digit, lemma_base256_drop_leading_zero, lemma_base256_lower,
    lemma_base256_of_be_bytes, lemma_be_bytes_len, lemma_octal_digits_len,
    lemma_octal_digits_padded_roundtrip, lemma_octal_field_roundtrip, lemma_parse_octal_bound,
    lemma_pow12_bounds, lemma_pow256_bounds, lemma_pow_n_mono, octal_digits, octal_field,
    parse_octal, pow_n, spec_parse_octal,
};
use vstd::prelude::*;
use vstd::slice::{slice_index_get, slice_subrange, slice_to_vec};

verus! {

/// The ghost value of one header block's fields, as stored on the wire:
/// the name is the part in the name field, with any overflow in `prefix`.
pub struct HeaderV {
    pub name: Seq<u8>,
    pub prefix: Seq<u8>,
    pub mode: nat,
    pub uid: nat,
    pub gid: nat,
    pub size: nat,
    pub mtime: nat,
    pub typeflag: u8,
    pub linkname: Seq<u8>,
    pub uname: Seq<u8>,
    pub gname: Seq<u8>,
}

/// One header block's fields.
#[derive(Clone, Debug)]
pub struct Header {
    pub name: Vec<u8>,
    pub prefix: Vec<u8>,
    pub mode: u32,
    pub uid: u32,
    pub gid: u32,
    pub size: u64,
    pub mtime: u64,
    pub typeflag: u8,
    pub linkname: Vec<u8>,
    pub uname: Vec<u8>,
    pub gname: Vec<u8>,
}

impl View for Header {
    type V = HeaderV;

    open spec fn view(&self) -> HeaderV {
        HeaderV {
            name: self.name@,
            prefix: self.prefix@,
            mode: self.mode as nat,
            uid: self.uid as nat,
            gid: self.gid as nat,
            size: self.size as nat,
            mtime: self.mtime as nat,
            typeflag: self.typeflag,
            linkname: self.linkname@,
            uname: self.uname@,
            gname: self.gname@,
        }
    }
}

/// Whether every field fits its ustar width.
pub open spec fn header_fits(h: HeaderV) -> bool {
    &&& h.name.len() <= 100
    &&& h.prefix.len() <= 155
    &&& h.linkname.len() <= 100
    &&& h.uname.len() <= 31
    &&& h.gname.len() <= 31
    &&& h.mode < 0o10000000
    &&& h.uid < 0o10000000
    &&& h.gid < 0o10000000
    &&& h.mtime < 0o100000000000
    &&& h.size < 0x10000000000000000
}

/// A string field: the bytes, NUL-padded to the field width.
pub open spec fn padded_field(s: Seq<u8>, w: nat) -> Seq<u8>
    recommends
        s.len() <= w,
{
    s + zero_bytes((w - s.len()) as nat)
}

/// The size field: eleven octal digits and a NUL when the value fits,
/// otherwise the GNU base-256 form with the marker byte first.
pub open spec fn size_field(v: nat) -> Seq<u8> {
    if v < 0o100000000000 {
        octal_field(v, 12)
    } else {
        seq![128u8] + be_bytes(v, 11)
    }
}

/// "ustar" and the NUL that completes the POSIX magic.
pub open spec fn magic_bytes() -> Seq<u8> {
    seq![117u8, 115u8, 116u8, 97u8, 114u8, 0u8]
}

/// The POSIX version field, "00".
pub open spec fn version_bytes() -> Seq<u8> {
    seq![48u8, 48u8]
}

/// The checksum field: six octal digits, a NUL and a space.
pub open spec fn chk_field(v: nat) -> Seq<u8> {
    octal_digits(v, 6) + seq![0u8, 32u8]
}

/// The header block before the checksum is filled in: the checksum field
/// holds the eight spaces over which the sum is defined.
#[verifier::opaque]
pub open spec fn spec_encode_pre(h: HeaderV) -> Seq<u8> {
    padded_field(h.name, 100) + octal_field(h.mode, 8) + octal_field(h.uid, 8) + octal_field(
        h.gid,
        8,
    ) + size_field(h.size) + octal_field(h.mtime, 12) + space_bytes(8) + seq![h.typeflag]
        + padded_field(h.linkname, 100) + magic_bytes() + version_bytes() + padded_field(
        h.uname,
        32,
    ) + padded_field(h.gname, 32) + octal_field(0, 8) + octal_field(0, 8) + padded_field(
        h.prefix,
        155,
    ) + zero_bytes(12)
}

/// The sum the checksum field stores.
pub open spec fn spec_header_sum(h: HeaderV) -> nat {
    sum_bytes(spec_encode_pre(h))
}

/// The encoded header block.
#[verifier::opaque]
pub open spec fn spec_encode_header(h: HeaderV) -> Seq<u8> {
    let pre = spec_encode_pre(h);
    pre.take(148) + chk_field(sum_bytes(pre)) + pre.skip(156)
}

/// Lengths of the individual fields.
pub proof fn lemma_field_lens(h: HeaderV)
    requires
        header_fits(h),
    ensures
        padded_field(h.name, 100).len() == 100,
        octal_field(h.mode, 8).len() == 8,
        octal_field(h.uid, 8).len() == 8,
        octal_field(h.gid, 8).len() == 8,
        size_field(h.size).len() == 12,
        octal_field(h.mtime, 12).len() == 12,
        padded_field(h.linkname, 100).len() == 100,
        padded_field(h.uname, 32).len() == 32,
        padded_field(h.gname, 32).len() == 32,
        octal_field(0, 8).len() == 8,
        padded_field(h.prefix, 155).len() == 155,
{
    lemma_octal_digits_len(h.mode, 7);
    lemma_octal_digits_len(h.uid, 7);
    lemma_octal_digits_len(h.gid, 7);
    lemma_octal_digits_len(h.size, 11);
    lemma_octal_digits_len(h.mtime, 11);
    lemma_octal_digits_len(0, 7);
    lemma_be_bytes_len(h.size, 11);
}

/// Field lengths of the pre-checksum block.
pub proof fn lemma_pre_len(h: HeaderV)
    requires
        header_fits(h),
    ensures
        spec_encode_pre(h).len() == 512,
{
    reveal(spec_encode_pre);
    lemma_field_lens(h);
}

/// Where each field of the pre-checksum block lies.
pub proof fn lemma_pre_fields(h: HeaderV)
    requires
        header_fits(h),
    ensures
        spec_encode_pre(h).len() == 512,
        spec_encode_pre(h).subrange(0, 100) == padded_field(h.name, 100),
        spec_encode_pre(h).subrange(100, 108) == octal_field(h.mode, 8),
        spec_encode_pre(h).subrange(108, 116) == octal_field(h.uid, 8),
        spec_encode_pre(h).subrange(116, 124) == octal_field(h.gid, 8),
        spec_encode_pre(h).subrange(124, 136) == size_field(h.size),
        spec_encode_pre(h).subrange(136, 148) == octal_field(h.mtime, 12),
        spec_encode_pre(h).subrange(148, 156) == space_bytes(8),
        spec_encode_pre(h)[156] == h.typeflag,
        spec_encode_pre(h).subrange(157, 257) == padded_field(h.linkname, 100),
        spec_encode_pre(h).subrange(257, 263) == magic_bytes(),
        spec_encode_pre(h).subrange(263, 265) == version_bytes(),
        spec_encode_pre(h).subrange(265, 297) == padded_field(h.uname, 32),
        spec_encode_pre(h).subrange(297, 329) == padded_field(h.gname, 32),
        spec_encode_pre(h).subrange(329, 337) == octal_field(0, 8),
        spec_encode_pre(h).subrange(337, 345) == octal_field(0, 8),
        spec_encode_pre(h).subrange(345, 500) == padded_field(h.prefix, 155),
        spec_encode_pre(h).subrange(500, 512) == zero_bytes(12),
{
    reveal(spec_encode_pre);
    lemma_field_lens(h);
    let pre = spec_encode_pre(h);
    assert(pre.subrange(0, 100) =~= padded_field(h.name, 100));
    assert(pre.subrange(100, 108) =~= octal_field(h.mode, 8));
    assert(pre.subrange(108, 116) =~= octal_field(h.uid, 8));
    assert(pre.subrange(116, 124) =~= octal_field(h.gid, 8));
    assert(pre.subrange(124, 136) =~= size_field(h.size));
    assert(pre.subrange(136, 148) =~= octal_field(h.mtime, 12));
    assert(pre.subrange(148, 156) =~= space_bytes(8));
    assert(pre.subrange(157, 257) =~= padded_field(h.linkname, 100));
    assert(pre.subrange(257, 263) =~= magic_bytes());
    assert(pre.subrange(263, 265) =~= version_bytes());
    assert(pre.subrange(265, 297) =~= padded_field(h.uname, 32));
    assert(pre.subrange(297, 329) =~= padded_field(h.gname, 32));
    assert(pre.subrange(329, 337) =~= octal_field(0, 8));
    assert(pre.subrange(337, 345) =~= octal_field(0, 8));
    assert(pre.subrange(345, 500) =~= padded_field(h.prefix, 155));
    assert(pre.subrange(500, 512) =~= zero_bytes(12));
}

/// Appends a NUL-padded string field.
fn push_padded(dst: &mut Vec<u8>, src: &[u8], w: usize)
    requires
        src@.len() <= w,
    ensures
        final(dst)@ == old(dst)@ + padded_field(src@, w as nat),
{
    push_bytes(dst, src);
    let mut z = zeros(w - src.len());
    dst.append(&mut z);
    proof {
        assert(dst@ =~= old(dst)@ + padded_field(src@, w as nat));
    }
}

/// Appends the size field.
fn push_size(dst: &mut Vec<u8>, v: u64)
    ensures
        final(dst)@ == old(dst)@ + size_field(v as nat),
{
    if v < 0o100000000000u64 {
        let mut f = encode_octal_field(v, 12);
        dst.append(&mut f);
    } else {
        dst.push(128);
        let mut f = encode_be_bytes(v, 11);
        dst.append(&mut f);
        proof {
            assert(dst@ =~= old(dst)@ + size_field(v as nat));
        }
    }
}

/// Serializes a header whose fields all fit; reports [`ArchiveError::Format`]
/// when one does not.
pub fn encode_header(h: &Header) -> (r: Result<Vec<u8>, ArchiveError>)
    ensures
        match r {
            Ok(b) => header_fits(h@) && b@ == spec_encode_header(h@) && b@.len() == 512,
            Err(e) => e == ArchiveError::Format && !header_fits(h@),
        },
{
    if !(h.name.len() <= 100 && h.prefix.len() <= 155 && h.linkname.len() <= 100 && h.uname.len()
        <= 31 && h.gname.len() <= 31 && h.mode < 0o10000000 && h.uid < 0o10000000 && h.gid
        < 0o10000000 && h.mtime < 0o100000000000u64) {
        return Err(ArchiveError::Format);
    }
    let mut pre: Vec<u8> = Vec::new();
    push_padded(&mut pre, h.name.as_slice(), 100);
    let mut f = encode_octal_field(h.mode as u64, 8);
    pre.append(&mut f);
    let mut f = encode_octal_field(h.uid as u64, 8);
    pre.append(&mut f);
    let mut f = encode_octal_field(h.gid as u64, 8);
    pre.append(&mut f);
    push_size(&mut pre, h.size);
    let mut f = encode_octal_field(h.mtime, 12);
    pre.append(&mut f);
    let mut sp: Vec<u8> = Vec::new();
    let mut i: usize = 0;
    while i < 8
        invariant
            0 <= i <= 8,
            sp@ =~= space_bytes(i as nat),
        decreases 8 - i,
    {
        sp.push(32);
        i = i + 1;
        proof {
            assert(sp@ =~= space_bytes(i as nat));
        }
    }
    pre.append(&mut sp);
    pre.push(h.typeflag);
    push_padded(&mut pre, h.linkname.as_slice(), 100);
    pre.push(117);
    pre.push(115);
    pre.push(116);
    pre.push(97);
    pre.push(114);
    pre.push(0);
    pre.push(48);
    pre.push(48);
    push_padded(&mut pre, h.uname.as_slice(), 32);
    push_padded(&mut pre, h.gname.as_slice(), 32);
    let mut f = encode_octal_field(0, 8);
    pre.append(&mut f);
    let mut f = encode_octal_field(0, 8);
    pre.append(&mut f);
    push_padded(&mut pre, h.prefix.as_slice(), 155);
    let mut z = zeros(12);
    pre.append(&mut z);
    proof {
        reveal(spec_encode_pre);
        assert(pre@ =~= spec_encode_pre(h@));
        lemma_pre_len(h@);
    }
    let sum = sum_slice(pre.as_slice());
    proof {
        lemma_sum_bytes_bound(pre@);
        lemma_pow12_bounds();
        lemma_octal_digits_len(sum as nat, 6);
    }
    let mut out = slice_to_vec(slice_subrange(pre.as_slice(), 0, 148));
    let mut chk = encode_octal_digits(sum, 6);
    out.append(&mut chk);
    out.push(0);
    out.push(32);
    push_bytes(&mut out, slice_subrange(pre.as_slice(), 156, 512));
    proof {
        reveal(spec_encode_header);
        assert(out@ =~= spec_encode_header(h@));
    }
    Ok(out)
}

/// The block with its checksum field read as eight spaces: the bytes the
/// checksum is defined over.
pub open spec fn checksum_input(b: Seq<u8>) -> Seq<u8> {
    b.take(148) + space_bytes(8) + b.skip(156)
}

/// The sum the block's checksum field stores, if it parses.
pub open spec fn stored_checksum(b: Seq<u8>) -> Option<nat> {
    spec_parse_octal(b.subrange(148, 156))
}

/// Whether the stored checksum matches the block's bytes.
pub open spec fn checksum_ok(b: Seq<u8>) -> bool {
    stored_checksum(b) == Some(sum_bytes(checksum_input(b)))
}

/// Whether the block carries the ustar magic.
pub open spec fn magic_ok(b: Seq<u8>) -> bool {
    b.subrange(257, 262) == magic_bytes().take(5)
}

/// Reading of the twelve-byte size field: octal, or GNU base-256 when the
/// marker bit is set.  A base-256 value too large for the model is refused.
pub open spec fn spec_parse_size(s: Seq<u8>) -> Option<nat>
    recommends
        s.len() == 12,
{
    if s[0] >= 128 {
        let v = ((s[0] - 128) as nat) * pow_n(256, 11) + base256_value(s.skip(1));
        if v < pow_n(256, 8) {
            Some(v)
        } else {
            None
        }
    } else {
        spec_parse_octal(s)
    }
}

/// What decoding a 512-byte block gives: the checksum is judged first, so
/// a corrupted byte surfaces as a checksum error before anything is read
/// through it; then the magic and the numeric fields.  Stored modes keep
/// only their low twelve bits.
#[verifier::opaque]
pub open spec fn spec_decode_header(b: Seq<u8>) -> Result<HeaderV, ArchiveError>
    recommends
        b.len() == 512,
{
    if stored_checksum(b) != Some(sum_bytes(checksum_input(b))) {
        Err(ArchiveError::Checksum)
    } else if !magic_ok(b) {
        Err(ArchiveError::Malformed)
    } else {
        let mode = spec_parse_octal(b.subrange(100, 108));
        let uid = spec_parse_octal(b.subrange(108, 116));
        let gid = spec_parse_octal(b.subrange(116, 124));
        let size = spec_parse_size(b.subrange(124, 136));
        let mtime = spec_parse_octal(b.subrange(136, 148));
        if mode is None || uid is None || gid is None || size is None || mtime is None {
            Err(ArchiveError::Malformed)
        } else {
            Ok(
                HeaderV {
                    name: cstr(b.subrange(0, 100)),
                    prefix: cstr(b.subrange(345, 500)),
                    mode: mode.unwrap() % 0o10000,
                    uid: uid.unwrap(),
                    gid: gid.unwrap(),
                    size: size.unwrap(),
                    mtime: mtime.unwrap(),
                    typeflag: b[156],
                    linkname: cstr(b.subrange(157, 257)),
                    uname: cstr(b.subrange(265, 297)),
                    gname: cstr(b.subrange(297, 329)),
                },
            )
        }
    }
}

/// Reads the size field.
fn parse_size(s: &[u8]) -> (r: Option<u64>)
    requires
        s@.len() == 12,
    ensures
        match r {
            Some(v) => spec_parse_size(s@) == Some(v as nat),
            None => spec_parse_size(s@) is None,
        },
{
    proof {
        lemma_pow256_bounds();
    }
    if s[0] >= 128 {
        if s[0] != 128 || s[1] != 0 || s[2] != 0 || s[3] != 0 {
            proof {
                let tail = s@.skip(1);
                assert(tail[0] == s@[1] && tail[1] == s@[2] && tail[2] == s@[3]);
                if s@[0] == 128 {
                    let k = if s@[1] != 0 {
                        0int
                    } else if s@[2] != 0 {
                        1int
                    } else {
                        2int
                    };
                    let t = tail.skip(k);
                    assert(t[0] == tail[k] && t[0] != 0);
                    lemma_base256_lower(t);
                    lemma_pow_n_mono(256, 8, (t.len() - 1) as nat);
                    assert((t[0] as nat) * pow_n(256, (t.len() - 1) as nat) >= pow_n(
                        256,
                        (t.len() - 1) as nat,
                    )) by (nonlinear_arith)
                        requires
                            t[0] as nat >= 1,
                            pow_n(256, (t.len() - 1) as nat) >= 0,
                    ;
                    lemma_base256_skip_zeros(tail, k);
                } else {
                    assert(((s@[0] - 128) as nat) * pow_n(256, 11) >= pow_n(256, 11))
                        by (nonlinear_arith)
                        requires
                            (s@[0] - 128) as nat >= 1,
                            pow_n(256, 11) >= 0,
                    ;
                    lemma_pow_n_mono(256, 8, 11);
                }
            }
            return None;
        }
        let mut v: u64 = 0;
        let mut j: usize = 4;
        while j < 12
            invariant
                4 <= j <= 12,
                s@.len() == 12,
                v as nat == base256_value(s@.subrange(4, j as int)),
                (v as nat) < pow_n(256, (j - 4) as nat),
            decreases 12 - j,
        {
            proof {
                let t = s@.subrange(4, j + 1);
                assert(t.drop_last() =~= s@.subrange(4, j as int));
                assert(t.last() == s@[j as int]);
                lemma_pow256_bounds();
                lemma_pow_n_mono(256, (j - 4) as nat, 7);
                assert(v * 256 + 256 <= pow_n(256, (j - 3) as nat)) by (nonlinear_arith)
                    requires
                        (v as nat) + 1 <= pow_n(256, (j - 4) as nat),
                        pow_n(256, (j - 3) as nat) == 256 * pow_n(256, (j - 4) as nat),
                ;
            }
            v = v * 256 + (s[j] as u64);
            j = j + 1;
        }
        proof {
            let tail = s@.skip(1);
            assert(tail[0] == s@[1] && tail[1] == s@[2] && tail[2] == s@[3]);
            lemma_base256_skip_zeros(tail, 3);
            assert(tail.skip(3) =~= s@.subrange(4, 12));
        }
        Some(v)
    } else {
        let r = parse_octal(s);
        proof {
            if r is Some {
                lemma_parse_octal_bound(s@);
                lemma_pow12_bounds();
            }
        }
        r
    }
}

/// Dropping leading zero bytes does not change a big-endian value.
proof fn lemma_base256_skip_zeros(s: Seq<u8>, k: int)
    requires
        0 <= k <= s.len(),
        forall|i: int| 0 <= i < k ==> s[i] == 0,
    ensures
        base256_value(s) == base256_value(s.skip(k)),
    decreases k,
{
    if k > 0 {
        assert(s[0] == 0);
        lemma_base256_drop_leading_zero(s);
        assert(s.drop_first() =~= s.skip(1));
        assert forall|i: int| 0 <= i < k - 1 implies s.skip(1)[i] == 0 by {
            assert(s.skip(1)[i] == s[i + 1]);
        }
        lemma_base256_skip_zeros(s.skip(1), k - 1);
        assert(s.skip(1).skip(k - 1) =~= s.skip(k));
    } else {
        assert(s.skip(0) =~= s);
    }
}

/// Reads a 512-byte block back into its fields.
pub fn decode_header(b: &[u8]) -> (r: Result<Header, ArchiveError>)
    requires
        b@.len() == 512,
    ensures
        match r {
            Ok(h) => spec_decode_header(b@) == Ok::<HeaderV, ArchiveError>(h@),
            Err(e) => spec_decode_header(b@) == Err::<HeaderV, ArchiveError>(e),
        },
{
    proof {
        reveal(spec_decode_header);
    }
    let stored = parse_octal(slice_subrange(b, 148, 156));
    let s1 = sum_slice(slice_subrange(b, 0, 148));
    let s2 = sum_slice(slice_subrange(b, 156, 512));
    proof {
        lemma_sum_bytes_bound(b@.take(148));
        lemma_sum_bytes_bound(b@.skip(156));
        lemma_sum_bytes_concat(b@.take(148), space_bytes(8));
        lemma_sum_bytes_concat(b@.take(148) + space_bytes(8), b@.skip(156));
        crate::bytes::lemma_sum_space(8);
        assert(b@.subrange(0, 148) =~= b@.take(148));
        assert(b@.subrange(156, 512) =~= b@.skip(156));
    }
    let computed: u64 = s1 + 256 + s2;
    let checksum_good = match stored {
        Some(sv) => sv == computed,
        None => false,
    };
    if !checksum_good {
        return Err(ArchiveError::Checksum);
    }
    if !(*slice_index_get(b, 257) == 117 && *slice_index_get(b, 258) == 115 && *slice_index_get(
        b,
        259,
    ) == 116 && *slice_index_get(b, 260) == 97 && *slice_index_get(b, 261) == 114) {
        proof {
            let m = magic_bytes().take(5);
            assert(m[0] == 117 && m[1] == 115 && m[2] == 116 && m[3] == 97 && m[4] == 114);
            assert(b@.subrange(257, 262) != m) by {
                if b@.subrange(257, 262) == m {
                    assert(b@[257] == m[0] && b@[258] == m[1] && b@[259] == m[2] && b@[260] == m[3]
                        && b@[261] == m[4]);
                }
            }
        }
        return Err(ArchiveError::Malformed);
    }
    proof {
        assert(b@.subrange(257, 262) =~= magic_bytes().take(5));
    }
    let mode_p = parse_octal(slice_subrange(b, 100, 108));
    let uid_p = parse_octal(slice_subrange(b, 108, 116));
    let gid_p = parse_octal(slice_subrange(b, 116, 124));
    let size_p = parse_size(slice_subrange(b, 124, 136));
    let mtime_p = parse_octal(slice_subrange(b, 136, 148));
    let (mode_v, uid_v, gid_v, size_v, mtime_v) = match (mode_p, uid_p, gid_p, size_p, mtime_p) {
        (Some(a), Some(bb), Some(c), Some(d), Some(e)) => (a, bb, c, d, e),
        _ => {
            return Err(ArchiveError::Malformed);
        },
    };
    proof {
        lemma_parse_octal_bound(b@.subrange(108, 116));
        lemma_parse_octal_bound(b@.subrange(116, 124));
        lemma_pow12_bounds();
        assert(uid_v < 0o100000000 && gid_v < 0o100000000);
        assert((mode_v & 0o7777) == (mode_v % 0o10000)) by (bit_vector);
    }
    let name = read_cstr(slice_subrange(b, 0, 100));
    let prefix = read_cstr(slice_subrange(b, 345, 500));
    let linkname = read_cstr(slice_subrange(b, 157, 257));
    let uname = read_cstr(slice_subrange(b, 265, 297));
    let gname = read_cstr(slice_subrange(b, 297, 329));
    let typeflag = *slice_index_get(b, 156);
    Ok(
        Header {
            name,
            prefix,
            mode: (mode_v & 0o7777) as u32,
            uid: uid_v as u32,
            gid: gid_v as u32,
            size: size_v,
            mtime: mtime_v,
            typeflag,
            linkname,
            uname,
            gname,
        },
    )
}

/// Where each field of the encoded block lies: outside the checksum field
/// the block agrees with the pre-checksum block byte for byte.
pub proof fn lemma_encode_fields(h: HeaderV)
    requires
        header_fits(h),
    ensures
        spec_encode_header(h).len() == 512,
        forall|i: int|
            0 <= i < 512 && !(148 <= i < 156) ==> #[trigger] spec_encode_header(h)[i]
                == spec_encode_pre(h)[i],
        spec_encode_header(h).subrange(148, 156) == chk_field(spec_header_sum(h)),
{
    reveal(spec_encode_header);
    lemma_field_lens(h);
    lemma_pre_len(h);
    let pre = spec_encode_pre(h);
    let b = spec_encode_header(h);
    lemma_octal_digits_len(sum_bytes(pre), 6);
    assert(b.len() == 512);
    assert forall|i: int|
        0 <= i < 512 && !(148 <= i < 156) implies #[trigger] b[i] == pre[i] by {
        if i < 148 {
            assert(b[i] == pre.take(148)[i]);
        } else {
            assert(b[i] == pre.skip(156)[i - 156]);
        }
    }
    assert(b.subrange(148, 156) =~= chk_field(sum_bytes(pre)));
}

/// An encoded header block carries a checksum that matches its bytes.
pub proof fn lemma_encode_checksum_ok(h: HeaderV)
    requires
        header_fits(h),
    ensures
        checksum_ok(spec_encode_header(h)),
{
    lemma_field_lens(h);
    lemma_pre_fields(h);
    lemma_encode_fields(h);
    let pre = spec_encode_pre(h);
    let b = spec_encode_header(h);
    assert(checksum_input(b) =~= pre);
    lemma_sum_bytes_bound(pre);
    lemma_pow12_bounds();
    lemma_octal_digits_padded_roundtrip(sum_bytes(pre), 6, seq![0u8, 32u8]);
    assert(b.subrange(148, 156) == octal_digits(sum_bytes(pre), 6) + seq![0u8, 32u8]);
}

/// Decoding inverts encoding, field for field.
pub proof fn lemma_header_roundtrip(h: HeaderV)
    requires
        header_fits(h),
        nul_free(h.name),
        nul_free(h.prefix),
        nul_free(h.linkname),
        nul_free(h.uname),
        nul_free(h.gname),
        h.mode < 0o10000,
    ensures
        spec_decode_header(spec_encode_header(h)) == Ok::<HeaderV, ArchiveError>(h),
{
    reveal(spec_decode_header);
    lemma_field_lens(h);
    lemma_pre_fields(h);
    lemma_encode_fields(h);
    lemma_encode_checksum_ok(h);
    let pre = spec_encode_pre(h);
    let b = spec_encode_header(h);
    // fields of the final block equal fields of the pre block
    assert(b.subrange(0, 100) =~= pre.subrange(0, 100));
    assert(b.subrange(100, 108) =~= pre.subrange(100, 108));
    assert(b.subrange(108, 116) =~= pre.subrange(108, 116));
    assert(b.subrange(116, 124) =~= pre.subrange(116, 124));
    assert(b.subrange(124, 136) =~= pre.subrange(124, 136));
    assert(b.subrange(136, 148) =~= pre.subrange(136, 148));
    assert(b.subrange(157, 257) =~= pre.subrange(157, 257));
    assert(b.subrange(257, 262) =~= pre.subrange(257, 262));
    assert(b.subrange(265, 297) =~= pre.subrange(265, 297));
    assert(b.subrange(297, 329) =~= pre.subrange(297, 329));
    assert(b.subrange(345, 500) =~= pre.subrange(345, 500));
    assert(b[156] == pre[156]);
    // magic
    assert(pre.subrange(257, 262) =~= magic_bytes().take(5)) by {
        assert(pre.subrange(257, 263) == magic_bytes());
        assert forall|i: int| 0 <= i < 5 implies pre.subrange(257, 262)[i] == magic_bytes().take(
            5,
        )[i] by {
            assert(pre.subrange(257, 262)[i] == pre.subrange(257, 263)[i]);
        }
    }
    // numeric fields
    lemma_pow12_bounds();
    lemma_octal_field_roundtrip(h.mode, 8);
    lemma_octal_field_roundtrip(h.uid, 8);
    lemma_octal_field_roundtrip(h.gid, 8);
    lemma_octal_field_roundtrip(h.mtime, 12);
    // the size field
    if h.size < 0o100000000000 {
        lemma_octal_field_roundtrip(h.size, 12);
        lemma_octal_digits_len(h.size, 11);
        assert(size_field(h.size)[0] == octal_digits(h.size, 11)[0]);
        assert(is_octal_digit(octal_digits(h.size, 11)[0]));
        assert(spec_parse_size(size_field(h.size)) == Some(h.size));
    } else {
        let s = size_field(h.size);
        lemma_be_bytes_len(h.size, 11);
        assert(s[0] == 128);
        assert(s.skip(1) =~= be_bytes(h.size, 11));
        lemma_pow256_bounds();
        lemma_pow_n_mono(256, 8, 11);
        lemma_base256_of_be_bytes(h.size, 11);
        assert(base256_value(s.skip(1)) == h.size);
        assert(((s[0] - 128) as nat) == 0);
        assert(((s[0] - 128) as nat) * pow_n(256, 11) == 0) by (nonlinear_arith)
            requires
                ((s[0] - 128) as nat) == 0,
        ;
        assert(h.size < pow_n(256, 8));
        assert(spec_parse_size(s) == Some(h.size));
    }
    // string fields
    lemma_cstr_of_padded(h.name, 100);
    lemma_cstr_of_padded(h.prefix, 155);
    lemma_cstr_of_padded(h.linkname, 100);
    lemma_cstr_of_padded(h.uname, 32);
    lemma_cstr_of_padded(h.gname, 32);
    assert(spec_decode_header(b) == Ok::<HeaderV, ArchiveError>(h));
}

/// An encoded header block is never all zero: it carries the magic.
pub proof fn lemma_encoded_not_zero(h: HeaderV)
    requires
        header_fits(h),
    ensures
        spec_encode_header(h) != zero_bytes(512),
{
    lemma_pre_fields(h);
    lemma_encode_fields(h);
    let b = spec_encode_header(h);
    let pre = spec_encode_pre(h);
    assert(b[257] == pre[257]);
    assert(pre.subrange(257, 263)[0] == pre[257]);
    assert(magic_bytes()[0] == 117);
    assert(zero_bytes(512)[257] == 0);
    if b == zero_bytes(512) {
        assert(b[257] == 0);
    }
}

/// Flipping any single byte outside the checksum field of a block whose
/// checksum was good makes decoding fail with a checksum error: corruption
/// is never read through silently.
pub proof fn lemma_checksum_catches_flip(b: Seq<u8>, i: int, v: u8)
    requires
        b.len() == 512,
        checksum_ok(b),
        0 <= i < 512,
        !(148 <= i < 156),
        v != b[i],
    ensures
        spec_decode_header(b.update(i, v)) == Err::<HeaderV, ArchiveError>(ArchiveError::Checksum),
{
    reveal(spec_decode_header);
    let c = b.update(i, v);
    assert(c.subrange(148, 156) =~= b.subrange(148, 156));
    let input_b = checksum_input(b);
    let input_c = checksum_input(c);
    assert(input_c =~= input_b.update(i, v)) by {
        assert(input_b.len() == 512 && input_c.len() == 512);
    }
    assert(input_b[i] == b[i]);
    lemma_sum_bytes_update(input_b, i, v);
    assert(sum_bytes(input_c) != sum_bytes(input_b));
}

} // verus!

