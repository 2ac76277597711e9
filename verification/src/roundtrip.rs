//! The writer and the reader invert one another.
//!
//! The law proved here: serializing any stream of well-formed members and
//! reading the bytes back gives exactly the original stream, whatever the
//! name and link-target lengths, so long names survive the trip through
//! the extension mechanism byte for byte.

use crate::bytes::{cstr, lemma_cstr_len_exact, nul_free, zero_bytes};
use crate::entry::{wf_item, ItemV};
use crate::entry::{
    TYPEFLAG_GNU_LONGLINK, TYPEFLAG_GNU_LONGNAME, TYPEFLAG_PAX, TYPEFLAG_PAX_GLOBAL,
};
use crate::errors::ArchiveError;
use crate::header::{
    header_fits, lemma_encode_fields, lemma_encoded_not_zero, lemma_header_roundtrip,
    spec_decode_header, spec_encode_header, HeaderV,
};
use crate::reader::{empty_pend, entry_from, spec_read, PendV};
use crate::spec_pad_len;
use crate::writer::{
    ext_header, gnu_ext_blocks, gnu_marker_name, header_of, spec_entries_bytes, spec_entry_blocks,
    spec_write_archive,
};
use vstd::prelude::*;

verus! {

/// Concatenation associates.
proof fn lemma_cat_assoc(x: Seq<u8>, y: Seq<u8>, z: Seq<u8>)
    ensures
        (x + y) + z == x + (y + z),
{
    assert((x + y) + z =~= x + (y + z));
}

/// An empty prefix disappears.
proof fn lemma_cat_empty(x: Seq<u8>)
    ensures
        Seq::<u8>::empty() + x == x,
{
    assert(Seq::<u8>::empty() + x =~= x);
}

/// The marker name is NUL-free and short.
proof fn lemma_marker_name_wf()
    ensures
        gnu_marker_name().len() == 13,
        nul_free(gnu_marker_name()),
{
    let m = gnu_marker_name();
    assert forall|i: int| 0 <= i < m.len() implies m[i] != 0 by {
        if i == 0 {
            assert(m[0] == 46);
        } else if i == 1 {
            assert(m[1] == 47);
        } else if i == 2 {
            assert(m[2] == 46);
        } else if i == 3 {
            assert(m[3] == 47);
        } else if i == 4 {
            assert(m[4] == 64);
        } else if i == 5 {
            assert(m[5] == 76);
        } else if i == 6 {
            assert(m[6] == 111);
        } else if i == 7 {
            assert(m[7] == 110);
        } else if i == 8 {
            assert(m[8] == 103);
        } else if i == 9 {
            assert(m[9] == 76);
        } else if i == 10 {
            assert(m[10] == 105);
        } else if i == 11 {
            assert(m[11] == 110);
        } else {
            assert(m[12] == 107);
        }
    }
}

/// One member's bytes consumed from the front of the stream, for a block
/// already known to decode to a header with an extension type flag: the
/// string lands in the pending state.
proof fn lemma_read_ext_block(hb: Seq<u8>, hv: HeaderV, data: Seq<u8>, rest: Seq<u8>, p: PendV)
    requires
        hb.len() == 512,
        hb != zero_bytes(512),
        spec_decode_header(hb) == Ok::<HeaderV, ArchiveError>(hv),
        hv.size == data.len(),
        hv.typeflag == TYPEFLAG_GNU_LONGNAME || hv.typeflag == TYPEFLAG_GNU_LONGLINK,
    ensures
        hv.typeflag == TYPEFLAG_GNU_LONGNAME ==> spec_read(
            hb + (data + (zero_bytes(spec_pad_len(data.len())) + rest)),
            p,
        ) == spec_read(rest, PendV { gnu_name: Some(cstr(data)), ..p }),
        hv.typeflag == TYPEFLAG_GNU_LONGLINK ==> spec_read(
            hb + (data + (zero_bytes(spec_pad_len(data.len())) + rest)),
            p,
        ) == spec_read(rest, PendV { gnu_link: Some(cstr(data)), ..p }),
{
    let pad = spec_pad_len(data.len());
    let b = hb + (data + (zero_bytes(pad) + rest));
    assert(pad < 512);
    assert(b.len() == 512 + data.len() + pad + rest.len());
    assert(b.take(512) =~= hb);
    let total = 512 + hv.size + spec_pad_len(hv.size);
    assert(b.len() >= total);
    assert(b.subrange(512, 512 + hv.size as int) =~= data);
    assert(b.skip(total as int) =~= rest);
}

/// One member's bytes consumed from the front of the stream, for a block
/// already known to decode to a real member's header: the member comes
/// out, the pending overrides applied, and reading goes on cleanly.
proof fn lemma_read_real_block(hb: Seq<u8>, hv: HeaderV, data: Seq<u8>, rest: Seq<u8>, p: PendV)
    requires
        hb.len() == 512,
        hb != zero_bytes(512),
        spec_decode_header(hb) == Ok::<HeaderV, ArchiveError>(hv),
        hv.size == data.len(),
        hv.typeflag != TYPEFLAG_GNU_LONGNAME,
        hv.typeflag != TYPEFLAG_GNU_LONGLINK,
        hv.typeflag != TYPEFLAG_PAX,
        hv.typeflag != TYPEFLAG_PAX_GLOBAL,
    ensures
        spec_read(hb + (data + (zero_bytes(spec_pad_len(data.len())) + rest)), p) == match spec_read(
            rest,
            empty_pend(),
        ) {
            Ok(s) => Ok::<Seq<ItemV>, ArchiveError>(
                seq![ItemV { entry: entry_from(hv, p), data, extras: p.extras }] + s,
            ),
            Err(e) => Err::<Seq<ItemV>, ArchiveError>(e),
        },
{
    let pad = spec_pad_len(data.len());
    let b = hb + (data + (zero_bytes(pad) + rest));
    assert(pad < 512);
    assert(b.len() == 512 + data.len() + pad + rest.len());
    assert(b.take(512) =~= hb);
    let total = 512 + hv.size + spec_pad_len(hv.size);
    assert(b.len() >= total);
    assert(b.subrange(512, 512 + hv.size as int) =~= data);
    assert(b.skip(total as int) =~= rest);
}

/// Reading a GNU extension member stores its string in the pending state
/// and goes on with the rest of the bytes.
proof fn lemma_read_gnu_ext(flag: u8, s: Seq<u8>, rest: Seq<u8>, p: PendV)
    requires
        nul_free(s),
        s.len() < usize::MAX as nat,
        flag == TYPEFLAG_GNU_LONGNAME || flag == TYPEFLAG_GNU_LONGLINK,
    ensures
        flag == TYPEFLAG_GNU_LONGNAME ==> spec_read(gnu_ext_blocks(flag, s) + rest, p)
            == spec_read(rest, PendV { gnu_name: Some(s), ..p }),
        flag == TYPEFLAG_GNU_LONGLINK ==> spec_read(gnu_ext_blocks(flag, s) + rest, p)
            == spec_read(rest, PendV { gnu_link: Some(s), ..p }),
{
    let eh = ext_header(flag, s.len() + 1);
    lemma_marker_name_wf();
    assert(header_fits(eh));
    lemma_encode_fields(eh);
    lemma_header_roundtrip(eh);
    lemma_encoded_not_zero(eh);
    let hb = spec_encode_header(eh);
    let data = s + seq![0u8];
    let z = zero_bytes(spec_pad_len(s.len() + 1));
    // regroup the member's bytes around the opaque header block
    lemma_cat_assoc(hb, s, seq![0u8]);
    lemma_cat_assoc(hb, data, z);
    lemma_cat_assoc(hb + data, z, rest);
    lemma_cat_assoc(hb, data, z + rest);
    lemma_cat_assoc(data, z, rest);
    assert(gnu_ext_blocks(flag, s) + rest == hb + (data + (z + rest)));
    assert(cstr(data) == s) by {
        assert forall|j: int| 0 <= j < s.len() implies data[j] != 0 by {
            assert(data[j] == s[j]);
        }
        assert(data[s.len() as int] == 0);
        lemma_cstr_len_exact(data, s.len());
        assert(data.take(s.len() as int) =~= s);
    }
    lemma_read_ext_block(hb, eh, data, rest, p);
}

/// Reading every byte one member contributes yields that member and goes
/// on with the rest of the bytes in a clean state.
#[verifier::rlimit(100)]
#[verifier::spinoff_prover]
proof fn lemma_read_entry(it: ItemV, rest: Seq<u8>)
    requires
        wf_item(it),
        it.extras == Seq::<(Seq<u8>, Seq<u8>)>::empty(),
    ensures
        spec_read(spec_entry_blocks(it) + rest, empty_pend()) == match spec_read(
            rest,
            empty_pend(),
        ) {
            Ok(s) => Ok::<Seq<ItemV>, ArchiveError>(seq![it] + s),
            Err(e) => Err::<Seq<ItemV>, ArchiveError>(e),
        },
{
    let e = it.entry;
    let hv = header_of(e);
    assert(header_fits(hv));
    assert(nul_free(hv.name)) by {
        if e.name.len() > 100 {
            assert forall|i: int| 0 <= i < hv.name.len() implies hv.name[i] != 0 by {
                assert(hv.name[i] == e.name[i]);
            }
        }
    }
    assert(nul_free(hv.linkname)) by {
        if e.linkname.len() > 100 {
            assert forall|i: int| 0 <= i < hv.linkname.len() implies hv.linkname[i] != 0 by {
                assert(hv.linkname[i] == e.linkname[i]);
            }
        }
    }
    lemma_encode_fields(hv);
    lemma_header_roundtrip(hv);
    lemma_encoded_not_zero(hv);
    let hb = spec_encode_header(hv);
    let a = if e.name.len() > 100 {
        gnu_ext_blocks(TYPEFLAG_GNU_LONGNAME, e.name)
    } else {
        Seq::<u8>::empty()
    };
    let bb = if e.linkname.len() > 100 {
        gnu_ext_blocks(TYPEFLAG_GNU_LONGLINK, e.linkname)
    } else {
        Seq::<u8>::empty()
    };
    let z = zero_bytes(spec_pad_len(it.data.len()));
    // regroup the member's bytes: extension members first, then the header
    // block, payload and padding, each an opaque unit
    lemma_cat_assoc(a + bb + hb + it.data, z, rest);
    lemma_cat_assoc(a + bb + hb, it.data, z + rest);
    lemma_cat_assoc(a + bb, hb, it.data + (z + rest));
    lemma_cat_assoc(a, bb, hb + (it.data + (z + rest)));
    assert(spec_entry_blocks(it) + rest == a + (bb + (hb + (it.data + (z + rest)))));
    let p0 = empty_pend();
    let p1 = if e.name.len() > 100 {
        PendV { gnu_name: Some(e.name), ..p0 }
    } else {
        p0
    };
    let p2 = if e.linkname.len() > 100 {
        PendV { gnu_link: Some(e.linkname), ..p1 }
    } else {
        p1
    };
    if e.name.len() > 100 {
        lemma_read_gnu_ext(TYPEFLAG_GNU_LONGNAME, e.name, bb + (hb + (it.data + (z + rest))), p0);
    } else {
        lemma_cat_empty(bb + (hb + (it.data + (z + rest))));
    }
    if e.linkname.len() > 100 {
        lemma_read_gnu_ext(TYPEFLAG_GNU_LONGLINK, e.linkname, hb + (it.data + (z + rest)), p1);
    } else {
        lemma_cat_empty(hb + (it.data + (z + rest)));
    }
    // the header's flag names a real member, not an extension
    assert(hv.typeflag == e.entry_type.spec_typeflag());
    assert(hv.typeflag != TYPEFLAG_GNU_LONGNAME && hv.typeflag != TYPEFLAG_GNU_LONGLINK
        && hv.typeflag != TYPEFLAG_PAX && hv.typeflag != TYPEFLAG_PAX_GLOBAL);
    lemma_read_real_block(hb, hv, it.data, rest, p2);
    // the pending overrides rebuild exactly the original member
    assert(entry_from(hv, p2) == e) by {
        e.entry_type.lemma_typeflag_roundtrip();
        if e.name.len() <= 100 {
            assert(hv.prefix.len() == 0);
        }
    }
    assert(ItemV { entry: entry_from(hv, p2), data: it.data, extras: p2.extras } == it);
}

/// Round trip: reading back a serialized stream of well-formed members,
/// whose extra PAX metadata is empty as the writer leaves it, gives
/// exactly the original stream.  Proved for every stream, every name and
/// link-target length, and every payload.
pub proof fn lemma_archive_roundtrip(items: Seq<ItemV>)
    requires
        forall|i: int| 0 <= i < items.len() ==> wf_item(#[trigger] items[i]),
        forall|i: int|
            0 <= i < items.len() ==> (#[trigger] items[i].extras) == Seq::<(
                Seq<u8>,
                Seq<u8>,
            )>::empty(),
    ensures
        spec_read(spec_write_archive(items), empty_pend()) == Ok::<Seq<ItemV>, ArchiveError>(
            items,
        ),
    decreases items.len(),
{
    if items.len() == 0 {
        let b = spec_write_archive(items);
        assert(b =~= zero_bytes(1024));
        assert(b.take(512) =~= zero_bytes(512));
        assert(b.subrange(512, 1024) =~= zero_bytes(512));
        assert(spec_read(b, empty_pend()) == Ok::<Seq<ItemV>, ArchiveError>(Seq::empty()));
        assert(items =~= Seq::<ItemV>::empty());
    } else {
        let tail = items.drop_first();
        assert forall|i: int| 0 <= i < tail.len() implies wf_item(#[trigger] tail[i]) by {
            assert(tail[i] == items[i + 1]);
        }
        assert forall|i: int|
            0 <= i < tail.len() implies (#[trigger] tail[i].extras) == Seq::<(
            Seq<u8>,
            Seq<u8>,
        )>::empty() by {
            assert(tail[i] == items[i + 1]);
        }
        lemma_archive_roundtrip(tail);
        lemma_cat_assoc(spec_entry_blocks(items[0]), spec_entries_bytes(tail), zero_bytes(1024));
        assert(spec_write_archive(items) == spec_entry_blocks(items[0]) + spec_write_archive(
            tail,
        ));
        lemma_read_entry(items[0], spec_write_archive(tail));
        assert(seq![items[0]] + tail =~= items);
    }
}

} // verus!
