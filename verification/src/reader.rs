//! Deserializing archive bytes into an entry stream.
//!
//! The reader walks the byte stream block by block.  GNU long-name and
//! long-link members and PAX extended headers are absorbed into a pending
//! state that the next real member consumes, with PAX taking precedence
//! over the GNU mechanism.  Two zero blocks end the archive; an early end
//! of the bytes is a truncation error, a bad checksum a corruption error.
//! Both are terminal.

use crate::bytes::{cstr, is_all_zero, read_cstr, zero_bytes};
use crate::entry::{items_view, ArchiveItem, EntryModel, EntryType, EntryV, ItemV};
use crate::entry::{
    TYPEFLAG_GNU_LONGLINK, TYPEFLAG_GNU_LONGNAME, TYPEFLAG_PAX, TYPEFLAG_PAX_GLOBAL,
};
use crate::errors::ArchiveError;
use crate::header::{decode_header, spec_decode_header, HeaderV};
use crate::pax::{pairs_view, parse_pax_records, pax_key_linkpath, pax_key_path, spec_pax_records};
use crate::spec_pad_len;
use vstd::prelude::*;
use vstd::slice::{slice_subrange, slice_to_vec};

verus! {

/// What extension members have promised about the next real member.
pub struct PendV {
    pub gnu_name: Option<Seq<u8>>,
    pub gnu_link: Option<Seq<u8>>,
    pub pax_path: Option<Seq<u8>>,
    pub pax_link: Option<Seq<u8>>,
    pub extras: Seq<(Seq<u8>, Seq<u8>)>,
}

/// No pending overrides.
pub open spec fn empty_pend() -> PendV {
    PendV {
        gnu_name: None,
        gnu_link: None,
        pax_path: None,
        pax_link: None,
        extras: Seq::empty(),
    }
}

/// A stored name rejoined from the prefix field: `prefix '/' name` when a
/// prefix is present.
pub open spec fn joined_name(prefix: Seq<u8>, name: Seq<u8>) -> Seq<u8> {
    if prefix.len() == 0 {
        name
    } else {
        prefix + seq![47u8] + name
    }
}

/// The member a real header block yields, the pending overrides applied:
/// a PAX path wins over a GNU long name, which wins over the header's own
/// fields.
pub open spec fn entry_from(h: HeaderV, p: PendV) -> EntryV {
    EntryV {
        name: if p.pax_path is Some {
            p.pax_path.unwrap()
        } else if p.gnu_name is Some {
            p.gnu_name.unwrap()
        } else {
            joined_name(h.prefix, h.name)
        },
        entry_type: EntryType::spec_from_typeflag(h.typeflag),
        linkname: if p.pax_link is Some {
            p.pax_link.unwrap()
        } else if p.gnu_link is Some {
            p.gnu_link.unwrap()
        } else {
            h.linkname
        },
        size: h.size,
        mode: h.mode,
        uid: h.uid,
        gid: h.gid,
        mtime: h.mtime,
        uname: h.uname,
        gname: h.gname,
    }
}

/// PAX records applied in order: `path` and `linkpath` set their
/// overrides, every other key is kept as opaque metadata.
pub open spec fn apply_pax_records(p: PendV, recs: Seq<(Seq<u8>, Seq<u8>)>) -> PendV
    decreases recs.len(),
{
    if recs.len() == 0 {
        p
    } else {
        let p1 = if recs[0].0 == pax_key_path() {
            PendV { pax_path: Some(recs[0].1), ..p }
        } else if recs[0].0 == pax_key_linkpath() {
            PendV { pax_link: Some(recs[0].1), ..p }
        } else {
            PendV { extras: p.extras.push(recs[0]), ..p }
        };
        apply_pax_records(p1, recs.drop_first())
    }
}

/// What reading a byte stream gives, from a pending state: the members in
/// order, or the first error.  Fewer bytes than a block, or than an
/// announced payload, is a truncation; a lone zero block is malformed; two
/// zero blocks end the archive, and bytes beyond them are not read.
pub open spec fn spec_read(b: Seq<u8>, p: PendV) -> Result<Seq<ItemV>, ArchiveError>
    decreases b.len(),
{
    if b.len() < 512 {
        Err(ArchiveError::Truncated)
    } else if b.take(512) == zero_bytes(512) {
        if b.len() < 1024 {
            Err(ArchiveError::Truncated)
        } else if b.subrange(512, 1024) == zero_bytes(512) {
            Ok(Seq::empty())
        } else {
            Err(ArchiveError::Malformed)
        }
    } else {
        match spec_decode_header(b.take(512)) {
            Err(e) => Err(e),
            Ok(h) => {
                let total = 512 + h.size + spec_pad_len(h.size);
                if b.len() < total {
                    Err(ArchiveError::Truncated)
                } else {
                    let data = b.subrange(512, 512 + h.size as int);
                    let rest = b.skip(total as int);
                    if h.typeflag == TYPEFLAG_GNU_LONGNAME {
                        spec_read(rest, PendV { gnu_name: Some(cstr(data)), ..p })
                    } else if h.typeflag == TYPEFLAG_GNU_LONGLINK {
                        spec_read(rest, PendV { gnu_link: Some(cstr(data)), ..p })
                    } else if h.typeflag == TYPEFLAG_PAX {
                        match spec_pax_records(data) {
                            None => Err(ArchiveError::Malformed),
                            Some(recs) => spec_read(rest, apply_pax_records(p, recs)),
                        }
                    } else if h.typeflag == TYPEFLAG_PAX_GLOBAL {
                        spec_read(rest, p)
                    } else {
                        match spec_read(rest, empty_pend()) {
                            Ok(s) => Ok(
                                seq![ItemV { entry: entry_from(h, p), data, extras: p.extras }] + s,
                            ),
                            Err(e) => Err(e),
                        }
                    }
                }
            },
        }
    }
}

/// An archive of exactly the two-block terminator holds no members.
pub proof fn lemma_terminator_reads_empty()
    ensures
        spec_read(zero_bytes(1024), empty_pend()) == Ok::<Seq<ItemV>, ArchiveError>(Seq::empty()),
{
    let b = zero_bytes(1024);
    assert(b.take(512) =~= zero_bytes(512));
    assert(b.subrange(512, 1024) =~= zero_bytes(512));
}

/// A stream shorter than one block cannot even hold a header: it is
/// truncated, whatever the pending state.
pub proof fn lemma_short_stream_truncated(b: Seq<u8>, p: PendV)
    requires
        b.len() < 512,
    ensures
        spec_read(b, p) == Err::<Seq<ItemV>, ArchiveError>(ArchiveError::Truncated),
{
}

/// The ghost value of the reader's pending state.
pub open spec fn pend_view(
    gnu_name: Option<Vec<u8>>,
    gnu_link: Option<Vec<u8>>,
    pax_path: Option<Vec<u8>>,
    pax_link: Option<Vec<u8>>,
    extras: Seq<(Vec<u8>, Vec<u8>)>,
) -> PendV {
    PendV {
        gnu_name: match gnu_name {
            Some(v) => Some(v@),
            None => None,
        },
        gnu_link: match gnu_link {
            Some(v) => Some(v@),
            None => None,
        },
        pax_path: match pax_path {
            Some(v) => Some(v@),
            None => None,
        },
        pax_link: match pax_link {
            Some(v) => Some(v@),
            None => None,
        },
        extras: pairs_view(extras),
    }
}

/// Whether a key is the PAX `path` key.
fn key_is_path(k: &[u8]) -> (r: bool)
    ensures
        r == (k@ == pax_key_path()),
{
    let r = k.len() == 4 && k[0] == 112 && k[1] == 97 && k[2] == 116 && k[3] == 104;
    proof {
        if r {
            assert(k@ =~= pax_key_path());
        } else {
            if k@ == pax_key_path() {
                assert(k@[0] == 112 && k@[1] == 97 && k@[2] == 116 && k@[3] == 104);
            }
        }
    }
    r
}

/// Whether a key is the PAX `linkpath` key.
fn key_is_linkpath(k: &[u8]) -> (r: bool)
    ensures
        r == (k@ == pax_key_linkpath()),
{
    let r = k.len() == 8 && k[0] == 108 && k[1] == 105 && k[2] == 110 && k[3] == 107 && k[4] == 112
        && k[5] == 97 && k[6] == 116 && k[7] == 104;
    proof {
        if r {
            assert(k@ =~= pax_key_linkpath());
        } else {
            if k@ == pax_key_linkpath() {
                assert(k@[0] == 108 && k@[1] == 105 && k@[2] == 110 && k@[3] == 107 && k@[4] == 112
                    && k@[5] == 97 && k@[6] == 116 && k@[7] == 104);
            }
        }
    }
    r
}

/// Deserializes a complete archive into its entry stream.
#[verifier::rlimit(100)]
pub fn read_archive(b: &[u8]) -> (r: Result<Vec<ArchiveItem>, ArchiveError>)
    ensures
        match r {
            Ok(items) => spec_read(b@, empty_pend()) == Ok::<Seq<ItemV>, ArchiveError>(
                items_view(items@),
            ),
            Err(e) => spec_read(b@, empty_pend()) == Err::<Seq<ItemV>, ArchiveError>(e),
        },
{
    let ghost gb = b@;
    let n = b.len();
    let mut off: usize = 0;
    let mut gnu_name: Option<Vec<u8>> = None;
    let mut gnu_link: Option<Vec<u8>> = None;
    let mut pax_path: Option<Vec<u8>> = None;
    let mut pax_link: Option<Vec<u8>> = None;
    let mut extras: Vec<(Vec<u8>, Vec<u8>)> = Vec::new();
    let mut out: Vec<ArchiveItem> = Vec::new();
    proof {
        assert(gb.skip(0) =~= gb);
        assert(pend_view(gnu_name, gnu_link, pax_path, pax_link, extras@) == empty_pend()) by {
            assert(pairs_view(extras@) =~= Seq::<(Seq<u8>, Seq<u8>)>::empty());
        }
        assert forall|s: Seq<ItemV>|
            spec_read(gb, empty_pend()) == Ok::<Seq<ItemV>, ArchiveError>(s) implies items_view(
            out@,
        ) + s == s by {
            assert(items_view(out@) + s =~= s);
        }
    }
    loop
        invariant
            0 <= off <= n,
            n == gb.len(),
            gb == b@,
            forall|s: Seq<ItemV>|
                spec_read(gb.skip(off as int), pend_view(gnu_name, gnu_link, pax_path, pax_link, extras@))
                    == Ok::<Seq<ItemV>, ArchiveError>(s) ==> spec_read(gb, empty_pend())
                    == Ok::<Seq<ItemV>, ArchiveError>(items_view(out@) + s),
            forall|e: ArchiveError|
                spec_read(gb.skip(off as int), pend_view(gnu_name, gnu_link, pax_path, pax_link, extras@))
                    == Err::<Seq<ItemV>, ArchiveError>(e) ==> spec_read(gb, empty_pend())
                    == Err::<Seq<ItemV>, ArchiveError>(e),
        decreases n - off,
    {
        let ghost pend = pend_view(gnu_name, gnu_link, pax_path, pax_link, extras@);
        let ghost rem = gb.skip(off as int);
        if n - off < 512 {
            proof {
                assert(spec_read(rem, pend) == Err::<Seq<ItemV>, ArchiveError>(
                    ArchiveError::Truncated,
                ));
            }
            return Err(ArchiveError::Truncated);
        }
        let block = slice_subrange(b, off, off + 512);
        proof {
            assert(block@ =~= rem.take(512));
        }
        if is_all_zero(block) {
            if n - off < 1024 {
                proof {
                    assert(spec_read(rem, pend) == Err::<Seq<ItemV>, ArchiveError>(
                        ArchiveError::Truncated,
                    ));
                }
                return Err(ArchiveError::Truncated);
            }
            let second = slice_subrange(b, off + 512, off + 1024);
            proof {
                assert(second@ =~= rem.subrange(512, 1024));
            }
            if is_all_zero(second) {
                proof {
                    assert(spec_read(rem, pend) == Ok::<Seq<ItemV>, ArchiveError>(
                        Seq::<ItemV>::empty(),
                    ));
                    assert(items_view(out@) + Seq::<ItemV>::empty() =~= items_view(out@));
                }
                return Ok(out);
            }
            proof {
                assert(spec_read(rem, pend) == Err::<Seq<ItemV>, ArchiveError>(
                    ArchiveError::Malformed,
                ));
            }
            return Err(ArchiveError::Malformed);
        }
        let h = match decode_header(block) {
            Ok(h) => h,
            Err(e) => {
                proof {
                    assert(spec_read(rem, pend) == Err::<Seq<ItemV>, ArchiveError>(e));
                }
                return Err(e);
            },
        };
        let ghost hv = h@;
        let avail = n - off - 512;
        if h.size > avail as u64 {
            proof {
                assert(rem.len() < 512 + hv.size + spec_pad_len(hv.size));
                assert(spec_read(rem, pend) == Err::<Seq<ItemV>, ArchiveError>(
                    ArchiveError::Truncated,
                ));
            }
            return Err(ArchiveError::Truncated);
        }
        let size_us = h.size as usize;
        let pad = crate::pad_len(size_us);
        if size_us + pad > avail {
            proof {
                assert(rem.len() < 512 + hv.size + spec_pad_len(hv.size));
                assert(spec_read(rem, pend) == Err::<Seq<ItemV>, ArchiveError>(
                    ArchiveError::Truncated,
                ));
            }
            return Err(ArchiveError::Truncated);
        }
        let total = 512 + size_us + pad;
        let data = slice_to_vec(slice_subrange(b, off + 512, off + 512 + size_us));
        proof {
            assert(rem.len() >= 512 + hv.size + spec_pad_len(hv.size));
            assert(data@ =~= rem.subrange(512, 512 + hv.size as int));
            assert(rem.skip(total as int) =~= gb.skip((off + total) as int));
        }
        let ghost rest = rem.skip(total as int);
        if h.typeflag == TYPEFLAG_GNU_LONGNAME {
            let name = read_cstr(data.as_slice());
            gnu_name = Some(name);
            proof {
                let pend2 = pend_view(gnu_name, gnu_link, pax_path, pax_link, extras@);
                assert(pend2 == PendV { gnu_name: Some(cstr(data@)), ..pend });
                assert(spec_read(rem, pend) == spec_read(rest, pend2));
            }
        } else if h.typeflag == TYPEFLAG_GNU_LONGLINK {
            let link = read_cstr(data.as_slice());
            gnu_link = Some(link);
            proof {
                let pend2 = pend_view(gnu_name, gnu_link, pax_path, pax_link, extras@);
                assert(pend2 == PendV { gnu_link: Some(cstr(data@)), ..pend });
                assert(spec_read(rem, pend) == spec_read(rest, pend2));
            }
        } else if h.typeflag == TYPEFLAG_PAX {
            let recs = match parse_pax_records(data.as_slice()) {
                Some(r) => r,
                None => {
                    proof {
                        assert(spec_read(rem, pend) == Err::<Seq<ItemV>, ArchiveError>(
                            ArchiveError::Malformed,
                        ));
                    }
                    return Err(ArchiveError::Malformed);
                },
            };
            let ghost grecs = spec_pax_records(data@).unwrap();
            let m = recs.len();
            let mut k: usize = 0;
            proof {
                assert(pairs_view(recs@) =~= grecs);
                assert(grecs.skip(0) =~= grecs);
            }
            while k < m
                invariant
                    0 <= k <= m,
                    m == recs@.len(),
                    pairs_view(recs@) == grecs,
                    apply_pax_records(
                        pend,
                        grecs,
                    ) == apply_pax_records(
                        pend_view(gnu_name, gnu_link, pax_path, pax_link, extras@),
                        grecs.skip(k as int),
                    ),
                decreases m - k,
            {
                let ghost pcur = pend_view(gnu_name, gnu_link, pax_path, pax_link, extras@);
                let ghost tail = grecs.skip(k as int);
                proof {
                    assert(tail[0] == grecs[k as int]);
                    assert(tail[0].0 == recs@[k as int].0@ && tail[0].1 == recs@[k as int].1@);
                    assert(tail.drop_first() =~= grecs.skip(k + 1));
                }
                let kv = &recs[k];
                if key_is_path(kv.0.as_slice()) {
                    pax_path = Some(slice_to_vec(kv.1.as_slice()));
                } else if key_is_linkpath(kv.0.as_slice()) {
                    pax_link = Some(slice_to_vec(kv.1.as_slice()));
                } else {
                    extras.push((slice_to_vec(kv.0.as_slice()), slice_to_vec(kv.1.as_slice())));
                    proof {
                        let pnext = pend_view(gnu_name, gnu_link, pax_path, pax_link, extras@);
                        assert(pnext.extras =~= pcur.extras.push(tail[0]));
                    }
                }
                k = k + 1;
            }
            proof {
                assert(grecs.skip(m as int) =~= Seq::<(Seq<u8>, Seq<u8>)>::empty());
                let pend2 = pend_view(gnu_name, gnu_link, pax_path, pax_link, extras@);
                assert(apply_pax_records(pend2, grecs.skip(m as int)) == pend2);
                assert(spec_read(rem, pend) == spec_read(rest, pend2));
            }
        } else if h.typeflag == TYPEFLAG_PAX_GLOBAL {
            proof {
                assert(spec_read(rem, pend) == spec_read(rest, pend));
            }
        } else {
            // a real member: apply and clear the pending state
            let name = match pax_path {
                Some(v) => v,
                None => match gnu_name {
                    Some(v) => v,
                    None => {
                        if h.prefix.len() == 0 {
                            h.name
                        } else {
                            let mut j = h.prefix;
                            j.push(47);
                            let mut nm = h.name;
                            j.append(&mut nm);
                            proof {
                                assert(j@ =~= joined_name(hv.prefix, hv.name));
                            }
                            j
                        }
                    },
                },
            };
            let linkname = match pax_link {
                Some(v) => v,
                None => match gnu_link {
                    Some(v) => v,
                    None => h.linkname,
                },
            };
            let item = ArchiveItem {
                entry: EntryModel {
                    name,
                    entry_type: EntryType::from_typeflag(h.typeflag),
                    linkname,
                    size: h.size,
                    mode: h.mode,
                    uid: h.uid,
                    gid: h.gid,
                    mtime: h.mtime,
                    uname: h.uname,
                    gname: h.gname,
                },
                data,
                pax_extras: extras,
            };
            proof {
                assert(item@.entry == entry_from(hv, pend));
                assert(item@.data == rem.subrange(512, 512 + hv.size as int));
                assert(item@.extras == pend.extras);
            }
            let ghost old_out = out@;
            out.push(item);
            gnu_name = None;
            gnu_link = None;
            pax_path = None;
            pax_link = None;
            extras = Vec::new();
            proof {
                let itv = ItemV {
                    entry: entry_from(hv, pend),
                    data: rem.subrange(512, 512 + hv.size as int),
                    extras: pend.extras,
                };
                assert(items_view(out@) =~= items_view(old_out).push(itv)) by {
                    assert forall|t: int| 0 <= t < out@.len() implies items_view(out@)[t]
                        == items_view(old_out).push(itv)[t] by {
                        if t < old_out.len() {
                            assert(out@[t] == old_out[t]);
                        }
                    }
                }
                let pend2 = pend_view(gnu_name, gnu_link, pax_path, pax_link, extras@);
                assert(pend2 == empty_pend()) by {
                    assert(pairs_view(extras@) =~= Seq::<(Seq<u8>, Seq<u8>)>::empty());
                }
                assert forall|s: Seq<ItemV>|
                    spec_read(rest, pend2) == Ok::<Seq<ItemV>, ArchiveError>(s) implies spec_read(
                    gb,
                    empty_pend(),
                ) == Ok::<Seq<ItemV>, ArchiveError>(items_view(out@) + s) by {
                    assert(spec_read(rem, pend) == Ok::<Seq<ItemV>, ArchiveError>(seq![itv] + s));
                    assert(items_view(old_out) + (seq![itv] + s) =~= items_view(out@) + s);
                }
                assert forall|e: ArchiveError|
                    spec_read(rest, pend2) == Err::<Seq<ItemV>, ArchiveError>(e) implies spec_read(
                    gb,
                    empty_pend(),
                ) == Err::<Seq<ItemV>, ArchiveError>(e) by {
                    assert(spec_read(rem, pend) == Err::<Seq<ItemV>, ArchiveError>(e));
                }
            }
        }
        off = off + total;
    }
}

} // verus!
