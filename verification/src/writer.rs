//! Serializing an entry stream into archive bytes.
//!
//! Each member becomes its header block, the payload rounded up to whole
//! blocks, and, for a name or link target longer than the header field,
//! a preceding GNU long-name block carrying the full string.  The archive
//! ends with two zero blocks.  Creating an archive from zero members is
//! refused outright, before any byte is produced.

use crate::bytes::{check_nul_free, push_bytes, zero_bytes, zeros};
use crate::entry::{items_view, wf_item, ArchiveItem, EntryType, EntryV, ItemV};
use crate::entry::{TYPEFLAG_GNU_LONGLINK, TYPEFLAG_GNU_LONGNAME};
use crate::errors::ArchiveError;
use crate::header::{encode_header, header_fits, spec_encode_header, Header, HeaderV};
use crate::{pad_len, spec_pad_len};
use vstd::prelude::*;
use vstd::slice::{slice_subrange, slice_to_vec};

verus! {

/// The marker name GNU tar stores in a long-name extension header.
pub open spec fn gnu_marker_name() -> Seq<u8> {
    seq![46u8, 47u8, 46u8, 47u8, 64u8, 76u8, 111u8, 110u8, 103u8, 76u8, 105u8, 110u8, 107u8]
}

/// The header of a GNU long-name or long-link block whose payload is
/// `len` bytes: the string and its terminating NUL.
pub open spec fn ext_header(flag: u8, len: nat) -> HeaderV {
    HeaderV {
        name: gnu_marker_name(),
        prefix: Seq::empty(),
        mode: 0o644,
        uid: 0,
        gid: 0,
        size: len,
        mtime: 0,
        typeflag: flag,
        linkname: Seq::empty(),
        uname: Seq::empty(),
        gname: Seq::empty(),
    }
}

/// A whole GNU extension member: its header, the string with a trailing
/// NUL, and the padding to a block boundary.
pub open spec fn gnu_ext_blocks(flag: u8, s: Seq<u8>) -> Seq<u8> {
    spec_encode_header(ext_header(flag, s.len() + 1)) + s + seq![0u8] + zero_bytes(
        spec_pad_len(s.len() + 1),
    )
}

/// The header block an entry is stored under: names and link targets
/// longer than their fields are truncated here, and carried whole in the
/// extension member that precedes this block.
pub open spec fn header_of(e: EntryV) -> HeaderV {
    HeaderV {
        name: if e.name.len() <= 100 {
            e.name
        } else {
            e.name.take(100)
        },
        prefix: Seq::empty(),
        mode: e.mode,
        uid: e.uid,
        gid: e.gid,
        size: e.size,
        mtime: e.mtime,
        typeflag: e.entry_type.spec_typeflag(),
        linkname: if e.linkname.len() <= 100 {
            e.linkname
        } else {
            e.linkname.take(100)
        },
        uname: e.uname,
        gname: e.gname,
    }
}

/// Every byte one member contributes to the archive, extension members
/// first.  A name or link target that fits its field adds no extension
/// member: the encoding is minimal.
pub open spec fn spec_entry_blocks(it: ItemV) -> Seq<u8> {
    (if it.entry.name.len() > 100 {
        gnu_ext_blocks(TYPEFLAG_GNU_LONGNAME, it.entry.name)
    } else {
        Seq::empty()
    }) + (if it.entry.linkname.len() > 100 {
        gnu_ext_blocks(TYPEFLAG_GNU_LONGLINK, it.entry.linkname)
    } else {
        Seq::empty()
    }) + spec_encode_header(header_of(it.entry)) + it.data + zero_bytes(
        spec_pad_len(it.data.len()),
    )
}

/// A member whose name and link target fit their header fields is stored
/// minimally: one header block, the payload and its padding, with no
/// extension members in front.
pub proof fn lemma_short_name_minimal(it: ItemV)
    requires
        it.entry.name.len() <= 100,
        it.entry.linkname.len() <= 100,
    ensures
        spec_entry_blocks(it) == spec_encode_header(header_of(it.entry)) + it.data + zero_bytes(
            spec_pad_len(it.data.len()),
        ),
{
    assert(spec_entry_blocks(it) =~= spec_encode_header(header_of(it.entry)) + it.data
        + zero_bytes(spec_pad_len(it.data.len())));
}

/// The members' bytes, in order.
pub open spec fn spec_entries_bytes(items: Seq<ItemV>) -> Seq<u8>
    decreases items.len(),
{
    if items.len() == 0 {
        Seq::empty()
    } else {
        spec_entry_blocks(items[0]) + spec_entries_bytes(items.drop_first())
    }
}

/// The whole archive: the members' bytes and the two-block terminator.
pub open spec fn spec_write_archive(items: Seq<ItemV>) -> Seq<u8> {
    spec_entries_bytes(items) + zero_bytes(1024)
}

/// Appending one member appends its bytes.
#[verifier::rlimit(50)]
pub proof fn lemma_entries_bytes_push(items: Seq<ItemV>, it: ItemV)
    ensures
        spec_entries_bytes(items.push(it)) == spec_entries_bytes(items) + spec_entry_blocks(it),
    decreases items.len(),
{
    if items.len() == 0 {
        assert(items.push(it)[0] == it);
        assert(items.push(it).drop_first() =~= Seq::<ItemV>::empty());
        assert(spec_entry_blocks(it) + spec_entries_bytes(Seq::<ItemV>::empty()) =~= spec_entry_blocks(
            it,
        ));
        assert(spec_entries_bytes(items) + spec_entry_blocks(it) =~= spec_entry_blocks(it));
    } else {
        assert(items.push(it)[0] == items[0]);
        assert(items.push(it).drop_first() =~= items.drop_first().push(it));
        lemma_entries_bytes_push(items.drop_first(), it);
        assert((spec_entry_blocks(items[0]) + spec_entries_bytes(items.drop_first()))
            + spec_entry_blocks(it) =~= spec_entry_blocks(items[0]) + (spec_entries_bytes(
            items.drop_first(),
        ) + spec_entry_blocks(it)));
    }
}

/// Whether one member is well formed, as [`wf_item`] asks.
pub fn check_item(it: &ArchiveItem) -> (r: bool)
    ensures
        r == wf_item(it@),
{
    let e = &it.entry;
    let type_ok = match e.entry_type {
        EntryType::Other(c) => c != 0 && c != 48 && c != 49 && c != 50 && c != 53 && c != 76 && c
            != 120 && c != 75 && c != 103,
        _ => true,
    };
    let link_ok = match e.entry_type {
        EntryType::Symlink => true,
        EntryType::HardLink => true,
        _ => e.linkname.len() == 0,
    };
    let size_ok = match e.entry_type {
        EntryType::RegularFile => true,
        _ => e.size == 0,
    };
    e.name.len() >= 1 && e.name.len() < usize::MAX && e.linkname.len() < usize::MAX
        && check_nul_free(e.name.as_slice()) && check_nul_free(
        e.linkname.as_slice(),
    ) && type_ok && link_ok && size_ok && e.mode < 0o10000 && e.uid < 0o10000000 && e.gid
        < 0o10000000 && e.mtime < 0o100000000000u64 && e.uname.len() <= 31 && check_nul_free(
        e.uname.as_slice(),
    ) && e.gname.len() <= 31 && check_nul_free(e.gname.as_slice()) && it.data.len() as u64
        == e.size
}

/// Appends a GNU long-name or long-link member carrying `s`.
fn push_gnu_ext(out: &mut Vec<u8>, flag: u8, s: &[u8])
    requires
        s@.len() < usize::MAX as nat,
    ensures
        final(out)@ == old(out)@ + gnu_ext_blocks(flag, s@),
{
    let len = s.len();
    let mut name: Vec<u8> = Vec::new();
    name.push(46);
    name.push(47);
    name.push(46);
    name.push(47);
    name.push(64);
    name.push(76);
    name.push(111);
    name.push(110);
    name.push(103);
    name.push(76);
    name.push(105);
    name.push(110);
    name.push(107);
    proof {
        assert(name@ =~= gnu_marker_name());
    }
    let hdr = Header {
        name,
        prefix: Vec::new(),
        mode: 0o644,
        uid: 0,
        gid: 0,
        size: (len as u64) + 1,
        mtime: 0,
        typeflag: flag,
        linkname: Vec::new(),
        uname: Vec::new(),
        gname: Vec::new(),
    };
    proof {
        assert(hdr@ == ext_header(flag, s@.len() + 1));
        assert(header_fits(hdr@));
    }
    let mut block = match encode_header(&hdr) {
        Ok(b) => b,
        Err(_) => {
            proof {
                assert(false);
            }
            Vec::new()
        },
    };
    out.append(&mut block);
    push_bytes(out, s);
    out.push(0);
    let mut pad = zeros(pad_len(len + 1));
    out.append(&mut pad);
    proof {
        assert(out@ =~= old(out)@ + gnu_ext_blocks(flag, s@));
    }
}

/// Appends every byte one well-formed member contributes.
fn push_entry(out: &mut Vec<u8>, it: &ArchiveItem)
    requires
        wf_item(it@),
    ensures
        final(out)@ == old(out)@ + spec_entry_blocks(it@),
{
    if it.entry.name.len() > 100 {
        push_gnu_ext(out, TYPEFLAG_GNU_LONGNAME, it.entry.name.as_slice());
    }
    if it.entry.linkname.len() > 100 {
        push_gnu_ext(out, TYPEFLAG_GNU_LONGLINK, it.entry.linkname.as_slice());
    }
    let name = if it.entry.name.len() <= 100 {
        slice_to_vec(it.entry.name.as_slice())
    } else {
        slice_to_vec(slice_subrange(it.entry.name.as_slice(), 0, 100))
    };
    let linkname = if it.entry.linkname.len() <= 100 {
        slice_to_vec(it.entry.linkname.as_slice())
    } else {
        slice_to_vec(slice_subrange(it.entry.linkname.as_slice(), 0, 100))
    };
    let hdr = Header {
        name,
        prefix: Vec::new(),
        mode: it.entry.mode,
        uid: it.entry.uid,
        gid: it.entry.gid,
        size: it.entry.size,
        mtime: it.entry.mtime,
        typeflag: it.entry.entry_type.typeflag(),
        linkname,
        uname: slice_to_vec(it.entry.uname.as_slice()),
        gname: slice_to_vec(it.entry.gname.as_slice()),
    };
    proof {
        assert(hdr@.name =~= header_of(it@.entry).name);
        assert(hdr@.linkname =~= header_of(it@.entry).linkname);
        assert(hdr@ == header_of(it@.entry));
        assert(header_fits(hdr@));
    }
    let mut block = match encode_header(&hdr) {
        Ok(b) => b,
        Err(_) => {
            proof {
                assert(false);
            }
            Vec::new()
        },
    };
    out.append(&mut block);
    push_bytes(out, it.data.as_slice());
    let mut pad = zeros(pad_len(it.data.len()));
    out.append(&mut pad);
    proof {
        assert(out@ =~= old(out)@ + spec_entry_blocks(it@));
    }
}

/// Serializes one member: every byte it contributes to the archive, so a
/// caller can stream an archive member by member instead of holding it
/// whole.  A member that violates the entry invariants is refused as a
/// format error.
pub fn encode_entry(it: &ArchiveItem) -> (r: Result<Vec<u8>, ArchiveError>)
    ensures
        match r {
            Ok(b) => wf_item(it@) && b@ == spec_entry_blocks(it@),
            Err(e) => e == ArchiveError::Format && !wf_item(it@),
        },
{
    if !check_item(it) {
        return Err(ArchiveError::Format);
    }
    let mut out: Vec<u8> = Vec::new();
    push_entry(&mut out, it);
    proof {
        assert(out@ =~= spec_entry_blocks(it@));
    }
    Ok(out)
}

/// The two zero blocks that end every archive.
pub fn terminator_blocks() -> (r: Vec<u8>)
    ensures
        r@ == zero_bytes(1024),
{
    zeros(1024)
}

/// Serializes an entry stream into a complete archive.
///
/// An empty stream is refused before any byte is produced; a member that
/// violates the entry invariants is refused as a format error.
pub fn write_archive(items: &Vec<ArchiveItem>) -> (r: Result<Vec<u8>, ArchiveError>)
    ensures
        match r {
            Ok(b) => items@.len() > 0 && (forall|i: int|
                0 <= i < items@.len() ==> wf_item(#[trigger] items@[i]@)) && b@
                == spec_write_archive(items_view(items@)),
            Err(e) => (e == ArchiveError::EmptyArchive && items@.len() == 0) || (e
                == ArchiveError::Format && items@.len() > 0 && exists|i: int|
                0 <= i < items@.len() && !wf_item(#[trigger] items@[i]@)),
        },
{
    if items.len() == 0 {
        return Err(ArchiveError::EmptyArchive);
    }
    let n = items.len();
    let mut i: usize = 0;
    while i < n
        invariant
            0 <= i <= n,
            n == items@.len(),
            forall|j: int| 0 <= j < i ==> wf_item(#[trigger] items@[j]@),
        decreases n - i,
    {
        if !check_item(&items[i]) {
            return Err(ArchiveError::Format);
        }
        i = i + 1;
    }
    let mut out: Vec<u8> = Vec::new();
    let mut i: usize = 0;
    proof {
        assert(items_view(items@).take(0) =~= Seq::<ItemV>::empty());
    }
    while i < n
        invariant
            0 <= i <= n,
            n == items@.len(),
            forall|j: int| 0 <= j < n ==> wf_item(#[trigger] items@[j]@),
            out@ == spec_entries_bytes(items_view(items@).take(i as int)),
        decreases n - i,
    {
        push_entry(&mut out, &items[i]);
        proof {
            let v = items_view(items@);
            assert(v.take(i + 1) =~= v.take(i as int).push(v[i as int]));
            lemma_entries_bytes_push(v.take(i as int), v[i as int]);
        }
        i = i + 1;
    }
    let mut term = zeros(1024);
    out.append(&mut term);
    proof {
        assert(items_view(items@).take(n as int) =~= items_view(items@));
    }
    Ok(out)
}

} // verus!
