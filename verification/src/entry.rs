//! The in-memory representation of one archive member.

use crate::bytes::nul_free;
use vstd::prelude::*;

verus! {

/// The kind of one archive member, a closed set of variants so that every
/// consumer handles each kind explicitly.  Exotic ustar type flags are kept
/// as [`EntryType::Other`] rather than silently remapped.
#[derive(Clone, Copy, PartialEq, Eq, Debug, Structural)]
pub enum EntryType {
    RegularFile,
    Directory,
    Symlink,
    HardLink,
    Other(u8),
}

/// ustar type flag bytes with a fixed meaning.
pub const TYPEFLAG_REGULAR: u8 = 48;

pub const TYPEFLAG_HARDLINK: u8 = 49;

pub const TYPEFLAG_SYMLINK: u8 = 50;

pub const TYPEFLAG_DIRECTORY: u8 = 53;

/// GNU long-name extension block.
pub const TYPEFLAG_GNU_LONGNAME: u8 = 76;

/// GNU long-link extension block.
pub const TYPEFLAG_GNU_LONGLINK: u8 = 75;

/// PAX extended header attached to the next entry.
pub const TYPEFLAG_PAX: u8 = 120;

/// PAX global extended header.
pub const TYPEFLAG_PAX_GLOBAL: u8 = 103;

impl EntryType {
    /// The wire type flag for this kind.
    pub open spec fn spec_typeflag(self) -> u8 {
        match self {
            EntryType::RegularFile => TYPEFLAG_REGULAR,
            EntryType::HardLink => TYPEFLAG_HARDLINK,
            EntryType::Symlink => TYPEFLAG_SYMLINK,
            EntryType::Directory => TYPEFLAG_DIRECTORY,
            EntryType::Other(c) => c,
        }
    }

    pub fn typeflag(self) -> (r: u8)
        ensures
            r == self.spec_typeflag(),
    {
        match self {
            EntryType::RegularFile => TYPEFLAG_REGULAR,
            EntryType::HardLink => TYPEFLAG_HARDLINK,
            EntryType::Symlink => TYPEFLAG_SYMLINK,
            EntryType::Directory => TYPEFLAG_DIRECTORY,
            EntryType::Other(c) => c,
        }
    }

    /// The kind a wire type flag stands for.  An all-NUL flag is the
    /// historical spelling of a regular file.
    pub open spec fn spec_from_typeflag(b: u8) -> EntryType {
        if b == TYPEFLAG_REGULAR || b == 0 {
            EntryType::RegularFile
        } else if b == TYPEFLAG_HARDLINK {
            EntryType::HardLink
        } else if b == TYPEFLAG_SYMLINK {
            EntryType::Symlink
        } else if b == TYPEFLAG_DIRECTORY {
            EntryType::Directory
        } else {
            EntryType::Other(b)
        }
    }

    pub fn from_typeflag(b: u8) -> (r: EntryType)
        ensures
            r == EntryType::spec_from_typeflag(b),
    {
        if b == TYPEFLAG_REGULAR || b == 0 {
            EntryType::RegularFile
        } else if b == TYPEFLAG_HARDLINK {
            EntryType::HardLink
        } else if b == TYPEFLAG_SYMLINK {
            EntryType::Symlink
        } else if b == TYPEFLAG_DIRECTORY {
            EntryType::Directory
        } else {
            EntryType::Other(b)
        }
    }

    /// Whether this kind survives the trip through its own type flag.
    /// Only an `Other` that shadows a reserved flag does not.
    pub open spec fn flag_faithful(self) -> bool {
        match self {
            EntryType::Other(c) => c != 0 && c != TYPEFLAG_REGULAR && c != TYPEFLAG_HARDLINK && c
                != TYPEFLAG_SYMLINK && c != TYPEFLAG_DIRECTORY && c != TYPEFLAG_GNU_LONGNAME && c
                != TYPEFLAG_PAX && c != TYPEFLAG_GNU_LONGLINK && c != TYPEFLAG_PAX_GLOBAL,
            _ => true,
        }
    }

    /// A faithful kind decodes back from its own flag.
    pub proof fn lemma_typeflag_roundtrip(self)
        requires
            self.flag_faithful(),
        ensures
            EntryType::spec_from_typeflag(self.spec_typeflag()) == self,
    {
    }
}

/// The ghost value of one archive member.
pub struct EntryV {
    pub name: Seq<u8>,
    pub entry_type: EntryType,
    pub linkname: Seq<u8>,
    pub size: nat,
    pub mode: nat,
    pub uid: nat,
    pub gid: nat,
    pub mtime: nat,
    pub uname: Seq<u8>,
    pub gname: Seq<u8>,
}

/// One archive member: an archive-relative, slash-separated name, the
/// member's kind and metadata.  Payload bytes travel beside it, never
/// inside it.
#[derive(Clone, Debug)]
pub struct EntryModel {
    /// Archive-relative path, forward-slash separated.
    pub name: Vec<u8>,
    pub entry_type: EntryType,
    /// Link target; empty unless the kind is a symlink or hard link.
    pub linkname: Vec<u8>,
    /// Payload length in bytes; zero for non-regular kinds.
    pub size: u64,
    /// POSIX permission bits, including setuid, setgid and sticky.
    pub mode: u32,
    pub uid: u32,
    pub gid: u32,
    /// Seconds since the epoch.
    pub mtime: u64,
    pub uname: Vec<u8>,
    pub gname: Vec<u8>,
}

impl View for EntryModel {
    type V = EntryV;

    open spec fn view(&self) -> EntryV {
        EntryV {
            name: self.name@,
            entry_type: self.entry_type,
            linkname: self.linkname@,
            size: self.size as nat,
            mode: self.mode as nat,
            uid: self.uid as nat,
            gid: self.gid as nat,
            mtime: self.mtime as nat,
            uname: self.uname@,
            gname: self.gname@,
        }
    }
}

/// A well-formed archive member: the invariants every entry handed to the
/// writer satisfies and every entry the reader produces from a well-formed
/// stream satisfies.
pub open spec fn wf_entry(e: EntryV) -> bool {
    &&& e.name.len() >= 1
    &&& e.name.len() < usize::MAX as nat
    &&& e.linkname.len() < usize::MAX as nat
    &&& nul_free(e.name)
    &&& nul_free(e.linkname)
    &&& e.entry_type.flag_faithful()
    &&& (e.entry_type matches EntryType::Symlink || e.entry_type matches EntryType::HardLink
        || e.linkname.len() == 0)
    &&& (e.entry_type matches EntryType::RegularFile || e.size == 0)
    &&& e.size < 0x10000000000000000
    &&& e.mode < 0o10000
    &&& e.uid < 0o10000000
    &&& e.gid < 0o10000000
    &&& e.mtime < 0o100000000000
    &&& e.uname.len() <= 31
    &&& nul_free(e.uname)
    &&& e.gname.len() <= 31
    &&& nul_free(e.gname)
}

/// One archive member together with its payload bytes.
#[derive(Clone, Debug)]
pub struct ArchiveItem {
    pub entry: EntryModel,
    pub data: Vec<u8>,
    /// PAX keys other than the path and link-path overrides, carried
    /// through unread so that nothing is dropped silently.
    pub pax_extras: Vec<(Vec<u8>, Vec<u8>)>,
}

/// The ghost value of one member with payload.
pub struct ItemV {
    pub entry: EntryV,
    pub data: Seq<u8>,
    pub extras: Seq<(Seq<u8>, Seq<u8>)>,
}

impl View for ArchiveItem {
    type V = ItemV;

    open spec fn view(&self) -> ItemV {
        ItemV {
            entry: self.entry@,
            data: self.data@,
            extras: crate::pax::pairs_view(self.pax_extras@),
        }
    }
}

/// A well-formed member-with-payload: the payload length is the length
/// the entry declares.
pub open spec fn wf_item(it: ItemV) -> bool {
    &&& wf_entry(it.entry)
    &&& it.data.len() == it.entry.size
}

/// The ghost entry stream a vector of members stands for.
pub open spec fn items_view(s: Seq<ArchiveItem>) -> Seq<ItemV> {
    Seq::new(s.len(), |i: int| s[i]@)
}

} // verus!
