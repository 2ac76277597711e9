//! Planning the extraction of an entry stream.
//!
//! The engine walks the entries in stream order and decides, for each,
//! what the file system should do: it never touches the file system
//! itself.  Entries whose destination would escape the extraction root
//! are rejected rather than rewritten, and a hard link may only point at
//! a path extracted earlier in the same session.

use crate::bytes::bytes_eq;
use crate::entry::{EntryModel, EntryType};
use crate::errors::ArchiveError;
use vstd::prelude::*;
use vstd::slice::slice_to_vec;

verus! {

/// How extraction is to behave.
#[derive(Clone, Copy, PartialEq, Eq, Structural, Debug)]
pub struct ExtractOptions {
    /// Apply the archived permission bits instead of the process default.
    pub preserve_permissions: bool,
    /// Keep absolute names instead of rejecting them.
    pub absolute_names: bool,
}

/// Whether a component starts at `i`: at the name's start or after a
/// slash.
pub open spec fn comp_start(s: Seq<u8>, i: int) -> bool {
    i == 0 || s[i - 1] == 47
}

/// Whether a component ends at `i`: at the name's end or at a slash.
pub open spec fn comp_end(s: Seq<u8>, i: int) -> bool {
    i == s.len() || s[i] == 47
}

/// Whether the component starting at `i` is exactly `..`.
pub open spec fn dotdot_at(s: Seq<u8>, i: int) -> bool {
    &&& 0 <= i
    &&& i + 2 <= s.len()
    &&& comp_start(s, i)
    &&& comp_end(s, i + 2)
    &&& s[i] == 46
    &&& s[i + 1] == 46
}

/// A name that cannot escape the extraction root: non-empty, relative,
/// and without a `..` component.
pub open spec fn safe_path(s: Seq<u8>) -> bool {
    &&& s.len() > 0
    &&& s[0] != 47
    &&& !(exists|i: int| #[trigger] dotdot_at(s, i))
}

/// Whether a name is safe to extract under the destination root.
pub fn check_safe_path(s: &[u8]) -> (r: bool)
    ensures
        r == safe_path(s@),
{
    let n = s.len();
    if n == 0 {
        return false;
    }
    if s[0] == 47 {
        return false;
    }
    let mut i: usize = 0;
    while n - i >= 2
        invariant
            0 <= i,
            i <= n,
            n == s@.len(),
            forall|j: int| 0 <= j < i ==> !#[trigger] dotdot_at(s@, j),
        decreases n - i,
    {
        let starts = i == 0 || s[i - 1] == 47;
        let ends = i + 2 == n || s[i + 2] == 47;
        if starts && ends && s[i] == 46 && s[i + 1] == 46 {
            proof {
                assert(dotdot_at(s@, i as int));
            }
            return false;
        }
        i = i + 1;
    }
    proof {
        assert forall|j: int| !#[trigger] dotdot_at(s@, j) by {
            if 0 <= j && j + 2 <= n {
                assert(j < i);
            }
        }
    }
    true
}

/// What the file system should do for one entry.  The caller supplies the
/// destination path; the action carries the rest.
#[derive(Clone, Debug)]
pub enum ExtractAction {
    /// Create the directory if absent; apply the mode when given.
    CreateDir { mode: Option<u32> },
    /// Create or truncate the file, stream the payload into it, then
    /// apply the mode when given, and the timestamp.
    WriteFile { mode: Option<u32>, mtime: u64 },
    /// Create a symbolic link pointing at the target.
    MakeSymlink { target: Vec<u8> },
    /// Create a hard link to the already-extracted target path.
    MakeHardLink { target: Vec<u8> },
    /// An exotic entry kind the engine does not materialize; reported,
    /// never silently dropped.
    SkipUnsupported,
}

/// The extraction session: its options and the names extracted so far,
/// which are the only legal hard-link targets.
pub struct Extractor {
    pub opts: ExtractOptions,
    pub seen: Vec<Vec<u8>>,
}

/// The ghost list of names extracted so far.
pub open spec fn seen_names(v: Seq<Vec<u8>>) -> Seq<Seq<u8>> {
    Seq::new(v.len(), |i: int| v[i]@)
}

impl Extractor {
    /// A fresh session: nothing extracted yet.
    pub fn new(opts: ExtractOptions) -> (r: Extractor)
        ensures
            r.opts == opts,
            r.seen@.len() == 0,
    {
        Extractor { opts, seen: Vec::new() }
    }

    /// The mode to apply, when permissions are preserved.
    fn mode_for(&self, mode: u32) -> (r: Option<u32>)
        ensures
            r == (if self.opts.preserve_permissions {
                Some(mode)
            } else {
                None::<u32>
            }),
    {
        if self.opts.preserve_permissions {
            Some(mode)
        } else {
            None
        }
    }

    /// Decides what to do for the next entry of the stream.
    ///
    /// An unsafe name is rejected outright unless absolute names were
    /// asked for; a hard link must point at a name extracted earlier in
    /// this session.  Every materialized entry's name becomes a legal
    /// hard-link target for the entries after it.
    pub fn plan_entry(&mut self, e: &EntryModel) -> (r: Result<ExtractAction, ArchiveError>)
        ensures
            !(old(self).opts.absolute_names || safe_path(e@.name)) ==> r == Err::<
                ExtractAction,
                ArchiveError,
            >(ArchiveError::UnsafePath) && *final(self) == *old(self),
            (old(self).opts.absolute_names || safe_path(e@.name)) ==> {
                &&& final(self).opts == old(self).opts
                &&& match e@.entry_type {
                    EntryType::Directory => r matches Ok(ExtractAction::CreateDir { mode })
                        && mode == (if old(self).opts.preserve_permissions {
                        Some(e.mode)
                    } else {
                        None::<u32>
                    }) && seen_names(final(self).seen@) == seen_names(old(self).seen@).push(
                        e@.name,
                    ),
                    EntryType::RegularFile => r matches Ok(
                        ExtractAction::WriteFile { mode, mtime },
                    ) && mode == (if old(self).opts.preserve_permissions {
                        Some(e.mode)
                    } else {
                        None::<u32>
                    }) && mtime == e.mtime && seen_names(final(self).seen@) == seen_names(
                        old(self).seen@,
                    ).push(e@.name),
                    EntryType::Symlink => r matches Ok(ExtractAction::MakeSymlink { target })
                        && target@ == e@.linkname && seen_names(final(self).seen@) == seen_names(
                        old(self).seen@,
                    ).push(e@.name),
                    EntryType::HardLink => {
                        if seen_names(old(self).seen@).contains(e@.linkname) {
                            r matches Ok(ExtractAction::MakeHardLink { target }) && target@
                                == e@.linkname && seen_names(final(self).seen@) == seen_names(
                                old(self).seen@,
                            ).push(e@.name)
                        } else {
                            r == Err::<ExtractAction, ArchiveError>(ArchiveError::DanglingLink)
                                && *final(self) == *old(self)
                        }
                    },
                    EntryType::Other(_) => r matches Ok(ExtractAction::SkipUnsupported)
                        && *final(self) == *old(self),
                }
            },
    {
        if !self.opts.absolute_names && !check_safe_path(e.name.as_slice()) {
            return Err(ArchiveError::UnsafePath);
        }
        match e.entry_type {
            EntryType::Directory => {
                let mode = self.mode_for(e.mode);
                self.record(&e.name);
                Ok(ExtractAction::CreateDir { mode })
            },
            EntryType::RegularFile => {
                let mode = self.mode_for(e.mode);
                let mtime = e.mtime;
                self.record(&e.name);
                Ok(ExtractAction::WriteFile { mode, mtime })
            },
            EntryType::Symlink => {
                let target = slice_to_vec(e.linkname.as_slice());
                self.record(&e.name);
                Ok(ExtractAction::MakeSymlink { target })
            },
            EntryType::HardLink => {
                if !self.has_seen(e.linkname.as_slice()) {
                    return Err(ArchiveError::DanglingLink);
                }
                let target = slice_to_vec(e.linkname.as_slice());
                self.record(&e.name);
                Ok(ExtractAction::MakeHardLink { target })
            },
            EntryType::Other(_) => Ok(ExtractAction::SkipUnsupported),
        }
    }

    /// Whether a name was extracted earlier in this session.
    fn has_seen(&self, name: &[u8]) -> (r: bool)
        ensures
            r == seen_names(self.seen@).contains(name@),
    {
        let n = self.seen.len();
        let mut i: usize = 0;
        while i < n
            invariant
                0 <= i <= n,
                n == self.seen@.len(),
                forall|j: int| 0 <= j < i ==> seen_names(self.seen@)[j] != name@,
            decreases n - i,
        {
            if bytes_eq(self.seen[i].as_slice(), name) {
                proof {
                    assert(seen_names(self.seen@)[i as int] == name@);
                }
                return true;
            }
            i = i + 1;
        }
        proof {
            if seen_names(self.seen@).contains(name@) {
                let j = choose|j: int|
                    0 <= j < seen_names(self.seen@).len() && seen_names(self.seen@)[j] == name@;
                assert(seen_names(self.seen@)[j] != name@);
            }
        }
        false
    }

    /// Records a materialized name as a legal hard-link target.
    fn record(&mut self, name: &Vec<u8>)
        ensures
            final(self).opts == old(self).opts,
            seen_names(final(self).seen@) == seen_names(old(self).seen@).push(name@),
    {
        let copy = slice_to_vec(name.as_slice());
        self.seen.push(copy);
        proof {
            assert(seen_names(self.seen@) =~= seen_names(old(self).seen@).push(name@));
        }
    }
}

} // verus!
