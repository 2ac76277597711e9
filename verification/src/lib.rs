//! A verified codec for the POSIX ustar tar archive format.
//!
//! The library converts in-memory archive members into the 512-byte-block
//! wire format and back, validates header checksums, handles long names
//! through GNU and PAX extension records, orders directory listings
//! deterministically, and plans safe extraction of an entry stream.
//! All file-system and command-line work lives outside the library.

use vstd::prelude::*;

pub mod bytes;
pub mod entry;
pub mod errors;
pub mod extract;
pub mod field;
pub mod header;
pub mod pax;
pub mod reader;
pub mod roundtrip;
pub mod walk;
pub mod writer;

verus! {

/// Number of zero bytes needed to pad a payload of length `n` up to the
/// next block boundary.
pub open spec fn spec_pad_len(n: nat) -> nat {
    (((512 - n % 512) % 512) as nat)
}

/// Padding that follows a payload of `n` bytes on the wire.
pub fn pad_len(n: usize) -> (r: usize)
    ensures
        r == spec_pad_len(n as nat),
        r < 512,
        (n + r) % 512 == 0,
{
    let r = (512 - n % 512) % 512;
    proof {
        assert((n as int + ((512 - n as int % 512) % 512)) % 512 == 0) by (nonlinear_arith);
    }
    r
}

} // verus!
