//! Userspace control-plane client for the WireGuard generic-netlink family.
//!
//! The crate models the netlink attribute wire format, the device
//! configuration protocol (fragmenting a device into size-bounded messages
//! and merging a multi-message dump back into one device), the interface
//! lifecycle (rtnetlink link) messages, and the typed monitor-event decoder.
//! Socket I/O is left to callers; every function here is pure computation
//! over plain values.

use vstd::prelude::*;

pub mod attr;
pub mod codec;
pub mod device;
pub mod endian;
pub mod err;
pub mod event;
pub mod get;
pub mod link;
pub mod interface;
pub mod set;
pub mod sys;

verus! {

/// Alignment unit of the netlink attribute format: attribute records are
/// padded to a multiple of four bytes.
pub const NLA_ALIGNTO: usize = 4;

/// Round a length up to the next multiple of four, as the attribute wire
/// format requires.
pub open spec fn spec_align4(n: int) -> int {
    n + ((4 - n % 4) % 4)
}

/// Number of padding bytes that follow a record of length `n`.
pub open spec fn spec_pad_len(n: int) -> int {
    (4 - n % 4) % 4
}

pub fn align4(n: usize) -> (r: usize)
    requires
        n + 3 <= usize::MAX,
    ensures
        r == spec_align4(n as int),
{
    let rem: usize = n % 4;
    if rem == 0 {
        n
    } else {
        n + (4 - rem)
    }
}

} // verus!
