//! Platform constants read from the C library bindings.

use vstd::prelude::*;

verus! {

/// Relies on libc::AF_INET: the IPv4 address family is 2 on Linux.
#[verifier::external_body]
pub fn af_inet() -> (r: u16)
    ensures
        r == 2,
{
    libc::AF_INET as u16
}

/// Relies on libc::AF_INET6: the IPv6 address family is 10 on Linux.
#[verifier::external_body]
pub fn af_inet6() -> (r: u16)
    ensures
        r == 10,
{
    libc::AF_INET6 as u16
}

/// Relies on libc::IFNAMSIZ: interface names, terminator included, fit in
/// 16 bytes on Linux.
#[verifier::external_body]
pub fn ifnamsiz() -> (r: usize)
    ensures
        r == 16,
{
    libc::IFNAMSIZ
}

} // verus!
