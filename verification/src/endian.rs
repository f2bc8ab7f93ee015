//! Fixed-width integers as byte sequences.
//!
//! The attribute protocol stores its length and type fields, and most scalar
//! payloads, in the host byte order; socket-address payloads store the port
//! in network byte order (big-endian).  The Linux targets this crate models
//! are little-endian, so host order is fixed to little-endian here; a
//! big-endian host would lay these fields out the other way around.

use vstd::prelude::*;

verus! {

/// Little-endian bytes of a 16-bit value.
pub open spec fn spec_u16_le(x: u16) -> Seq<u8> {
    seq![(x % 256) as u8, (x / 256) as u8]
}

/// Big-endian bytes of a 16-bit value.
pub open spec fn spec_u16_be(x: u16) -> Seq<u8> {
    seq![(x / 256) as u8, (x % 256) as u8]
}

/// Little-endian bytes of a 32-bit value.
pub open spec fn spec_u32_le(x: u32) -> Seq<u8> {
    seq![
        (x % 256) as u8,
        ((x / 256) % 256) as u8,
        ((x / 0x10000) % 256) as u8,
        (x / 0x1000000) as u8,
    ]
}

/// The 16-bit value whose little-endian bytes are `b0, b1`.
pub open spec fn spec_u16_of_le(b0: u8, b1: u8) -> u16 {
    (b0 + 256 * b1) as u16
}

/// The 16-bit value whose big-endian bytes are `b0, b1`.
pub open spec fn spec_u16_of_be(b0: u8, b1: u8) -> u16 {
    (256 * b0 + b1) as u16
}

/// The 32-bit value whose little-endian bytes are `b0 .. b3`.
pub open spec fn spec_u32_of_le(b0: u8, b1: u8, b2: u8, b3: u8) -> u32 {
    (b0 + 256 * b1 + 0x10000 * b2 + 0x1000000 * b3) as u32
}

pub fn u16_to_le(x: u16) -> (r: (u8, u8))
    ensures
        seq![r.0, r.1] == spec_u16_le(x),
        spec_u16_of_le(r.0, r.1) == x,
{
    let lo: u8 = (x % 256) as u8;
    let hi: u8 = (x / 256) as u8;
    proof {
        assert(lo + 256 * hi == x) by {
            vstd::arithmetic::div_mod::lemma_fundamental_div_mod(x as int, 256);
        }
    }
    (lo, hi)
}

pub fn u16_to_be(x: u16) -> (r: (u8, u8))
    ensures
        seq![r.0, r.1] == spec_u16_be(x),
        spec_u16_of_be(r.0, r.1) == x,
{
    let hi: u8 = (x / 256) as u8;
    let lo: u8 = (x % 256) as u8;
    proof {
        assert(256 * hi + lo == x) by {
            vstd::arithmetic::div_mod::lemma_fundamental_div_mod(x as int, 256);
        }
    }
    (hi, lo)
}

pub fn u16_from_le(b0: u8, b1: u8) -> (r: u16)
    ensures
        r == spec_u16_of_le(b0, b1),
{
    b0 as u16 + 256 * (b1 as u16)
}

pub fn u16_from_be(b0: u8, b1: u8) -> (r: u16)
    ensures
        r == spec_u16_of_be(b0, b1),
{
    256 * (b0 as u16) + b1 as u16
}

pub fn u32_to_le(x: u32) -> (r: (u8, u8, u8, u8))
    ensures
        seq![r.0, r.1, r.2, r.3] == spec_u32_le(x),
        spec_u32_of_le(r.0, r.1, r.2, r.3) == x,
{
    let b0: u8 = (x % 256) as u8;
    let b1: u8 = ((x / 256) % 256) as u8;
    let b2: u8 = ((x / 0x10000) % 256) as u8;
    let b3: u8 = (x / 0x1000000) as u8;
    proof {
        assert(b0 + 256 * b1 + 0x10000 * b2 + 0x1000000 * b3 == x) by (nonlinear_arith)
            requires
                b0 == x % 256 && b1 == (x / 256) % 256 && b2 == (x / 0x10000) % 256 && b3 == x
                    / 0x1000000,
        ;
    }
    (b0, b1, b2, b3)
}

pub fn u32_from_le(b0: u8, b1: u8, b2: u8, b3: u8) -> (r: u32)
    ensures
        r == spec_u32_of_le(b0, b1, b2, b3),
{
    b0 as u32 + 256 * (b1 as u32) + 0x10000 * (b2 as u32) + 0x1000000 * (b3 as u32)
}

/// Round-trip of the 16-bit little-endian encoding: the two byte reads
/// reassemble the encoded value.
pub proof fn lemma_u16_le_round_trip(x: u16)
    ensures
        spec_u16_of_le(spec_u16_le(x)[0], spec_u16_le(x)[1]) == x,
{
    vstd::arithmetic::div_mod::lemma_fundamental_div_mod(x as int, 256);
}

/// Round-trip of the 16-bit big-endian encoding.
pub proof fn lemma_u16_be_round_trip(x: u16)
    ensures
        spec_u16_of_be(spec_u16_be(x)[0], spec_u16_be(x)[1]) == x,
{
    vstd::arithmetic::div_mod::lemma_fundamental_div_mod(x as int, 256);
}

/// Round-trip of the 32-bit little-endian encoding.
pub proof fn lemma_u32_le_round_trip(x: u32)
    ensures
        spec_u32_of_le(
            spec_u32_le(x)[0],
            spec_u32_le(x)[1],
            spec_u32_le(x)[2],
            spec_u32_le(x)[3],
        ) == x,
{
    assert((x % 256) + 256 * ((x / 256) % 256) + 0x10000 * ((x / 0x10000) % 256) + 0x1000000 * (x
        / 0x1000000) == x) by (nonlinear_arith);
}

} // verus!
