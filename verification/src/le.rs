//! Four-byte little-endian integers, read and written through `byteorder`.

use byteorder::{ByteOrder, LittleEndian};
use vstd::prelude::*;

verus! {

/// The value of the four bytes at `pos` in `s`, least significant first.
pub open spec fn u32_at(s: Seq<u8>, pos: int) -> nat {
    s[pos] as nat + 256 * (s[pos + 1] as nat) + 65536 * (s[pos + 2] as nat) + 16777216 * (
    s[pos + 3] as nat)
}

/// The four bytes of `n`, least significant first.
pub open spec fn u32_bytes(n: u32) -> Seq<u8> {
    seq![
        (n % 256) as u8,
        ((n / 256) % 256) as u8,
        ((n / 65536) % 256) as u8,
        (n / 16777216) as u8,
    ]
}

/// Reads the first four bytes of `b` with `LittleEndian::read_u32` of
/// `byteorder`; its documentation states that it decodes them least
/// significant byte first, and it panics only on fewer than four bytes,
/// which `requires` leaves out.
#[verifier::external_body]
pub(crate) fn read_u32_le(b: &[u8]) -> (r: u32)
    requires
        4 <= b@.len(),
    ensures
        r as nat == u32_at(b@, 0),
{
    LittleEndian::read_u32(b)
}

/// Writes `n` into four bytes with `LittleEndian::write_u32` of
/// `byteorder`, which its documentation states puts the least significant
/// byte first.
#[verifier::external_body]
pub(crate) fn write_u32_le(n: u32) -> (r: Vec<u8>)
    ensures
        r@ == u32_bytes(n),
{
    let mut buf = vec![0u8; 4];
    LittleEndian::write_u32(&mut buf, n);
    buf
}

/// The bytes written for `n` read back as `n`, whatever surrounds them.
pub proof fn lemma_u32_roundtrip(front: Seq<u8>, n: u32, rest: Seq<u8>)
    ensures
        u32_at(front + u32_bytes(n) + rest, front.len() as int) == n as nat,
{
    let s = front + u32_bytes(n) + rest;
    let p = front.len() as int;
    assert(s[p] == (n % 256) as u8);
    assert(s[p + 1] == ((n / 256) % 256) as u8);
    assert(s[p + 2] == ((n / 65536) % 256) as u8);
    assert(s[p + 3] == (n / 16777216) as u8);
    assert((n % 256) as nat + 256 * ((n / 256) % 256) as nat + 65536 * ((n / 65536) % 256) as nat
        + 16777216 * (n / 16777216) as nat == n as nat) by (nonlinear_arith);
}

} // verus!
