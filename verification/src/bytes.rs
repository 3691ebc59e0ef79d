//! Big-endian byte order for the 16- and 32-bit unsigned fields of the wire
//! formats: each field is written most significant byte first.

use vstd::prelude::*;

verus! {

/// The two bytes of `x`, most significant first.
pub open spec fn be16(x: u16) -> Seq<u8> {
    seq![(x / 256) as u8, (x % 256) as u8]
}

/// The unsigned 16-bit value spelled by two big-endian bytes.
pub open spec fn u16_of_be(b0: u8, b1: u8) -> u16 {
    (b0 * 256 + b1) as u16
}

/// The four bytes of `x`, most significant first.
pub open spec fn be32(x: u32) -> Seq<u8> {
    be16((x / 0x10000) as u16) + be16((x % 0x10000) as u16)
}

/// The unsigned 32-bit value spelled by four big-endian bytes.
pub open spec fn u32_of_be(b0: u8, b1: u8, b2: u8, b3: u8) -> u32 {
    (u16_of_be(b0, b1) * 0x10000 + u16_of_be(b2, b3)) as u32
}

/// Reading back the two big-endian bytes of a 16-bit value recovers it.
pub proof fn lemma_be16_round_trip(x: u16)
    ensures
        u16_of_be(be16(x)[0], be16(x)[1]) == x,
{
    assert(x == (x / 256) * 256 + x % 256);
}

/// Reading back the four big-endian bytes of a 32-bit value recovers it.
pub proof fn lemma_be32_round_trip(x: u32)
    ensures
        u32_of_be(be32(x)[0], be32(x)[1], be32(x)[2], be32(x)[3]) == x,
{
    let hi = (x / 0x10000) as u16;
    let lo = (x % 0x10000) as u16;
    lemma_be16_round_trip(hi);
    lemma_be16_round_trip(lo);
    assert(be32(x)[0] == be16(hi)[0]);
    assert(be32(x)[1] == be16(hi)[1]);
    assert(be32(x)[2] == be16(lo)[0]);
    assert(be32(x)[3] == be16(lo)[1]);
    assert(x == (x / 0x10000) * 0x10000 + x % 0x10000);
}

/// Writing the 16-bit value spelled by two bytes puts back those bytes.
pub proof fn lemma_u16_be_bytes(b0: u8, b1: u8)
    ensures
        be16(u16_of_be(b0, b1)) == seq![b0, b1],
{
    let x = u16_of_be(b0, b1);
    vstd::arithmetic::div_mod::lemma_fundamental_div_mod_converse_div(
        x as int,
        256,
        b0 as int,
        b1 as int,
    );
    vstd::arithmetic::div_mod::lemma_fundamental_div_mod_converse_mod(
        x as int,
        256,
        b0 as int,
        b1 as int,
    );
    assert(be16(x) =~= seq![b0, b1]);
}

/// Appends the two big-endian bytes of `x`.
pub fn push_u16_be(out: &mut Vec<u8>, x: u16)
    ensures
        final(out)@ == old(out)@ + be16(x),
{
    out.push((x / 256) as u8);
    out.push((x % 256) as u8);
    assert(out@ =~= old(out)@ + be16(x));
}

/// Appends the four big-endian bytes of `x`.
pub fn push_u32_be(out: &mut Vec<u8>, x: u32)
    ensures
        final(out)@ == old(out)@ + be32(x),
{
    push_u16_be(out, (x / 0x10000) as u16);
    push_u16_be(out, (x % 0x10000) as u16);
    assert(out@ =~= old(out)@ + be32(x));
}

/// Reads the big-endian 16-bit field at offset `i`.
pub fn read_u16_be(bytes: &Vec<u8>, i: usize) -> (x: u16)
    requires
        i + 2 <= bytes.len(),
    ensures
        x == u16_of_be(bytes@[i as int], bytes@[i + 1]),
{
    (bytes[i] as u16) * 256 + (bytes[i + 1] as u16)
}

/// Reads the big-endian 32-bit field at offset `i`.
pub fn read_u32_be(bytes: &Vec<u8>, i: usize) -> (x: u32)
    requires
        i + 4 <= bytes.len(),
    ensures
        x == u32_of_be(bytes@[i as int], bytes@[i + 1], bytes@[i + 2], bytes@[i + 3]),
{
    let hi = read_u16_be(bytes, i);
    let lo = read_u16_be(bytes, i + 2);
    (hi as u32) * 0x10000 + (lo as u32)
}

} // verus!
