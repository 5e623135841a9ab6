//! Integers as bytes, most significant byte first or last.

use vstd::prelude::*;

verus! {

/// A 32-bit two's complement number as the unsigned number with the same bits.
pub open spec fn unsigned32(v: i32) -> u32 {
    if v >= 0 {
        v as u32
    } else {
        (v + 0x1_0000_0000) as u32
    }
}

/// The two bytes of `n`, most significant first.
pub open spec fn be_u16(n: u16) -> Seq<u8> {
    seq![(n / 0x100) as u8, (n % 0x100) as u8]
}

/// The four bytes of `n`, most significant first.
pub open spec fn be_u32(n: u32) -> Seq<u8> {
    seq![
        (n / 0x100_0000) as u8,
        ((n / 0x1_0000) % 0x100) as u8,
        ((n / 0x100) % 0x100) as u8,
        (n % 0x100) as u8,
    ]
}

/// The four bytes of `n`, least significant first.
pub open spec fn le_u32(n: u32) -> Seq<u8> {
    seq![
        (n % 0x100) as u8,
        ((n / 0x100) % 0x100) as u8,
        ((n / 0x1_0000) % 0x100) as u8,
        (n / 0x100_0000) as u8,
    ]
}

/// The number that four bytes stand for, most significant byte first.
pub open spec fn from_be_u32(b: Seq<u8>) -> nat {
    (b[0] as nat) * 0x100_0000 + (b[1] as nat) * 0x1_0000 + (b[2] as nat) * 0x100 + (b[3] as nat)
}

/// Reading back the bytes of a number gives the number.
pub proof fn lemma_be_u32_round_trip(n: u32)
    ensures
        from_be_u32(be_u32(n)) == n,
        from_be_u32(le_u32(n).reverse()) == n,
{
    let r = le_u32(n).reverse();
    assert(r[0] == le_u32(n)[3]);
    assert(r[1] == le_u32(n)[2]);
    assert(r[2] == le_u32(n)[1]);
    assert(r[3] == le_u32(n)[0]);
}

/// A 32-bit two's complement number as the unsigned number with the same bits.
pub fn to_unsigned32(v: i32) -> (r: u32)
    ensures
        r == unsigned32(v),
{
    if v >= 0 {
        v as u32
    } else {
        (v as i64 + 0x1_0000_0000) as u32
    }
}

/// Appends the two bytes of `n`, most significant first.
pub fn push_be_u16(bytes: &mut Vec<u8>, n: u16)
    ensures
        final(bytes)@ == old(bytes)@ + be_u16(n),
{
    bytes.push((n / 0x100) as u8);
    bytes.push((n % 0x100) as u8);
    assert(bytes@ =~= old(bytes)@ + be_u16(n));
}

/// Appends the four bytes of `n`, most significant first.
pub fn push_be_u32(bytes: &mut Vec<u8>, n: u32)
    ensures
        final(bytes)@ == old(bytes)@ + be_u32(n),
{
    bytes.push((n / 0x100_0000) as u8);
    bytes.push(((n / 0x1_0000) % 0x100) as u8);
    bytes.push(((n / 0x100) % 0x100) as u8);
    bytes.push((n % 0x100) as u8);
    assert(bytes@ =~= old(bytes)@ + be_u32(n));
}

/// Appends the four bytes of `n`, least significant first.
pub fn push_le_u32(bytes: &mut Vec<u8>, n: u32)
    ensures
        final(bytes)@ == old(bytes)@ + le_u32(n),
{
    bytes.push((n % 0x100) as u8);
    bytes.push(((n / 0x100) % 0x100) as u8);
    bytes.push(((n / 0x1_0000) % 0x100) as u8);
    bytes.push((n / 0x100_0000) as u8);
    assert(bytes@ =~= old(bytes)@ + le_u32(n));
}

} // verus!
