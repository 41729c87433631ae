//! The CRC-32 variant used to protect pages.
//!
//! The polynomial is 0x04C11DB7, there is no input or output reflection,
//! the initial value is 0 and there is no final inversion.  This differs
//! from the common reflected CRC-32 and must match bit for bit for
//! interoperability with other readers and writers of the format.

use vstd::prelude::*;

verus! {

/// The generator polynomial of the checksum.
pub const CRC_POLYNOMIAL: u32 = 0x04C11DB7;

/// One shift step of the checksum register: shift left by one bit and,
/// if a one bit fell out, fold the polynomial back in.
pub open spec fn crc_shift(c: u32) -> u32 {
    if c & 0x8000_0000u32 != 0 {
        (c << 1) ^ CRC_POLYNOMIAL
    } else {
        c << 1
    }
}

/// `n` shift steps of the checksum register.
pub open spec fn crc_shift_n(c: u32, n: nat) -> u32
    decreases n,
{
    if n == 0 {
        c
    } else {
        crc_shift(crc_shift_n(c, (n - 1) as nat))
    }
}

/// Feed one byte into the checksum register.
pub open spec fn crc_update(c: u32, b: u8) -> u32 {
    crc_shift_n(c ^ ((b as u32) << 24), 8)
}

/// Feed a whole byte sequence into the checksum register, front to back.
pub open spec fn crc_accumulate(c: u32, s: Seq<u8>) -> u32
    decreases s.len(),
{
    if s.len() == 0 {
        c
    } else {
        crc_accumulate(crc_update(c, s[0]), s.skip(1))
    }
}

/// The checksum of a byte sequence, starting from the initial value 0.
pub open spec fn crc_of(s: Seq<u8>) -> u32 {
    crc_accumulate(0, s)
}

/// Feeding `s` and then one more byte `b` is the same as feeding
/// `s.push(b)` in one go.
pub proof fn lemma_crc_accumulate_push(c: u32, s: Seq<u8>, b: u8)
    ensures
        crc_accumulate(c, s.push(b)) == crc_update(crc_accumulate(c, s), b),
    decreases s.len(),
{
    if s.len() == 0 {
        assert(s.push(b).skip(1) =~= Seq::<u8>::empty());
        assert(s.push(b)[0] == b);
        assert(crc_accumulate(crc_update(c, b), Seq::<u8>::empty()) == crc_update(c, b));
        assert(crc_accumulate(c, s) == c);
    } else {
        assert(s.push(b).skip(1) =~= s.skip(1).push(b));
        assert(s.push(b)[0] == s[0]);
        lemma_crc_accumulate_push(crc_update(c, s[0]), s.skip(1), b);
        assert(crc_accumulate(c, s.push(b)) == crc_accumulate(
            crc_update(c, s[0]),
            s.skip(1).push(b),
        ));
        assert(crc_accumulate(c, s) == crc_accumulate(crc_update(c, s[0]), s.skip(1)));
    }
}

/// One executable shift step of the checksum register.
fn crc_shift_exec(c: u32) -> (r: u32)
    ensures
        r == crc_shift(c),
{
    if c & 0x8000_0000u32 != 0 {
        (c << 1u32) ^ CRC_POLYNOMIAL
    } else {
        c << 1u32
    }
}

/// Feed one byte into the checksum register.
pub fn crc_update_exec(c: u32, b: u8) -> (r: u32)
    ensures
        r == crc_update(c, b),
{
    let mut acc: u32 = c ^ ((b as u32) << 24u32);
    let ghost start: u32 = acc;
    let mut i: usize = 0;
    while i < 8
        invariant
            i <= 8,
            acc == crc_shift_n(start, i as nat),
        decreases 8 - i,
    {
        acc = crc_shift_exec(acc);
        i = i + 1;
    }
    acc
}

/// The checksum of a byte slice, starting from the initial value 0.
pub fn crc_of_bytes(s: &[u8]) -> (r: u32)
    ensures
        r == crc_of(s@),
{
    let mut acc: u32 = 0;
    let mut i: usize = 0;
    while i < s.len()
        invariant
            i <= s@.len(),
            acc == crc_accumulate(0, s@.take(i as int)),
        decreases s@.len() - i,
    {
        proof {
            assert(s@.take(i as int + 1) =~= s@.take(i as int).push(s@[i as int]));
            lemma_crc_accumulate_push(0, s@.take(i as int), s@[i as int]);
        }
        acc = crc_update_exec(acc, s[i]);
        i = i + 1;
    }
    proof {
        assert(s@.take(s@.len() as int) =~= s@);
    }
    acc
}

} // verus!
