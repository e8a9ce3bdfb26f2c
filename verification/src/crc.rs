//! CRC-16/XMODEM (polynomial 0x1021, initial value 0, no reflection, no final xor),
//! the checksum that protects an SMP packet on a serial line.
use vstd::prelude::*;

verus! {

/// The generator polynomial of CRC-16/XMODEM.
pub const CRC16_POLY: u16 = 0x1021;

/// One shift of the CRC register: shift left by one, folding in the polynomial
/// when the bit shifted out was set.
pub open spec fn crc16_shift(c: u16) -> u16 {
    if c & 0x8000u16 != 0 {
        (c << 1u16) ^ 0x1021u16
    } else {
        c << 1u16
    }
}

/// `n` shifts of the CRC register.
pub open spec fn crc16_shifts(c: u16, n: nat) -> u16
    decreases n,
{
    if n == 0 {
        c
    } else {
        crc16_shifts(crc16_shift(c), (n - 1) as nat)
    }
}

/// The register after feeding one more byte into it.
pub open spec fn crc16_update(c: u16, b: u8) -> u16 {
    crc16_shifts(c ^ ((b as u16) << 8u16), 8)
}

/// CRC-16/XMODEM of a byte sequence: the bytes are fed in order into a register that starts at 0.
pub open spec fn spec_crc16(s: Seq<u8>) -> u16
    decreases s.len(),
{
    if s.len() == 0 {
        0
    } else {
        crc16_update(spec_crc16(s.drop_last()), s.last())
    }
}

/// The checksum of nothing is 0, and appending a byte to any sequence, of any length, feeds that
/// byte into the register holding the checksum of the sequence.
pub proof fn lemma_crc16_append(s: Seq<u8>, b: u8)
    ensures
        spec_crc16(Seq::<u8>::empty()) == 0,
        spec_crc16(s.push(b)) == crc16_update(spec_crc16(s), b),
{
    assert(s.push(b).drop_last() =~= s);
}

proof fn lemma_shifts_small(x: u16)
    requires
        x < 256,
    ensures
        crc16_shifts(x, 8) == x << 8u16,
{
    reveal_with_fuel(crc16_shifts, 9);
    assert(x < 256 ==> crc16_shift(x) == x << 1u16) by (bit_vector);
    assert(x < 256 ==> crc16_shift(x << 1u16) == x << 2u16) by (bit_vector);
    assert(x < 256 ==> crc16_shift(x << 2u16) == x << 3u16) by (bit_vector);
    assert(x < 256 ==> crc16_shift(x << 3u16) == x << 4u16) by (bit_vector);
    assert(x < 256 ==> crc16_shift(x << 4u16) == x << 5u16) by (bit_vector);
    assert(x < 256 ==> crc16_shift(x << 5u16) == x << 6u16) by (bit_vector);
    assert(x < 256 ==> crc16_shift(x << 6u16) == x << 7u16) by (bit_vector);
    assert(x < 256 ==> crc16_shift(x << 7u16) == x << 8u16) by (bit_vector);
}

/// Appending the checksum of any sequence to it, high byte first, gives a sequence whose
/// checksum is 0 (the CRC residue that lets a receiver check a packet).
pub proof fn lemma_crc16_residue(s: Seq<u8>)
    ensures
        spec_crc16(s.push((spec_crc16(s) >> 8u16) as u8).push((spec_crc16(s) & 0xffu16) as u8))
            == 0,
{
    let c = spec_crc16(s);
    let hi = (c >> 8u16) as u8;
    let lo = (c & 0xffu16) as u8;
    lemma_crc16_append(s, hi);
    lemma_crc16_append(s.push(hi), lo);
    assert(c ^ ((hi as u16) << 8u16) == lo as u16) by (bit_vector)
        requires
            hi == (c >> 8u16) as u8,
            lo == (c & 0xffu16) as u8,
    ;
    lemma_shifts_small(lo as u16);
    let c1 = crc16_update(c, hi);
    assert(c1 == (lo as u16) << 8u16);
    assert(c1 ^ ((lo as u16) << 8u16) == 0u16) by (bit_vector)
        requires
            c1 == (lo as u16) << 8u16,
    ;
    lemma_zero_shifts(8);
}

proof fn lemma_zero_shifts(n: nat)
    ensures
        crc16_shifts(0, n) == 0,
    decreases n,
{
    assert(crc16_shift(0) == 0) by (bit_vector);
    if n > 0 {
        lemma_zero_shifts((n - 1) as nat);
    }
}

fn crc16_shift_exec(c: u16) -> (r: u16)
    ensures
        r == crc16_shift(c),
{
    if c & 0x8000u16 != 0 {
        (c << 1u16) ^ CRC16_POLY
    } else {
        c << 1u16
    }
}

/// Computes the CRC-16/XMODEM of `data`.
pub fn crc16(data: &[u8]) -> (r: u16)
    ensures
        r == spec_crc16(data@),
{
    let mut crc: u16 = 0;
    let mut i: usize = 0;
    while i < data.len()
        invariant
            i <= data@.len(),
            crc == spec_crc16(data@.take(i as int)),
        decreases data@.len() - i,
    {
        let b = data[i];
        let mut c: u16 = crc ^ ((b as u16) << 8u16);
        let ghost start = c;
        let mut k: u32 = 0;
        while k < 8
            invariant
                k <= 8,
                crc16_shifts(c, (8 - k) as nat) == crc16_shifts(start, 8),
            decreases 8 - k,
        {
            c = crc16_shift_exec(c);
            k = k + 1;
        }
        assert(data@.take(i + 1).drop_last() =~= data@.take(i as int));
        crc = c;
        i = i + 1;
    }
    assert(data@.take(data@.len() as int) =~= data@);
    crc
}

} // verus!
