//! The checksum engine: CRC-16/XMODEM (polynomial 0x1021, initial value 0,
//! MSB first, no reflection, no final XOR) over a byte sequence.

use vstd::prelude::*;

verus! {

/// One shift step of the CRC register: shift left, folding in the polynomial
/// when the top bit was set.
pub open spec fn crc_shift(c: u16) -> u16 {
    if c >= 0x8000 {
        (c << 1) ^ 0x1021
    } else {
        c << 1
    }
}

/// `n` shift steps of the CRC register.
pub open spec fn crc_shift_n(c: u16, n: nat) -> u16
    decreases n,
{
    if n == 0 {
        c
    } else {
        crc_shift(crc_shift_n(c, (n - 1) as nat))
    }
}

/// Folding one input byte into the CRC register: XOR into the high byte, then
/// eight shift steps.
pub open spec fn crc_step(c: u16, b: u8) -> u16 {
    crc_shift_n(c ^ ((b as u16) << 8), 8)
}

/// The CRC-16/XMODEM value of a byte sequence, consumed left to right from
/// initial register value 0.
pub open spec fn crc16(s: Seq<u8>) -> u16
    decreases s.len(),
{
    if s.len() == 0 {
        0
    } else {
        crc_step(crc16(s.drop_last()), s.last())
    }
}

/// The pointwise XOR of two equal-length byte sequences.
spec fn seq_xor(a: Seq<u8>, b: Seq<u8>) -> Seq<u8> {
    Seq::new(a.len(), |i: int| a[i] ^ b[i])
}

proof fn lemma_crc_shift_linear(a: u16, b: u16)
    ensures
        crc_shift(a ^ b) == crc_shift(a) ^ crc_shift(b),
{
    assert((if (a ^ b) >= 0x8000 {
        ((a ^ b) << 1) ^ 0x1021
    } else {
        (a ^ b) << 1
    }) == (if a >= 0x8000 {
        (a << 1) ^ 0x1021
    } else {
        a << 1
    }) ^ (if b >= 0x8000 {
        (b << 1) ^ 0x1021
    } else {
        b << 1
    })) by (bit_vector);
}

proof fn lemma_crc_shift_nonzero(a: u16)
    requires
        a != 0,
    ensures
        crc_shift(a) != 0,
{
    assert(a != 0 ==> (if a >= 0x8000 {
        (a << 1) ^ 0x1021
    } else {
        a << 1
    }) != 0) by (bit_vector);
}

proof fn lemma_crc_shift_n_linear(a: u16, b: u16, n: nat)
    ensures
        crc_shift_n(a ^ b, n) == crc_shift_n(a, n) ^ crc_shift_n(b, n),
    decreases n,
{
    if n > 0 {
        lemma_crc_shift_n_linear(a, b, (n - 1) as nat);
        lemma_crc_shift_linear(crc_shift_n(a, (n - 1) as nat), crc_shift_n(b, (n - 1) as nat));
    }
}

proof fn lemma_crc_shift_n_nonzero(a: u16, n: nat)
    requires
        a != 0,
    ensures
        crc_shift_n(a, n) != 0,
    decreases n,
{
    if n > 0 {
        lemma_crc_shift_n_nonzero(a, (n - 1) as nat);
        lemma_crc_shift_nonzero(crc_shift_n(a, (n - 1) as nat));
    }
}

proof fn lemma_crc_step_linear(a: u16, b: u16, x: u8, y: u8)
    ensures
        crc_step(a ^ b, x ^ y) == crc_step(a, x) ^ crc_step(b, y),
{
    assert(((a ^ b) ^ (((x ^ y) as u16) << 8)) == ((a ^ ((x as u16) << 8)) ^ (b ^ ((y as u16)
        << 8)))) by (bit_vector);
    lemma_crc_shift_n_linear(a ^ ((x as u16) << 8), b ^ ((y as u16) << 8), 8);
}

proof fn lemma_crc16_linear(a: Seq<u8>, b: Seq<u8>)
    requires
        a.len() == b.len(),
    ensures
        crc16(seq_xor(a, b)) == crc16(a) ^ crc16(b),
    decreases a.len(),
{
    if a.len() == 0 {
        assert(0u16 ^ 0u16 == 0u16) by (bit_vector);
    } else {
        lemma_crc16_linear(a.drop_last(), b.drop_last());
        assert(seq_xor(a, b).drop_last() =~= seq_xor(a.drop_last(), b.drop_last()));
        assert(seq_xor(a, b).last() == a.last() ^ b.last());
        lemma_crc_step_linear(crc16(a.drop_last()), crc16(b.drop_last()), a.last(), b.last());
    }
}

proof fn lemma_crc16_all_zero(s: Seq<u8>)
    requires
        forall|j: int| 0 <= j < s.len() ==> s[j] == 0,
    ensures
        crc16(s) == 0,
    decreases s.len(),
{
    if s.len() > 0 {
        lemma_crc16_all_zero(s.drop_last());
        assert(0u16 ^ ((0u8 as u16) << 8) == 0u16) by (bit_vector);
        assert(crc_shift(0u16) == 0u16) by (bit_vector);
        lemma_crc_shift_n_zero(8);
    }
}

proof fn lemma_crc_shift_n_zero(n: nat)
    ensures
        crc_shift_n(0, n) == 0,
    decreases n,
{
    if n > 0 {
        lemma_crc_shift_n_zero((n - 1) as nat);
        assert(crc_shift(0u16) == 0u16) by (bit_vector);
    }
}

proof fn lemma_crc16_single_nonzero(s: Seq<u8>, i: int)
    requires
        0 <= i < s.len(),
        s[i] != 0,
        forall|j: int| 0 <= j < s.len() && j != i ==> s[j] == 0,
    ensures
        crc16(s) != 0,
    decreases s.len(),
{
    if i == s.len() - 1 {
        lemma_crc16_all_zero(s.drop_last());
        let x = s.last();
        assert(x != 0 ==> (0u16 ^ ((x as u16) << 8)) != 0) by (bit_vector);
        lemma_crc_shift_n_nonzero(0u16 ^ ((x as u16) << 8), 8);
    } else {
        lemma_crc16_single_nonzero(s.drop_last(), i);
        let c = crc16(s.drop_last());
        assert(c != 0 ==> (c ^ ((0u8 as u16) << 8)) != 0) by (bit_vector);
        lemma_crc_shift_n_nonzero(c ^ ((s.last() as u16) << 8), 8);
    }
}

/// A degree-16 generator with more than one term detects every single-bit
/// error: flipping any one bit of the input always changes the CRC.
pub proof fn lemma_crc16_detects_bit_flip(b1: Seq<u8>, b2: Seq<u8>, i: int, k: u8)
    requires
        b1.len() == b2.len(),
        0 <= i < b1.len(),
        k < 8,
        b2[i] == b1[i] ^ (1u8 << k),
        forall|j: int| 0 <= j < b1.len() && j != i ==> b2[j] == b1[j],
    ensures
        crc16(b2) != crc16(b1),
{
    let e = seq_xor(b1, b2);
    lemma_crc16_linear(b1, b2);
    let x = b1[i];
    assert(k < 8 ==> (x ^ (x ^ (1u8 << k))) == (1u8 << k) && (1u8 << k) != 0) by (bit_vector);
    assert(e[i] != 0);
    assert(forall|j: int| 0 <= j < e.len() && j != i ==> e[j] == 0) by {
        assert forall|j: int| 0 <= j < e.len() && j != i implies e[j] == 0 by {
            lemma_u8_xor_self(b1[j]);
        }
    }
    lemma_crc16_single_nonzero(e, i);
    lemma_u16_xor_cancel(crc16(b1), crc16(b2));
}

proof fn lemma_u8_xor_self(x: u8)
    ensures
        x ^ x == 0,
{
    assert(x ^ x == 0) by (bit_vector);
}

proof fn lemma_u16_xor_cancel(a: u16, b: u16)
    requires
        a ^ b != 0,
    ensures
        a != b,
{
    assert(a == b ==> a ^ b == 0) by (bit_vector);
}

/// Computes the CRC-16/XMODEM value of `bytes`.
pub fn checksum(bytes: &[u8]) -> (r: u16)
    ensures
        r == crc16(bytes@),
{
    let mut crc: u16 = 0;
    let mut i: usize = 0;
    while i < bytes.len()
        invariant
            i <= bytes@.len(),
            crc == crc16(bytes@.take(i as int)),
        decreases bytes@.len() - i,
    {
        let b = bytes[i];
        let ghost c0 = (crc ^ ((b as u16) << 8)) as u16;
        crc = crc ^ ((b as u16) << 8);
        let mut k: usize = 0;
        while k < 8
            invariant
                k <= 8,
                crc == crc_shift_n(c0, k as nat),
            decreases 8 - k,
        {
            if crc >= 0x8000 {
                crc = (crc << 1) ^ 0x1021;
            } else {
                crc = crc << 1;
            }
            k = k + 1;
        }
        proof {
            assert(crc == crc_step(crc16(bytes@.take(i as int)), b));
            assert(bytes@.take(i + 1).drop_last() =~= bytes@.take(i as int));
            assert(bytes@.take(i + 1).last() == b);
        }
        i = i + 1;
    }
    proof {
        assert(bytes@.take(i as int) =~= bytes@);
    }
    crc
}

} // verus!
