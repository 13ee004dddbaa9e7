//! Bytes as bits, the most significant first, and hard decisions on soft bits.
use crate::float_bits;
use crate::util;
use vstd::prelude::*;

verus! {

/// The bits of some bytes, the most significant of each byte first.
pub open spec fn unpacked(data: Seq<u8>) -> Seq<u8> {
    Seq::new(data.len() * 8, |i: int| (data[i / 8] >> ((7 - i % 8) as u8)) & 1)
}

/// The low bit of place `i`, and zero behind the end.
pub open spec fn padded_bit(bits: Seq<u8>, i: int) -> u8 {
    if 0 <= i < bits.len() {
        bits[i] & 1
    } else {
        0
    }
}

/// The number that the first `t` bits of byte `j` spell.
pub open spec fn byte_prefix(bits: Seq<u8>, j: int, t: nat) -> u8
    decreases t,
{
    if t == 0 {
        0
    } else {
        (byte_prefix(bits, j, (t - 1) as nat) << 1u8) | padded_bit(bits, 8 * j + t - 1)
    }
}

/// The bytes that some bits spell, the last one filled up with zeros.
pub open spec fn packed(bits: Seq<u8>) -> Seq<u8> {
    Seq::new(util::ceil_div(bits.len(), 8), |j: int| byte_prefix(bits, j, 8))
}

/// Every place holds 0 or 1.
pub open spec fn are_bits(bits: Seq<u8>) -> bool {
    forall|i: int| 0 <= i < bits.len() ==> (#[trigger] bits[i] == 0 || bits[i] == 1)
}

proof fn lemma_low_bits(b: u8)
    ensures
        b & 1 == 0 || b & 1 == 1,
        b <= 1 ==> b & 1 == b,
{
    assert(b & 1 == 0 || b & 1 == 1) by (bit_vector);
    assert(b <= 1 ==> b & 1 == b) by (bit_vector);
}

/// Bit `t` of a byte that eight bits spell.
proof fn lemma_byte_bit(bits: Seq<u8>, j: int, t: int)
    requires
        0 <= t < 8,
    ensures
        (byte_prefix(bits, j, 8) >> ((7 - t) as u8)) & 1 == padded_bit(bits, 8 * j + t),
{
    reveal_with_fuel(byte_prefix, 9);
    let b0 = padded_bit(bits, 8 * j);
    let b1 = padded_bit(bits, 8 * j + 1);
    let b2 = padded_bit(bits, 8 * j + 2);
    let b3 = padded_bit(bits, 8 * j + 3);
    let b4 = padded_bit(bits, 8 * j + 4);
    let b5 = padded_bit(bits, 8 * j + 5);
    let b6 = padded_bit(bits, 8 * j + 6);
    let b7 = padded_bit(bits, 8 * j + 7);
    assert forall|i: int| #[trigger] padded_bit(bits, i) <= 1 by {
        lemma_low_bits(bits[i]);
    }
    let x = byte_prefix(bits, j, 8);
    let z = 0u8;
    assert(x == ((((((((z << 1u8 | b0) << 1u8 | b1) << 1u8 | b2) << 1u8 | b3) << 1u8 | b4) << 1u8
        | b5) << 1u8 | b6) << 1u8 | b7));
    assert((x >> 7u8) & 1 == b0 && (x >> 6u8) & 1 == b1 && (x >> 5u8) & 1 == b2 && (x >> 4u8) & 1
        == b3 && (x >> 3u8) & 1 == b4 && (x >> 2u8) & 1 == b5 && (x >> 1u8) & 1 == b6 && (x >> 0u8)
        & 1 == b7) by (bit_vector)
        requires
            x == ((((((((z << 1u8 | b0) << 1u8 | b1) << 1u8 | b2) << 1u8 | b3) << 1u8 | b4) << 1u8
                | b5) << 1u8 | b6) << 1u8 | b7),
            z == 0,
            b0 <= 1,
            b1 <= 1,
            b2 <= 1,
            b3 <= 1,
            b4 <= 1,
            b5 <= 1,
            b6 <= 1,
            b7 <= 1,
    ;
}

/// Eight bits of a byte spell the byte.
pub proof fn lemma_spelled_byte(bits: Seq<u8>, j: int, x: u8)
    requires
        forall|t: int|
            0 <= t < 8 ==> #[trigger] padded_bit(bits, 8 * j + t) == (x >> ((7 - t) as u8)) & 1,
    ensures
        byte_prefix(bits, j, 8) == x,
{
    reveal_with_fuel(byte_prefix, 9);
    assert(padded_bit(bits, 8 * j + 0) == (x >> 7u8) & 1);
    assert(padded_bit(bits, 8 * j + 1) == (x >> 6u8) & 1);
    assert(padded_bit(bits, 8 * j + 2) == (x >> 5u8) & 1);
    assert(padded_bit(bits, 8 * j + 3) == (x >> 4u8) & 1);
    assert(padded_bit(bits, 8 * j + 4) == (x >> 3u8) & 1);
    assert(padded_bit(bits, 8 * j + 5) == (x >> 2u8) & 1);
    assert(padded_bit(bits, 8 * j + 6) == (x >> 1u8) & 1);
    assert(padded_bit(bits, 8 * j + 7) == (x >> 0u8) & 1);
    let z = 0u8;
    assert(((((((((z << 1u8 | ((x >> 7u8) & 1)) << 1u8 | ((x >> 6u8) & 1)) << 1u8 | ((x >> 5u8) & 1))
        << 1u8 | ((x >> 4u8) & 1)) << 1u8 | ((x >> 3u8) & 1)) << 1u8 | ((x >> 2u8) & 1)) << 1u8 | ((
    x >> 1u8) & 1)) << 1u8 | ((x >> 0u8) & 1)) == x) by (bit_vector)
        requires
            z == 0,
    ;
}

/// Packing the bits of some bytes gives the bytes back.
pub proof fn law_pack_undoes_unpack(data: Seq<u8>)
    ensures
        packed(unpacked(data)) == data,
{
    let bits = unpacked(data);
    assert forall|j: int| 0 <= j < data.len() implies packed(bits)[j] == data[j] by {
        assert forall|t: int| 0 <= t < 8 implies #[trigger] padded_bit(bits, 8 * j + t) == (data[j]
            >> ((7 - t) as u8)) & 1 by {
            assert((8 * j + t) / 8 == j && (8 * j + t) % 8 == t);
            lemma_low_bits(data[j] >> ((7 - t) as u8));
            lemma_low_bits((data[j] >> ((7 - t) as u8)) & 1);
        }
        lemma_spelled_byte(bits, j, data[j]);
    }
    assert(packed(bits) =~= data);
}

/// Unpacking packed bits gives the bits back, followed by zeros up to a whole byte.
pub proof fn law_unpack_undoes_pack(bits: Seq<u8>)
    requires
        are_bits(bits),
    ensures
        unpacked(packed(bits)).len() == util::ceil_div(bits.len(), 8) * 8,
        unpacked(packed(bits)).take(bits.len() as int) == bits,
        forall|i: int|
            bits.len() <= i < unpacked(packed(bits)).len() ==> #[trigger] unpacked(packed(bits))[i]
                == 0,
{
    let out = unpacked(packed(bits));
    assert forall|i: int| 0 <= i < out.len() implies #[trigger] out[i] == padded_bit(bits, i) by {
        lemma_byte_bit(bits, i / 8, i % 8);
        assert(8 * (i / 8) + i % 8 == i);
    }
    assert forall|i: int| 0 <= i < bits.len() implies out.take(bits.len() as int)[i] == bits[i] by {
        assert(out[i] == padded_bit(bits, i));
        lemma_low_bits(bits[i]);
    }
    assert(out.take(bits.len() as int) =~= bits);
}

/// What is unpacked is bits.
pub proof fn lemma_unpacked_are_bits(data: Seq<u8>)
    ensures
        are_bits(unpacked(data)),
{
    assert forall|i: int| 0 <= i < unpacked(data).len() implies (#[trigger] unpacked(data)[i] == 0
        || unpacked(data)[i] == 1) by {
        lemma_low_bits(data[i / 8] >> ((7 - i % 8) as u8));
    }
}

/// Two bit strings that agree on the eight places of a byte spell the same byte there.
pub proof fn lemma_same_byte(a: Seq<u8>, b: Seq<u8>, j: int)
    requires
        0 <= j,
        8 * j + 8 <= a.len(),
        8 * j + 8 <= b.len(),
        forall|i: int| 8 * j <= i < 8 * j + 8 ==> a[i] == b[i],
    ensures
        byte_prefix(a, j, 8) == byte_prefix(b, j, 8),
{
    reveal_with_fuel(byte_prefix, 9);
}

/// Replaces `bits` by the bits of some bytes.
pub fn bytes_to_bits_msb_into(bits: &mut Vec<u8>, data: &[u8])
    requires
        data.len() * 8 <= usize::MAX,
    ensures
        final(bits)@ == unpacked(data@),
{
    bits.clear();
    let ghost want = unpacked(data@);
    let mut j: usize = 0;
    while j < data.len()
        invariant
            j <= data.len(),
            data.len() * 8 <= usize::MAX,
            want == unpacked(data@),
            bits@ == want.take(8 * j),
        decreases data.len() - j,
    {
        let b: u8 = data[j];
        let mut t: u8 = 0;
        while t < 8
            invariant
                j < data.len(),
                t <= 8,
                b == data@[j as int],
                want == unpacked(data@),
                bits@ == want.take(8 * j + t),
            decreases 8 - t,
        {
            bits.push((b >> (7 - t)) & 1);
            proof {
                let i = 8 * j + t;
                assert(i / 8 == j && i % 8 == t);
                assert(want.take(i + 1) =~= want.take(i).push(want[i]));
            }
            t = t + 1;
        }
        j = j + 1;
    }
    assert(want.take(8 * j) =~= want);
}

pub fn bytes_to_bits_msb(data: &[u8]) -> (bits: Vec<u8>)
    requires
        data.len() * 8 <= usize::MAX,
    ensures
        bits@ == unpacked(data@),
{
    let mut bits: Vec<u8> = Vec::with_capacity(data.len() * 8);
    bytes_to_bits_msb_into(&mut bits, data);
    bits
}

/// Replaces `out` by the bytes that some bits spell.
pub fn bits_to_bytes_msb_into(out: &mut Vec<u8>, bits: &[u8])
    ensures
        final(out)@ == packed(bits@),
{
    out.clear();
    let n: usize = util::div_ceil(bits.len(), 8);
    let ghost want = packed(bits@);
    let mut j: usize = 0;
    while j < n
        invariant
            j <= n,
            n == util::ceil_div(bits@.len(), 8),
            want == packed(bits@),
            out@ == want.take(j as int),
        decreases n - j,
    {
        let mut x: u8 = 0;
        let mut t: usize = 0;
        while t < 8
            invariant
                t <= 8,
                j < n,
                n == util::ceil_div(bits@.len(), 8),
                x == byte_prefix(bits@, j as int, t as nat),
            decreases 8 - t,
        {
            assert(8 * j < bits@.len());
            let left: usize = bits.len() - 8 * j;
            let b: u8 = if t < left {
                bits[8 * j + t] & 1
            } else {
                0
            };
            x = (x << 1u8) | b;
            t = t + 1;
        }
        out.push(x);
        assert(want.take(j + 1) =~= want.take(j as int).push(want[j as int]));
        j = j + 1;
    }
    assert(want.take(n as int) =~= want);
}

pub fn bits_to_bytes_msb(bits: &[u8]) -> (out: Vec<u8>)
    ensures
        out@ == packed(bits@),
{
    let mut out: Vec<u8> = Vec::new();
    bits_to_bytes_msb_into(&mut out, bits);
    out
}

/// The hard decision on a soft bit: a negative number means 1.
pub open spec fn hard_bit(llr: u32) -> u8 {
    if float_bits::less(llr, 0) {
        1
    } else {
        0
    }
}

/// The hard decisions on soft bits, which are given by their bit patterns.
pub open spec fn hard_bits(llr: Seq<u32>) -> Seq<u8> {
    Seq::new(llr.len(), |i: int| hard_bit(llr[i]))
}

pub fn hard_llr_to_bits(llr: &[u32]) -> (bits: Vec<u8>)
    ensures
        bits@ == hard_bits(llr@),
{
    let mut bits: Vec<u8> = Vec::with_capacity(llr.len());
    let mut i: usize = 0;
    while i < llr.len()
        invariant
            i <= llr.len(),
            bits@ == hard_bits(llr@).take(i as int),
        decreases llr.len() - i,
    {
        let b: u8 = if float_bits::is_less(llr[i], 0) {
            1
        } else {
            0
        };
        bits.push(b);
        assert(hard_bits(llr@).take(i + 1) =~= hard_bits(llr@).take(i as int).push(b));
        i = i + 1;
    }
    assert(hard_bits(llr@).take(i as int) =~= hard_bits(llr@));
    bits
}

/// The bits of a byte are its binary digits, the most significant first.
pub proof fn law_bits_are_binary_digits(data: Seq<u8>, j: int)
    requires
        0 <= j < data.len(),
    ensures
        ({
            let b = unpacked(data);
            data[j] == 128 * b[8 * j] + 64 * b[8 * j + 1] + 32 * b[8 * j + 2] + 16 * b[8 * j + 3]
                + 8 * b[8 * j + 4] + 4 * b[8 * j + 5] + 2 * b[8 * j + 6] + b[8 * j + 7]
        }),
        are_bits(unpacked(data)),
{
    let x = data[j];
    lemma_unpacked_are_bits(data);
    assert(x == 128 * ((x >> 7) & 1) + 64 * ((x >> 6) & 1) + 32 * ((x >> 5) & 1) + 16 * ((x >> 4)
        & 1) + 8 * ((x >> 3) & 1) + 4 * ((x >> 2) & 1) + 2 * ((x >> 1) & 1) + ((x >> 0) & 1))
        by (bit_vector);
    let b = unpacked(data);
    assert((8 * j) / 8 == j && (8 * j) % 8 == 0);
    assert((8 * j + 7) / 8 == j && (8 * j + 7) % 8 == 7);
    assert(b[8 * j] == (x >> 7u8) & 1);
    assert(b[8 * j + 1] == (x >> 6u8) & 1);
    assert(b[8 * j + 2] == (x >> 5u8) & 1);
    assert(b[8 * j + 3] == (x >> 4u8) & 1);
    assert(b[8 * j + 4] == (x >> 3u8) & 1);
    assert(b[8 * j + 5] == (x >> 2u8) & 1);
    assert(b[8 * j + 6] == (x >> 1u8) & 1);
    assert(b[8 * j + 7] == (x >> 0u8) & 1);
}

/// A soft bit means one exactly where it is a negative number: its sign is set, and it is neither
/// zero nor no number.
pub proof fn law_negative_means_one(llr: u32)
    ensures
        hard_bit(llr) == 1 <==> 0x8000_0000 < llr <= 0xFF80_0000,
        hard_bit(llr) == 0 || hard_bit(llr) == 1,
{
}

} // verus!
