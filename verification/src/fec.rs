//! The systematic repeat-accumulate code.
use crate::bitstream;
use vstd::prelude::*;

verus! {

pub struct FecEncoded {
    pub sys_stream: Vec<u8>,
    pub par_stream: Vec<u8>,
}

/// The parity stream: each bit goes twice into the accumulator, which thus holds the bit after the
/// first time and is empty again after the second.
pub open spec fn accumulated(bits: Seq<u8>) -> Seq<u8> {
    Seq::new(
        bits.len() * 2,
        |j: int|
            if j % 2 == 0 {
                bits[j / 2]
            } else {
                0
            },
    )
}

pub fn encode_systematic_ra(src_bytes: &[u8]) -> (r: FecEncoded)
    requires
        src_bytes.len() * 16 <= usize::MAX,
    ensures
        r.sys_stream@ == bitstream::unpacked(src_bytes@),
        r.par_stream@ == accumulated(r.sys_stream@),
{
    let sys_stream: Vec<u8> = bitstream::bytes_to_bits_msb(src_bytes);
    let ghost bits = sys_stream@;
    let ghost want = accumulated(bits);
    proof {
        bitstream::lemma_unpacked_are_bits(src_bytes@);
    }
    let mut par_stream: Vec<u8> = Vec::with_capacity(sys_stream.len() * 2);
    let mut acc: u8 = 0;
    let mut i: usize = 0;
    while i < sys_stream.len()
        invariant
            i <= sys_stream.len(),
            bits == sys_stream@,
            want == accumulated(bits),
            bitstream::are_bits(bits),
            acc == 0,
            par_stream@ == want.take(2 * i),
        decreases sys_stream.len() - i,
    {
        let bit: u8 = sys_stream[i];
        proof {
            assert(bits[i as int] == 0 || bits[i as int] == 1);
            assert(0u8 ^ bit == bit && bit ^ bit == 0 && (bit <= 1 ==> bit & 1 == bit) && 0u8 & 1
                == 0) by (bit_vector);
        }
        acc = acc ^ bit;
        par_stream.push(acc & 1);
        acc = acc ^ bit;
        par_stream.push(acc & 1);
        proof {
            assert((2 * i) / 2 == i && (2 * i) % 2 == 0 && (2 * i + 1) % 2 == 1);
            assert(want.take(2 * i + 2) =~= want.take(2 * i).push(want[2 * i]).push(want[2 * i + 1]));
        }
        i = i + 1;
    }
    assert(want.take(2 * i) =~= want);
    FecEncoded { sys_stream, par_stream }
}

/// The parity stream is a running sum: from each of its bits to the next it changes exactly where
/// the bit that goes in is a one, and each bit goes in twice. Before it the sum is zero.
pub proof fn law_parity_is_a_running_sum(bits: Seq<u8>, j: int)
    requires
        bitstream::are_bits(bits),
        0 <= j < 2 * bits.len(),
    ensures
        accumulated(bits).len() == 2 * bits.len(),
        bitstream::are_bits(accumulated(bits)),
        ({
            let before = if j == 0 {
                0u8
            } else {
                accumulated(bits)[j - 1]
            };
            accumulated(bits)[j] != before <==> bits[j / 2] == 1
        }),
{
    let par = accumulated(bits);
    assert forall|i: int| 0 <= i < par.len() implies #[trigger] par[i] == 0 || par[i] == 1 by {
        assert(bits[i / 2] == 0 || bits[i / 2] == 1);
    }
    assert(bits[j / 2] == 0 || bits[j / 2] == 1);
}

} // verus!
