//! Streams of bits cut into slots, and soft bits of slots put back into streams.
use crate::float_bits;
use crate::params::ProfileCfg;
use crate::phy_channel::{SlotLlr, SlotPayloadBits};
use crate::util;
use vstd::prelude::*;

verus! {

/// The soft bits of the two streams, as bit patterns of single-precision numbers.
pub struct StreamBuffers {
    pub sys_llr: Vec<u32>,
    pub par_llr: Vec<u32>,
}

impl Default for StreamBuffers {
    fn default() -> (r: Self)
        ensures
            r.sys_llr@.len() == 0,
            r.par_llr@.len() == 0,
    {
        StreamBuffers { sys_llr: Vec::new(), par_llr: Vec::new() }
    }
}

/// Piece `t` of a stream cut into pieces of `n`, filled up with zeros behind the end.
pub open spec fn piece(stream: Seq<u8>, n: nat, t: int) -> Seq<u8> {
    Seq::new(
        n,
        |i: int|
            if t * n + i < stream.len() {
                stream[t * n + i]
            } else {
                0
            },
    )
}

/// How many slots two streams take.
pub open spec fn slot_count(sys: nat, par: nat, profile: ProfileCfg) -> nat {
    let a = util::ceil_div(sys, profile.b_sys as nat);
    let b = util::ceil_div(par, profile.b_par as nat);
    if a >= b {
        a
    } else {
        b
    }
}

fn cut_piece(stream: &[u8], n: usize, t: usize) -> (out: Vec<u8>)
    requires
        t * n + n <= usize::MAX,
    ensures
        out@ == piece(stream@, n as nat, t as int),
{
    let start: usize = t * n;
    let ghost want = piece(stream@, n as nat, t as int);
    let mut out: Vec<u8> = Vec::with_capacity(n);
    let mut i: usize = 0;
    while i < n
        invariant
            i <= n,
            start == t * n,
            start + n <= usize::MAX,
            want == piece(stream@, n as nat, t as int),
            out@ == want.take(i as int),
        decreases n - i,
    {
        let b: u8 = if start + i < stream.len() {
            stream[start + i]
        } else {
            0
        };
        out.push(b);
        assert(want.take(i + 1) =~= want.take(i as int).push(want[i as int]));
        i = i + 1;
    }
    assert(want.take(n as int) =~= want);
    out
}

/// Cuts the two streams into slots.
pub fn build_slot_payloads(
    sys_stream: &[u8],
    par_stream: &[u8],
    profile: ProfileCfg,
) -> (slots: Vec<SlotPayloadBits>)
    requires
        profile.b_sys > 0,
        profile.b_par > 0,
        slot_count(sys_stream@.len(), par_stream@.len(), profile) * profile.b_sys <= usize::MAX,
        slot_count(sys_stream@.len(), par_stream@.len(), profile) * profile.b_par <= usize::MAX,
    ensures
        slots@.len() == slot_count(sys_stream@.len(), par_stream@.len(), profile),
        forall|t: int|
            0 <= t < slots@.len() ==> (#[trigger] slots@[t]).sys_bits@ == piece(
                sys_stream@,
                profile.b_sys as nat,
                t,
            ) && slots@[t].par_bits@ == piece(par_stream@, profile.b_par as nat, t),
{
    let a: usize = util::div_ceil(sys_stream.len(), profile.b_sys);
    let b: usize = util::div_ceil(par_stream.len(), profile.b_par);
    let count: usize = if a >= b {
        a
    } else {
        b
    };
    let mut slots: Vec<SlotPayloadBits> = Vec::with_capacity(count);
    let mut t: usize = 0;
    while t < count
        invariant
            t <= count,
            count * profile.b_sys <= usize::MAX,
            count * profile.b_par <= usize::MAX,
            slots@.len() == t,
            forall|u: int|
                0 <= u < t ==> (#[trigger] slots@[u]).sys_bits@ == piece(
                    sys_stream@,
                    profile.b_sys as nat,
                    u,
                ) && slots@[u].par_bits@ == piece(par_stream@, profile.b_par as nat, u),
        decreases count - t,
    {
        assert(t * profile.b_sys + profile.b_sys <= count * profile.b_sys) by (nonlinear_arith)
            requires
                t + 1 <= count,
                profile.b_sys >= 0,
        ;
        assert(t * profile.b_par + profile.b_par <= count * profile.b_par) by (nonlinear_arith)
            requires
                t + 1 <= count,
                profile.b_par >= 0,
        ;
        let sys_bits: Vec<u8> = cut_piece(sys_stream, profile.b_sys, t);
        let par_bits: Vec<u8> = cut_piece(par_stream, profile.b_par, t);
        slots.push(SlotPayloadBits { sys_bits, par_bits });
        t = t + 1;
    }
    slots
}

/// A buffer with a piece of soft bits written at `start`, grown with zeros where it is too short.
/// Without a piece zeros are written.
pub open spec fn written(buffer: Seq<u32>, start: int, n: nat, values: Option<Seq<u32>>) -> Seq<
    u32,
> {
    Seq::new(
        if buffer.len() >= start + n {
            buffer.len()
        } else {
            (start + n) as nat
        },
        |i: int|
            if start <= i < start + n {
                match values {
                    Some(v) => v[i - start],
                    None => 0,
                }
            } else if i < buffer.len() {
                buffer[i]
            } else {
                0
            },
    )
}

fn write_at(buffer: &mut Vec<u32>, start: usize, n: usize, values: &Vec<u32>, keep: bool)
    requires
        start + n <= usize::MAX,
        keep ==> values.len() == n,
    ensures
        final(buffer)@ == written(
            old(buffer)@,
            start as int,
            n as nat,
            if keep {
                Some(values@)
            } else {
                None
            },
        ),
{
    let ghost v: Option<Seq<u32>> = if keep {
        Some(values@)
    } else {
        None
    };
    let ghost want = written(buffer@, start as int, n as nat, v);
    if buffer.len() < start + n {
        buffer.resize(start + n, 0);
    }
    let ghost grown = buffer@;
    let mut i: usize = 0;
    while i < n
        invariant
            i <= n,
            start + n <= buffer.len(),
            keep ==> values.len() == n,
            buffer@.len() == grown.len(),
            v == if keep {
                Some(values@)
            } else {
                None
            },
            forall|k: int|
                0 <= k < buffer@.len() ==> #[trigger] buffer@[k] == if start <= k < start + i {
                    match v {
                        Some(x) => x[k - start],
                        None => 0,
                    }
                } else {
                    grown[k]
                },
        decreases n - i,
    {
        let x: u32 = if keep {
            values[i]
        } else {
            0
        };
        buffer.set(start + i, x);
        i = i + 1;
    }
    assert(buffer@ =~= want);
}

/// Writes the soft bits of slot `t` into the streams; a slot whose quality is below `t_drop` counts
/// as erased.
pub fn write_slot_llr_sequential(
    buffers: &mut StreamBuffers,
    slot: &SlotLlr,
    t: usize,
    profile: ProfileCfg,
    t_drop: u32,
)
    requires
        t * profile.b_sys + profile.b_sys <= usize::MAX,
        t * profile.b_par + profile.b_par <= usize::MAX,
        !float_bits::less(slot.q_pilot, t_drop) ==> slot.sys_llr@.len() == profile.b_sys
            && slot.par_llr@.len() == profile.b_par,
    ensures
        ({
            let dropped = float_bits::less(slot.q_pilot, t_drop);
            &&& final(buffers).sys_llr@ == written(
                old(buffers).sys_llr@,
                t * profile.b_sys,
                profile.b_sys as nat,
                if dropped {
                    None
                } else {
                    Some(slot.sys_llr@)
                },
            )
            &&& final(buffers).par_llr@ == written(
                old(buffers).par_llr@,
                t * profile.b_par,
                profile.b_par as nat,
                if dropped {
                    None
                } else {
                    Some(slot.par_llr@)
                },
            )
        }),
{
    let sys_start: usize = t * profile.b_sys;
    let par_start: usize = t * profile.b_par;
    let keep: bool = !float_bits::is_less(slot.q_pilot, t_drop);
    write_at(&mut buffers.sys_llr, sys_start, profile.b_sys, &slot.sys_llr, keep);
    write_at(&mut buffers.par_llr, par_start, profile.b_par, &slot.par_llr, keep);
}

/// Every bit of a stream is in the piece, and at the place in it, that its number says, and the
/// places behind the end of the stream hold zero.
pub proof fn law_pieces_hold_the_stream(stream: Seq<u8>, n: nat, i: int)
    requires
        n > 0,
        0 <= i,
    ensures
        piece(stream, n, i / (n as int)).len() == n,
        piece(stream, n, i / (n as int))[i % (n as int)] == if i < stream.len() {
            stream[i]
        } else {
            0
        },
{
    let m = n as int;
    vstd::arithmetic::div_mod::lemma_fundamental_div_mod(i, m);
    vstd::arithmetic::div_mod::lemma_mod_bound(i, m);
    assert(m * (i / m) == (i / m) * m) by (nonlinear_arith);
}

/// The slots hold both streams, and fewer would not hold one of them.
pub proof fn law_slots_hold_both_streams(sys: nat, par: nat, profile: ProfileCfg)
    requires
        profile.b_sys > 0,
        profile.b_par > 0,
    ensures
        slot_count(sys, par, profile) * profile.b_sys >= sys,
        slot_count(sys, par, profile) * profile.b_par >= par,
        slot_count(sys, par, profile) > 0 ==> ({
            let fewer = slot_count(sys, par, profile) - 1;
            fewer * profile.b_sys < sys || fewer * profile.b_par < par
        }),
{
    let (s, p) = (profile.b_sys as nat, profile.b_par as nat);
    util::law_groups_suffice(sys, s);
    util::law_groups_suffice(par, p);
    let (a, b) = (util::ceil_div(sys, s), util::ceil_div(par, p));
    let n = slot_count(sys, par, profile);
    assert(a * s <= n * s && b * p <= n * p) by (nonlinear_arith)
        requires
            a <= n,
            b <= n,
    ;
}

/// What is written into a buffer is found where it was put, all else stays as it was, and what is
/// left between the buffer's end and the piece holds zero.
pub proof fn law_written_piece_is_found(buffer: Seq<u32>, start: int, values: Seq<u32>, i: int)
    requires
        0 <= start,
        0 <= i < written(buffer, start, values.len(), Some(values)).len(),
    ensures
        written(buffer, start, values.len(), Some(values)).subrange(start, start + values.len())
            == values,
        i < start || i >= start + values.len() ==> written(
            buffer,
            start,
            values.len(),
            Some(values),
        )[i] == if i < buffer.len() {
            buffer[i]
        } else {
            0
        },
{
    assert(written(buffer, start, values.len(), Some(values)).subrange(
        start,
        start + values.len(),
    ) =~= values);
}

/// A piece that is missing leaves zeros, whatever stood there, and touches nothing else.
pub proof fn law_missing_piece_is_zero(buffer: Seq<u32>, start: int, n: nat, i: int)
    requires
        0 <= start,
        0 <= i < written(buffer, start, n, None).len(),
    ensures
        written(buffer, start, n, None)[i] == if (i < start || i >= start + n) && i < buffer.len() {
            buffer[i]
        } else {
            0
        },
{
}

} // verus!
