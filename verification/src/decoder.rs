//! Slots turned back into a file.
use crate::bitstream;
use crate::fec;
use crate::float_bits;
use crate::mapper;
use crate::mapper::StreamBuffers;
use crate::params;
use crate::params::ProfileCfg;
use crate::phy_channel::SlotLlr;
use crate::session;
use crate::session::PayloadError;
use vstd::prelude::*;

verus! {

/// Below this quality a slot counts as erased: 0.35.
pub const DROP_BELOW: u32 = 0x3EB3_3333;

/// Why no file is decoded.
#[derive(Clone, Copy, Debug, PartialEq, Eq)]
pub enum DecodeError {
    NoProfileLock,
    Payload(PayloadError),
}

/// The soft bit at place `i` of the systematic stream that some slots make.
pub open spec fn stream_llr(slots: Seq<SlotLlr>, profile: ProfileCfg) -> Seq<u32> {
    let b = profile.b_sys as int;
    Seq::new(
        slots.len() * profile.b_sys as nat,
        |i: int|
            if float_bits::less(slots[i / b].q_pilot, 0x3EB3_3333) {
                0
            } else {
                slots[i / b].sys_llr@[i % b]
            },
    )
}

/// The systematic bytes that some slots make.
pub open spec fn assembled(slots: Seq<SlotLlr>, profile: ProfileCfg) -> Seq<u8> {
    bitstream::packed(bitstream::hard_bits(stream_llr(slots, profile)))
}

/// The slots have the profile's sizes.
pub open spec fn slots_have_sizes(slots: Seq<SlotLlr>, profile: ProfileCfg) -> bool {
    forall|t: int|
        0 <= t < slots.len() ==> (#[trigger] slots[t]).sys_llr@.len() == profile.b_sys
            && slots[t].par_llr@.len() == profile.b_par
}

/// Puts the systematic bytes of some slots together.
pub fn assemble_stream(slots: &[SlotLlr], profile: ProfileCfg) -> (sys_bytes: Vec<u8>)
    requires
        slots_have_sizes(slots@, profile),
        slots@.len() * profile.b_sys <= usize::MAX,
        slots@.len() * profile.b_par <= usize::MAX,
    ensures
        sys_bytes@ == assembled(slots@, profile),
{
    let ghost want = stream_llr(slots@, profile);
    let ghost b = profile.b_sys as int;
    let mut buffers: StreamBuffers = StreamBuffers::default();
    let mut t: usize = 0;
    assert(0 * b == 0) by (nonlinear_arith);
    assert(buffers.sys_llr@ =~= want.take(0 * b));
    while t < slots.len()
        invariant
            t <= slots@.len(),
            b == profile.b_sys,
            slots_have_sizes(slots@, profile),
            slots@.len() * profile.b_sys <= usize::MAX,
            slots@.len() * profile.b_par <= usize::MAX,
            want == stream_llr(slots@, profile),
            buffers.sys_llr@ == want.take(t * b),
            buffers.sys_llr@.len() == t * b,
        decreases slots@.len() - t,
    {
        proof {
            assert(t * profile.b_sys + profile.b_sys <= slots@.len() * profile.b_sys && 0 <= t
                * profile.b_sys) by (nonlinear_arith)
                requires
                    0 <= t,
                    t + 1 <= slots@.len(),
                    profile.b_sys >= 0,
            ;
            assert(t * profile.b_par + profile.b_par <= slots@.len() * profile.b_par && 0 <= t
                * profile.b_par) by (nonlinear_arith)
                requires
                    0 <= t,
                    t + 1 <= slots@.len(),
                    profile.b_par >= 0,
            ;
            assert((t + 1) * b == t * b + b) by (nonlinear_arith);
        }
        let ghost before = buffers.sys_llr@;
        assert(slots@[t as int].sys_llr@.len() == profile.b_sys);
        mapper::write_slot_llr_sequential(&mut buffers, &slots[t], t, profile, DROP_BELOW);
        proof {
            let now = buffers.sys_llr@;
            assert forall|i: int| 0 <= i < (t + 1) * b implies now[i] == want[i] by {
                if i < t * b {
                    assert(now[i] == before[i]);
                    assert(before[i] == want.take(t * b)[i]);
                } else {
                    vstd::arithmetic::div_mod::lemma_fundamental_div_mod_converse(
                        i,
                        b,
                        t as int,
                        i - t * b,
                    );
                }
            }
            assert(now =~= want.take((t + 1) * b));
        }
        t = t + 1;
    }
    assert(want.take(t * b) =~= want);
    let bits: Vec<u8> = bitstream::hard_llr_to_bits(buffers.sys_llr.as_slice());
    bitstream::bits_to_bytes_msb(bits.as_slice())
}

/// A stream names the profile that it was read under.
pub open spec fn locks(sys: Seq<u8>, profile: ProfileCfg) -> bool {
    match session::recovered_meta(sys, profile.r_meta as nat) {
        Some(m) => m.profile == profile.id,
        None => false,
    }
}

pub fn is_locked(sys_bytes: &[u8], profile: ProfileCfg) -> (r: bool)
    ensures
        r == locks(sys_bytes@, profile),
{
    match session::recover_meta_from_prefix(sys_bytes, profile.r_meta) {
        Some(m) => m.profile == profile.id,
        None => false,
    }
}

/// The slots can be counted under their profile.
pub open spec fn candidates_fit(candidates: Seq<Vec<SlotLlr>>) -> bool {
    forall|p: int|
        #![trigger candidates[p]]
        0 <= p < candidates.len() ==> {
            let profile = params::profile_numbered(p as u8)->0;
            &&& slots_have_sizes(candidates[p]@, profile)
            &&& candidates[p]@.len() * profile.b_sys <= usize::MAX
            &&& candidates[p]@.len() * profile.b_par <= usize::MAX
        }
}

/// Profile `p` is the first whose reading names it.
pub open spec fn is_first_lock(candidates: Seq<Vec<SlotLlr>>, p: int) -> bool {
    &&& 0 <= p < candidates.len()
    &&& locks(
        assembled(candidates[p]@, params::profile_numbered(p as u8)->0),
        params::profile_numbered(p as u8)->0,
    )
    &&& forall|q: int|
        #![trigger candidates[q]]
        0 <= q < p ==> !locks(
            assembled(candidates[q]@, params::profile_numbered(q as u8)->0),
            params::profile_numbered(q as u8)->0,
        )
}

/// The first profile under whose reading the stream names that profile, and the stream.
pub fn lock_profile(candidates: &[Vec<SlotLlr>]) -> (r: Option<(ProfileCfg, Vec<u8>)>)
    requires
        candidates@.len() <= 3,
        candidates_fit(candidates@),
    ensures
        match r {
            Some(x) => is_first_lock(candidates@, x.0.id as int) && params::profile_numbered(
                x.0.id,
            ) == Some(x.0) && x.1@ == assembled(candidates@[x.0.id as int]@, x.0),
            None => forall|p: int| !is_first_lock(candidates@, p),
        },
{
    let mut p: u8 = 0;
    while (p as usize) < candidates.len()
        invariant
            p <= candidates@.len() <= 3,
            candidates_fit(candidates@),
            forall|q: int|
                #![trigger candidates@[q]]
                0 <= q < p ==> !locks(
                    assembled(candidates@[q]@, params::profile_numbered(q as u8)->0),
                    params::profile_numbered(q as u8)->0,
                ),
        decreases candidates@.len() - p,
    {
        let profile: ProfileCfg = match params::cfg(p) {
            Ok(c) => c,
            Err(_) => {
                assert(false);
                return None;
            },
        };
        assert(slots_have_sizes(candidates@[p as int]@, profile));
        let sys_bytes: Vec<u8> = assemble_stream(candidates[p as usize].as_slice(), profile);
        if is_locked(sys_bytes.as_slice(), profile) {
            return Some((profile, sys_bytes));
        }
        p = p + 1;
    }
    None
}

/// What decoding gives: the payload under the first profile that reception locks to, or the reason
/// why there is none.
pub open spec fn is_decoded(
    candidates: Seq<Vec<SlotLlr>>,
    best_effort: bool,
    r: Result<(ProfileCfg, Vec<u8>), DecodeError>,
) -> bool {
    match r {
        Ok(x) => {
            let sys = assembled(candidates[x.0.id as int]@, x.0);
            &&& is_first_lock(candidates, x.0.id as int)
            &&& params::profile_numbered(x.0.id) == Some(x.0)
            &&& session::is_payload(x.1@, sys, x.0.r_meta as nat, best_effort)
        },
        Err(DecodeError::NoProfileLock) => forall|p: int| !is_first_lock(candidates, p),
        Err(DecodeError::Payload(e)) => exists|p: int| #[trigger]
            is_first_lock(candidates, p) && session::is_payload_fault(
                e,
                assembled(candidates[p]@, params::profile_numbered(p as u8)->0),
                params::profile_numbered(p as u8)->0.r_meta as nat,
                best_effort,
            ),
    }
}

/// Decodes a file from the slots as each profile in turn reads them.
pub fn decode(candidates: &[Vec<SlotLlr>], best_effort: bool) -> (r: Result<
    (ProfileCfg, Vec<u8>),
    DecodeError,
>)
    requires
        candidates@.len() <= 3,
        candidates_fit(candidates@),
    ensures
        is_decoded(candidates@, best_effort, r),
{
    let (profile, sys_bytes): (ProfileCfg, Vec<u8>) = match lock_profile(candidates) {
        Some(x) => x,
        None => {
            return Err(DecodeError::NoProfileLock);
        },
    };
    proof {
        session::lemma_recovered_len(sys_bytes@, profile.r_meta as nat);
        if let Some(m) = session::recovered_meta(sys_bytes@, profile.r_meta as nat) {
            assert(m.meta_len * 4 <= 46 * 4);
        }
    }
    match session::extract_verified_payload(sys_bytes.as_slice(), profile.r_meta, best_effort) {
        Ok(payload) => Ok((profile, payload)),
        Err(e) => {
            assert(is_first_lock(candidates@, profile.id as int));
            Err(DecodeError::Payload(e))
        },
    }
}

/// Slots whose systematic bits arrive whole make a stream that starts with the one that was sent.
pub proof fn law_received_stream_starts_with_sent(
    slots: Seq<SlotLlr>,
    stream: Seq<u8>,
    profile: ProfileCfg,
)
    requires
        profile.b_sys > 0,
        profile.b_par > 0,
        slots_have_sizes(slots, profile),
        ({
            let sys = bitstream::unpacked(stream);
            let n = mapper::slot_count(sys.len(), fec::accumulated(sys).len(), profile);
            &&& n <= slots.len()
            &&& forall|t: int|
                0 <= t < n ==> !float_bits::less((#[trigger] slots[t]).q_pilot, 0x3EB3_3333)
                    && bitstream::hard_bits(slots[t].sys_llr@) == mapper::piece(
                    sys,
                    profile.b_sys as nat,
                    t,
                )
        }),
    ensures
        stream.len() <= assembled(slots, profile).len(),
        assembled(slots, profile).take(stream.len() as int) == stream,
{
    let b = profile.b_sys as int;
    let sys = bitstream::unpacked(stream);
    let n = mapper::slot_count(sys.len(), fec::accumulated(sys).len(), profile);
    let bits = bitstream::hard_bits(stream_llr(slots, profile));
    let c = crate::util::ceil_div(sys.len(), profile.b_sys as nat);
    vstd::arithmetic::div_mod::lemma_fundamental_div_mod(sys.len() as int, b);
    let q = sys.len() as int / b;
    assert(sys.len() <= c * b) by (nonlinear_arith)
        requires
            sys.len() == b * q + sys.len() as int % b,
            0 <= sys.len() as int % b < b,
            c == if sys.len() as int % b == 0 {
                q
            } else {
                q + 1
            },
    ;
    assert(c * b <= slots.len() * b) by (nonlinear_arith)
        requires
            c <= slots.len(),
            b > 0,
    ;
    assert forall|i: int| 0 <= i < sys.len() implies bits[i] == sys[i] by {
        let t = i / b;
        vstd::arithmetic::div_mod::lemma_fundamental_div_mod(i, b);
        assert(0 <= t < c) by (nonlinear_arith)
            requires
                i == b * t + i % b,
                0 <= i % b < b,
                0 <= i < c * b,
                t == i / b,
                b > 0,
        ;
        assert(t * b == b * t) by (nonlinear_arith);
        assert(bitstream::hard_bits(slots[t].sys_llr@)[i % b] == mapper::piece(
            sys,
            profile.b_sys as nat,
            t,
        )[i % b]);
    }
    bitstream::law_pack_undoes_unpack(stream);
    let out = bitstream::packed(bits);
    assert forall|j: int| 0 <= j < stream.len() implies out[j] == stream[j] by {
        bitstream::lemma_same_byte(bits, sys, j);
        assert(bitstream::packed(sys)[j] == stream[j]);
    }
    assert(out.take(stream.len() as int) =~= stream);
}

/// Slots that were read too badly do not matter: whatever their soft bits, the same bytes come of
/// all slots, as if nothing were known of them.
pub proof fn law_bad_slots_do_not_matter(a: Seq<SlotLlr>, b: Seq<SlotLlr>, profile: ProfileCfg)
    requires
        profile.b_sys > 0,
        a.len() == b.len(),
        forall|t: int|
            0 <= t < a.len() ==> {
                let (x, y) = (#[trigger] a[t], b[t]);
                ||| float_bits::less(x.q_pilot, 0x3EB3_3333) && float_bits::less(
                    y.q_pilot,
                    0x3EB3_3333,
                )
                ||| !float_bits::less(x.q_pilot, 0x3EB3_3333) && !float_bits::less(
                    y.q_pilot,
                    0x3EB3_3333,
                ) && x.sys_llr@ == y.sys_llr@
            },
    ensures
        assembled(a, profile) == assembled(b, profile),
{
    let n = profile.b_sys as int;
    let (x, y) = (stream_llr(a, profile), stream_llr(b, profile));
    assert forall|i: int| 0 <= i < x.len() implies x[i] == y[i] by {
        vstd::arithmetic::div_mod::lemma_fundamental_div_mod(i, n);
        vstd::arithmetic::div_mod::lemma_mod_bound(i, n);
        assert(0 <= i / n < a.len()) by (nonlinear_arith)
            requires
                i == n * (i / n) + i % n,
                0 <= i % n < n,
                0 <= i < a.len() * n,
        ;
        assert(a[i / n] == a[i / n]);
    }
    assert(x =~= y);
}

/// A slot that was read well enough decides on its bits of the stream, and one that was not leaves
/// them at zero.
pub proof fn law_slot_decides_on_its_bits(slots: Seq<SlotLlr>, profile: ProfileCfg, t: int, i: int)
    requires
        0 <= t < slots.len(),
        0 <= i < profile.b_sys,
    ensures
        t * profile.b_sys + i < bitstream::hard_bits(stream_llr(slots, profile)).len(),
        bitstream::hard_bits(stream_llr(slots, profile))[t * profile.b_sys + i]
            == if float_bits::less(slots[t].q_pilot, 0x3EB3_3333) {
            0
        } else {
            bitstream::hard_bit(slots[t].sys_llr@[i])
        },
{
    let n = profile.b_sys as int;
    vstd::arithmetic::div_mod::lemma_fundamental_div_mod_converse(t * n + i, n, t, i);
    assert(0 <= t * n && t * n + n <= slots.len() * n) by (nonlinear_arith)
        requires
            0 <= t,
            t + 1 <= slots.len(),
            n > 0,
    ;
}

} // verus!
