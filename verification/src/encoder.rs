//! A file turned into frames.
use crate::bitstream;
use crate::checksum;
use crate::fec;
use crate::fec::FecEncoded;
use crate::float_bits;
use crate::mapper;
use crate::params;
use crate::params::{ConfigError, ProfileCfg, Y_BLOCK};
use crate::phy_channel;
use crate::phy_channel::SlotPayloadBits;
use crate::phy_layout;
use crate::phy_layout::{FrameLayout, LayoutError};
use crate::session;
use crate::session::{FileIntegrity, StreamMeta, META_LEN_CURRENT};
use crate::util;
use vstd::prelude::*;

verus! {

/// Why a file is not encoded.
#[derive(Clone, Copy, Debug, PartialEq, Eq)]
pub enum EncodeError {
    NotBlockAligned,
    OverheadOutOfRange,
    Config(ConfigError),
    EmptyInput,
    Layout(LayoutError),
}

/// The share of slots that may be sent again, a bit pattern, is from 0 to 2.
pub open spec fn overhead_in_range(max_overhead: u32) -> bool {
    float_bits::at_least(max_overhead, 0) && float_bits::at_least(0x4000_0000, max_overhead)
}

/// What stands against a request before the file is looked at.
pub open spec fn request_fault(width: usize, height: usize, profile_id: u8, max_overhead: u32) -> Option<
    EncodeError,
> {
    if width % 32 != 0 || height % 32 != 0 {
        Some(EncodeError::NotBlockAligned)
    } else if !overhead_in_range(max_overhead) {
        Some(EncodeError::OverheadOutOfRange)
    } else if params::profile_numbered(profile_id) is None {
        Some(EncodeError::Config(ConfigError::UnknownProfile))
    } else {
        None
    }
}

/// The profile of a request that nothing stands against.
pub fn check_request(width: usize, height: usize, profile_id: u8, max_overhead: u32) -> (r: Result<
    ProfileCfg,
    EncodeError,
>)
    ensures
        match r {
            Ok(p) => request_fault(width, height, profile_id, max_overhead) is None
                && params::profile_numbered(profile_id) == Some(p),
            Err(e) => request_fault(width, height, profile_id, max_overhead) == Some(e),
        },
{
    if width % Y_BLOCK != 0 || height % Y_BLOCK != 0 {
        return Err(EncodeError::NotBlockAligned);
    }
    if !(float_bits::is_at_least(max_overhead, 0) && float_bits::is_at_least(
        0x4000_0000,
        max_overhead,
    )) {
        return Err(EncodeError::OverheadOutOfRange);
    }
    match params::cfg(profile_id) {
        Ok(p) => Ok(p),
        Err(e) => Err(EncodeError::Config(e)),
    }
}

/// The stream of a file whose digest is `hash`: its metadata several times, then the file.
pub open spec fn stream_with(data: Seq<u8>, profile: ProfileCfg, hash: Seq<u8>) -> Seq<u8> {
    session::repeated(
        session::meta_record(profile.id, data.len() as u64, hash),
        profile.r_meta as nat,
    ) + data
}

/// The stream of a file.
pub open spec fn stream_of(data: Seq<u8>, profile: ProfileCfg) -> Seq<u8> {
    stream_with(data, profile, checksum::sha256_of(data)@)
}

/// How many slots the stream of a file takes.
pub open spec fn slots_for_len(data_len: nat, profile: ProfileCfg) -> nat {
    let stream_len = 46 * profile.r_meta + data_len;
    mapper::slot_count((8 * stream_len) as nat, (16 * stream_len) as nat, profile)
}

/// The slots of a stream: the pieces of its bits and of their parity stream.
pub open spec fn are_slots_of(
    slots: Seq<SlotPayloadBits>,
    stream: Seq<u8>,
    profile: ProfileCfg,
) -> bool {
    let sys = bitstream::unpacked(stream);
    let par = fec::accumulated(sys);
    &&& slots.len() == mapper::slot_count(sys.len(), par.len(), profile)
    &&& forall|t: int|
        0 <= t < slots.len() ==> (#[trigger] slots[t]).sys_bits@ == mapper::piece(
            sys,
            profile.b_sys as nat,
            t,
        ) && slots[t].par_bits@ == mapper::piece(par, profile.b_par as nat, t)
}

/// The sizes that come up in encoding can be counted.
pub open spec fn stream_fits(data_len: nat, profile: ProfileCfg) -> bool {
    &&& profile.b_sys > 0
    &&& profile.b_par > 0
    &&& 16 * (46 * profile.r_meta + data_len) <= usize::MAX
    &&& slots_for_len(data_len, profile) * profile.b_sys <= usize::MAX
    &&& slots_for_len(data_len, profile) * profile.b_par <= usize::MAX
}

/// How many slots the stream of a file takes.
pub fn slots_needed(data_len: usize, profile: ProfileCfg) -> (n: usize)
    requires
        stream_fits(data_len as nat, profile),
    ensures
        n == slots_for_len(data_len as nat, profile),
{
    let stream_len: usize = META_LEN_CURRENT * profile.r_meta + data_len;
    let a: usize = util::div_ceil(8 * stream_len, profile.b_sys);
    let b: usize = util::div_ceil(16 * stream_len, profile.b_par);
    if a >= b {
        a
    } else {
        b
    }
}

/// The slots of a file whose digest is `hash`.
pub fn slots_with_hash(data: &[u8], profile: ProfileCfg, hash: [u8; 32]) -> (slots: Vec<
    SlotPayloadBits,
>)
    requires
        stream_fits(data@.len(), profile),
    ensures
        are_slots_of(slots@, stream_with(data@, profile, hash@), profile),
        slots@.len() == slots_for_len(data@.len(), profile),
{
    let meta: StreamMeta = StreamMeta {
        profile: profile.id,
        file_len: data.len() as u64,
        file_integrity: FileIntegrity::Sha256(hash),
        meta_len: META_LEN_CURRENT,
    };
    let meta_bytes: Vec<u8> = session::build_meta_bytes(&meta);
    let src: Vec<u8> = session::prefix_strengthen(meta_bytes.as_slice(), data, profile.r_meta);
    proof {
        assert(src@ == stream_with(data@, profile, hash@));
        session::lemma_repeated_len(meta_bytes@, profile.r_meta as nat);
        assert(profile.r_meta * 46 == 46 * profile.r_meta);
    }
    let coded: FecEncoded = fec::encode_systematic_ra(src.as_slice());
    mapper::build_slot_payloads(coded.sys_stream.as_slice(), coded.par_stream.as_slice(), profile)
}

/// The slots of a file.
pub fn encode_slots(data: &[u8], profile: ProfileCfg) -> (slots: Vec<SlotPayloadBits>)
    requires
        stream_fits(data@.len(), profile),
    ensures
        are_slots_of(slots@, stream_of(data@, profile), profile),
        slots@.len() == slots_for_len(data@.len(), profile),
{
    slots_with_hash(data, profile, checksum::sha256_bytes(data))
}

/// Two slots carry the same bits.
pub open spec fn same_slot(a: SlotPayloadBits, b: SlotPayloadBits) -> bool {
    a.sys_bits@ == b.sys_bits@ && a.par_bits@ == b.par_bits@
}

/// The slots followed by `extra` more like the last one, if there is a last one.
pub open spec fn is_repeated_last(
    out: Seq<SlotPayloadBits>,
    slots: Seq<SlotPayloadBits>,
    extra: nat,
) -> bool {
    &&& out.len() == if slots.len() == 0 {
        0
    } else {
        slots.len() + extra
    }
    &&& forall|t: int| 0 <= t < slots.len() ==> same_slot(#[trigger] out[t], slots[t])
    &&& forall|t: int| slots.len() <= t < out.len() ==> same_slot(#[trigger] out[t], slots.last())
}

/// Appends `extra` copies of the last slot.
pub fn repeat_last_slot(slots: Vec<SlotPayloadBits>, extra: usize) -> (out: Vec<SlotPayloadBits>)
    requires
        slots@.len() + extra <= usize::MAX,
    ensures
        is_repeated_last(out@, slots@, extra as nat),
{
    let ghost start = slots@;
    let n: usize = slots.len();
    let mut out: Vec<SlotPayloadBits> = slots;
    if n == 0 {
        return out;
    }
    let mut i: usize = 0;
    while i < extra
        invariant
            i <= extra,
            n == start.len(),
            n > 0,
            n + extra <= usize::MAX,
            out@.len() == n + i,
            forall|t: int| 0 <= t < n ==> same_slot(#[trigger] out@[t], start[t]),
            forall|t: int| n <= t < out@.len() ==> same_slot(#[trigger] out@[t], start.last()),
        decreases extra - i,
    {
        let sys_bits: Vec<u8> = util::copy_range(
            out[n - 1].sys_bits.as_slice(),
            0,
            out[n - 1].sys_bits.len(),
        );
        let par_bits: Vec<u8> = util::copy_range(
            out[n - 1].par_bits.as_slice(),
            0,
            out[n - 1].par_bits.len(),
        );
        proof {
            assert(same_slot(out@[n - 1], start[n - 1]));
            assert(sys_bits@ =~= start.last().sys_bits@);
            assert(par_bits@ =~= start.last().par_bits@);
        }
        out.push(SlotPayloadBits { sys_bits, par_bits });
        i = i + 1;
    }
    out
}

/// The frames of a file: its slots, the last of them `extra_slots` more times where there is any
/// overhead, drawn frame by frame.
pub open spec fn is_encoding(
    out: Seq<u8>,
    data: Seq<u8>,
    width: usize,
    height: usize,
    profile: ProfileCfg,
    max_overhead: u32,
    extra_slots: nat,
) -> bool {
    exists|l: FrameLayout, slots: Seq<SlotPayloadBits>, sent: Seq<SlotPayloadBits>|
        #![trigger phy_channel::carries(out, l, sent, profile), are_slots_of(slots, stream_of(data, profile), profile)]
        {
            &&& phy_layout::is_layout(l, width, height, profile.slots_per_frame as int)
            &&& are_slots_of(slots, stream_of(data, profile), profile)
            &&& is_repeated_last(
                sent,
                slots,
                if float_bits::less(0, max_overhead) {
                    extra_slots
                } else {
                    0
                },
            )
            &&& phy_channel::carries(out, l, sent, profile)
        }
}

/// Encodes a file. `extra_slots` is the number of slots that `max_overhead` allows to be sent
/// again: [`slots_needed`] times that share.
pub fn encode(
    data: &[u8],
    width: usize,
    height: usize,
    profile_id: u8,
    max_overhead: u32,
    extra_slots: usize,
) -> (r: Result<Vec<u8>, EncodeError>)
    requires
        request_fault(width, height, profile_id, max_overhead) is None ==> {
            let p = params::profile_numbered(profile_id)->0;
            let sent = slots_for_len(data@.len(), p) + extra_slots;
            let frames = phy_channel::frames_for(sent as nat, 384);
            &&& stream_fits(data@.len(), p)
            &&& sent <= usize::MAX
            &&& (width / 32) * (height / 32) <= usize::MAX
            &&& frames * phy_layout::frame_size(width as int, height as int) <= usize::MAX
            &&& frames * 384 <= usize::MAX
        },
    ensures
        match request_fault(width, height, profile_id, max_overhead) {
            Some(e) => r == Err::<Vec<u8>, EncodeError>(e),
            None => {
                let p = params::profile_numbered(profile_id)->0;
                if data@.len() == 0 {
                    r == Err::<Vec<u8>, EncodeError>(EncodeError::EmptyInput)
                } else {
                    match phy_layout::layout_fault(width, height, p) {
                        Some(e) => r == Err::<Vec<u8>, EncodeError>(EncodeError::Layout(e)),
                        None => r is Ok && is_encoding(
                            r->Ok_0@,
                            data@,
                            width,
                            height,
                            p,
                            max_overhead,
                            extra_slots as nat,
                        ),
                    }
                }
            },
        },
{
    let profile: ProfileCfg = match check_request(width, height, profile_id, max_overhead) {
        Ok(p) => p,
        Err(e) => {
            return Err(e);
        },
    };
    if data.len() == 0 {
        return Err(EncodeError::EmptyInput);
    }
    let slots: Vec<SlotPayloadBits> = encode_slots(data, profile);
    let ghost cut = slots@;
    let extra: usize = if float_bits::is_less(0, max_overhead) {
        extra_slots
    } else {
        0
    };
    let sent: Vec<SlotPayloadBits> = repeat_last_slot(slots, extra);
    proof {
        lemma_frame_bounds(
            sent@.len(),
            (cut.len() + extra_slots) as nat,
            phy_layout::frame_size(width as int, height as int),
            width,
            height,
        );
        assert forall|k: int| 0 <= k < sent@.len() implies (#[trigger] sent@[k]).sys_bits@.len()
            <= 1024 by {
            if k < cut.len() {
                assert(same_slot(sent@[k], cut[k]));
                assert(cut[k].sys_bits@.len() == profile.b_sys);
            } else {
                assert(same_slot(sent@[k], cut.last()));
                assert(cut[cut.len() - 1].sys_bits@.len() == profile.b_sys);
            }
        }
    }
    match phy_channel::pack_slots_to_yuv420(sent.as_slice(), width, height, profile) {
        Ok(out) => {
            proof {
                let l = choose|l: FrameLayout| #[trigger]
                    phy_layout::is_layout(l, width, height, profile.slots_per_frame as int)
                        && phy_channel::carries(out@, l, sent@, profile);
                assert(phy_channel::carries(out@, l, sent@, profile));
                assert(are_slots_of(cut, stream_of(data@, profile), profile));
            }
            Ok(out)
        },
        Err(e) => Err(EncodeError::Layout(e)),
    }
}

proof fn lemma_frame_bounds(sent: nat, most: nat, size: int, width: usize, height: usize)
    requires
        sent <= most,
        size == phy_layout::frame_size(width as int, height as int),
        phy_channel::frames_for(most, 384) * size <= usize::MAX,
        phy_channel::frames_for(most, 384) * 384 <= usize::MAX,
    ensures
        size <= usize::MAX,
        phy_channel::frames_for(sent, 384) * size <= usize::MAX,
        phy_channel::frames_for(sent, 384) * 384 <= usize::MAX,
{
    let a = phy_channel::frames_for(sent, 384);
    let b = phy_channel::frames_for(most, 384);
    assert(width * height >= 0) by (nonlinear_arith)
        requires
            width >= 0,
            height >= 0,
    ;
    assert(1 <= a <= b);
    assert(a * size <= b * size && size <= b * size) by (nonlinear_arith)
        requires
            1 <= a <= b,
            size >= 0,
    ;
}

} // verus!
