//! What holds of encoding and decoding as a whole.
use crate::bitstream;
use crate::checksum;
use crate::decoder;
use crate::decoder::DecodeError;
use crate::encoder;
use crate::fec;
use crate::float_bits;
use crate::mapper;
use crate::params;
use crate::params::ProfileCfg;
use crate::phy_channel;
use crate::phy_channel::{BlockOffset, FrameReading, SlotLlr, SlotPayloadBits};
use crate::phy_layout;
use crate::phy_layout::FrameLayout;
use crate::session;
use vstd::prelude::*;

verus! {

/// Each frame is read in place, well enough, and its soft bits tell a one from a zero.
pub open spec fn reads_cleanly(readings: Seq<FrameReading>, heavy_geom: bool) -> bool {
    forall|f: int|
        #![trigger readings[f]]
        0 <= f < readings.len() ==> {
            let r = readings[f];
            &&& phy_channel::is_synced(r, heavy_geom)
            &&& r.offset == (BlockOffset { dx: 0, dy: 0 })
            &&& phy_channel::tells_bits_apart(r.llr_by_luma@)
            &&& !float_bits::less(r.q_frame, 0x3EB3_3333)
        }
}

/// The slots read from clean frames carry the bits that were sent, or the first of them where the
/// reading profile has fewer.
pub proof fn lemma_slot_comes_back(
    bytes: Seq<u8>,
    l: FrameLayout,
    sent: Seq<SlotPayloadBits>,
    profile: ProfileCfg,
    reader: ProfileCfg,
    heavy_geom: bool,
    readings: Seq<FrameReading>,
    got: Seq<SlotLlr>,
    t: int,
)
    requires
        phy_layout::layout_fault(l.width, l.height, profile) is None,
        phy_layout::is_layout(l, l.width, l.height, profile.slots_per_frame as int),
        profile.slots_per_frame > 0,
        profile.b_sys + profile.b_par == profile.coded_bits_per_slot,
        phy_channel::carries(bytes, l, sent, profile),
        readings.len() == phy_channel::frames_for(sent.len(), profile.slots_per_frame as nat),
        reads_cleanly(readings, heavy_geom),
        phy_channel::slots_of_frames(
            got,
            bytes,
            l,
            readings,
            reader,
            heavy_geom,
            readings.len() as int,
        ),
        0 <= t < sent.len(),
        sent[t].sys_bits@.len() == profile.b_sys,
        reader.b_sys <= profile.b_sys,
        bitstream::are_bits(sent[t].sys_bits@),
    ensures
        t < got.len(),
        bitstream::hard_bits(got[t].sys_llr@) == sent[t].sys_bits@.take(reader.b_sys as int),
        !float_bits::less(got[t].q_pilot, 0x3EB3_3333),
{
    let spf = profile.slots_per_frame as int;
    let per = l.slot_blocks@.len() as int;
    let n = readings.len() as int;
    phy_layout::lemma_slots_len(l.bx_n as int, l.by_n as int, spf);
    assert(per == spf);
    let f = t / spf;
    let k = t % spf;
    vstd::arithmetic::div_mod::lemma_fundamental_div_mod(t, spf);
    vstd::arithmetic::div_mod::lemma_fundamental_div_mod(sent.len() as int, spf);
    let q = sent.len() as int / spf;
    assert(f * spf == spf * f) by (nonlinear_arith);
    assert(0 <= f < n) by (nonlinear_arith)
        requires
            t == spf * f + k,
            0 <= k < spf,
            0 <= t < sent.len(),
            sent.len() == spf * q + sent.len() as int % spf,
            0 <= sent.len() as int % spf < spf,
            n == if sent.len() as int % spf == 0 {
                q
            } else {
                q + 1
            },
    ;
    assert(f * per + k < n * per) by (nonlinear_arith)
        requires
            0 <= f,
            f + 1 <= n,
            0 <= k < per,
    ;
    assert(got[f * per + k] == got[t]);
    assert(phy_channel::is_slot_of(
        got[f * per + k],
        phy_channel::frame_at(bytes, l.frame_bytes as int, f),
        l,
        l.slot_blocks@[k],
        readings[f],
        reader,
        heavy_geom,
    ));
    phy_channel::lemma_drawn_prefix_reads_back(
        bytes,
        l,
        sent,
        profile,
        reader,
        heavy_geom,
        readings[f],
        got[t],
        f,
        k,
    );
}

/// Whatever is read has the profile's sizes.
pub proof fn lemma_read_sizes(
    bytes: Seq<u8>,
    l: FrameLayout,
    profile: ProfileCfg,
    heavy_geom: bool,
    readings: Seq<FrameReading>,
    got: Seq<SlotLlr>,
)
    requires
        l.slot_blocks@.len() > 0,
        phy_channel::slots_of_frames(
            got,
            bytes,
            l,
            readings,
            profile,
            heavy_geom,
            readings.len() as int,
        ),
    ensures
        decoder::slots_have_sizes(got, profile),
{
    let per = l.slot_blocks@.len() as int;
    let n = readings.len() as int;
    assert forall|t: int| 0 <= t < got.len() implies (#[trigger] got[t]).sys_llr@.len()
        == profile.b_sys && got[t].par_llr@.len() == profile.b_par by {
        let f = t / per;
        let k = t % per;
        vstd::arithmetic::div_mod::lemma_fundamental_div_mod(t, per);
        assert(f * per == per * f) by (nonlinear_arith);
        assert(0 <= f < n) by (nonlinear_arith)
            requires
                t == per * f + k,
                0 <= k < per,
                0 <= t < n * per,
        ;
        assert(phy_channel::is_slot_of(
            got[f * per + k],
            phy_channel::frame_at(bytes, l.frame_bytes as int, f),
            l,
            l.slot_blocks@[k],
            readings[f],
            profile,
            heavy_geom,
        ));
    }
}

/// A slot of a stream, read from clean frames, carries its piece of the stream.
proof fn lemma_sent_piece_comes_back(
    stream: Seq<u8>,
    profile: ProfileCfg,
    l: FrameLayout,
    slots: Seq<SlotPayloadBits>,
    sent: Seq<SlotPayloadBits>,
    extra: nat,
    bytes: Seq<u8>,
    heavy_geom: bool,
    readings: Seq<FrameReading>,
    got: Seq<SlotLlr>,
    t: int,
)
    requires
        params::profile_numbered(profile.id) == Some(profile),
        phy_layout::layout_fault(l.width, l.height, profile) is None,
        phy_layout::is_layout(l, l.width, l.height, profile.slots_per_frame as int),
        encoder::are_slots_of(slots, stream, profile),
        encoder::is_repeated_last(sent, slots, extra),
        phy_channel::carries(bytes, l, sent, profile),
        readings.len() == phy_channel::frames_for(sent.len(), profile.slots_per_frame as nat),
        reads_cleanly(readings, heavy_geom),
        phy_channel::slots_of_frames(
            got,
            bytes,
            l,
            readings,
            profile,
            heavy_geom,
            readings.len() as int,
        ),
        0 <= t < slots.len(),
    ensures
        t < got.len(),
        !float_bits::less(got[t].q_pilot, 0x3EB3_3333),
        bitstream::hard_bits(got[t].sys_llr@) == mapper::piece(
            bitstream::unpacked(stream),
            profile.b_sys as nat,
            t,
        ),
{
    let bits = bitstream::unpacked(stream);
    bitstream::lemma_unpacked_are_bits(stream);
    assert(encoder::same_slot(sent[t], slots[t]));
    let piece = mapper::piece(bits, profile.b_sys as nat, t);
    assert(slots[t].sys_bits@ == piece);
    assert(t * profile.b_sys >= 0) by (nonlinear_arith)
        requires
            t >= 0,
            profile.b_sys >= 0,
    ;
    lemma_piece_is_bits(bits, profile.b_sys as nat, t);
    lemma_slot_comes_back(bytes, l, sent, profile, profile, heavy_geom, readings, got, t);
    assert(piece.take(profile.b_sys as int) =~= piece);
}

/// A file that is encoded, and whose frames are read cleanly, comes back: the stream names its
/// profile, and its payload is the file, with the checksum that the metadata carry.
pub proof fn law_file_comes_back(
    data: Seq<u8>,
    profile: ProfileCfg,
    l: FrameLayout,
    slots: Seq<SlotPayloadBits>,
    sent: Seq<SlotPayloadBits>,
    extra: nat,
    bytes: Seq<u8>,
    heavy_geom: bool,
    readings: Seq<FrameReading>,
    got: Seq<SlotLlr>,
    best_effort: bool,
)
    requires
        params::profile_numbered(profile.id) == Some(profile),
        0 < data.len(),
        46 * profile.r_meta + data.len() <= usize::MAX,
        phy_layout::layout_fault(l.width, l.height, profile) is None,
        phy_layout::is_layout(l, l.width, l.height, profile.slots_per_frame as int),
        encoder::are_slots_of(slots, encoder::stream_of(data, profile), profile),
        encoder::is_repeated_last(sent, slots, extra),
        phy_channel::carries(bytes, l, sent, profile),
        readings.len() == phy_channel::frames_for(sent.len(), profile.slots_per_frame as nat),
        reads_cleanly(readings, heavy_geom),
        phy_channel::slots_of_frames(
            got,
            bytes,
            l,
            readings,
            profile,
            heavy_geom,
            readings.len() as int,
        ),
    ensures
        ({
            let sys = decoder::assembled(got, profile);
            &&& decoder::locks(sys, profile)
            &&& session::is_payload(data, sys, profile.r_meta as nat, best_effort)
        }),
{
    let stream = encoder::stream_of(data, profile);
    let bits = bitstream::unpacked(stream);
    let n = mapper::slot_count(bits.len(), fec::accumulated(bits).len(), profile);
    bitstream::lemma_unpacked_are_bits(stream);
    phy_layout::lemma_slots_len(l.bx_n as int, l.by_n as int, profile.slots_per_frame as int);
    lemma_read_sizes(bytes, l, profile, heavy_geom, readings, got);
    assert forall|t: int| 0 <= t < n implies t < got.len() && !float_bits::less(
        (#[trigger] got[t]).q_pilot,
        0x3EB3_3333,
    ) && bitstream::hard_bits(got[t].sys_llr@) == mapper::piece(
        bits,
        profile.b_sys as nat,
        t,
    ) by {
        lemma_sent_piece_comes_back(
            stream,
            profile,
            l,
            slots,
            sent,
            extra,
            bytes,
            heavy_geom,
            readings,
            got,
            t,
        );
    }
    assert(n <= got.len()) by {
        if n > 0 {
            lemma_sent_piece_comes_back(
                stream,
                profile,
                l,
                slots,
                sent,
                extra,
                bytes,
                heavy_geom,
                readings,
                got,
                n - 1,
            );
        }
    }
    decoder::law_received_stream_starts_with_sent(got, stream, profile);
    let hash = checksum::sha256_of(data)@;
    let sys = decoder::assembled(got, profile);
    let rest = sys.skip(stream.len() as int);
    assert(sys =~= stream + rest);
    session::law_strengthened_payload_is_the_file(
        profile.id,
        data,
        hash,
        rest,
        profile.r_meta as nat,
    );
}

/// Decoding gives the file back, under the profile that it was sent with, where no profile of a
/// lower number finds its own number in the frames.
pub proof fn law_decoding_gives_file(
    data: Seq<u8>,
    profile: ProfileCfg,
    l: FrameLayout,
    slots: Seq<SlotPayloadBits>,
    sent: Seq<SlotPayloadBits>,
    extra: nat,
    bytes: Seq<u8>,
    heavy_geom: bool,
    readings: Seq<FrameReading>,
    candidates: Seq<Vec<SlotLlr>>,
    best_effort: bool,
    r: Result<(ProfileCfg, Vec<u8>), DecodeError>,
)
    requires
        params::profile_numbered(profile.id) == Some(profile),
        0 < data.len(),
        46 * profile.r_meta + data.len() <= usize::MAX,
        phy_layout::layout_fault(l.width, l.height, profile) is None,
        phy_layout::is_layout(l, l.width, l.height, profile.slots_per_frame as int),
        encoder::are_slots_of(slots, encoder::stream_of(data, profile), profile),
        encoder::is_repeated_last(sent, slots, extra),
        phy_channel::carries(bytes, l, sent, profile),
        readings.len() == phy_channel::frames_for(sent.len(), profile.slots_per_frame as nat),
        reads_cleanly(readings, heavy_geom),
        profile.id < candidates.len(),
        phy_channel::slots_of_frames(
            candidates[profile.id as int]@,
            bytes,
            l,
            readings,
            profile,
            heavy_geom,
            readings.len() as int,
        ),
        forall|q: int|
            #![trigger candidates[q]]
            0 <= q < profile.id ==> !decoder::locks(
                decoder::assembled(candidates[q]@, params::profile_numbered(q as u8)->0),
                params::profile_numbered(q as u8)->0,
            ),
        decoder::is_decoded(candidates, best_effort, r),
    ensures
        r is Ok,
        r->Ok_0.0 == profile,
        r->Ok_0.1@ == data,
{
    law_file_comes_back(
        data,
        profile,
        l,
        slots,
        sent,
        extra,
        bytes,
        heavy_geom,
        readings,
        candidates[profile.id as int]@,
        best_effort,
    );
    let p = profile.id as int;
    assert(decoder::is_first_lock(candidates, p));
    assert forall|q: int| decoder::is_first_lock(candidates, q) implies q == p by {
        assert(candidates[p] == candidates[p] && candidates[q] == candidates[q]);
    }
}

pub proof fn lemma_piece_is_bits(stream: Seq<u8>, n: nat, t: int)
    requires
        bitstream::are_bits(stream),
        t * n >= 0,
    ensures
        bitstream::are_bits(mapper::piece(stream, n, t)),
{
    let p = mapper::piece(stream, n, t);
    assert forall|i: int| 0 <= i < p.len() implies (#[trigger] p[i] == 0 || p[i] == 1) by {
        if t * n + i < stream.len() {
            assert(stream[t * n + i] == 0 || stream[t * n + i] == 1);
        }
    }
}

} // verus!
