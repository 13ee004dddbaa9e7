//! A profile of a lower number does not take a file for its own.
use crate::bitstream;
use crate::bytes;
use crate::checksum;
use crate::decoder;
use crate::decoder::DecodeError;
use crate::encoder;
use crate::float_bits;
use crate::laws;
use crate::mapper;
use crate::params;
use crate::params::ProfileCfg;
use crate::phy_channel;
use crate::phy_channel::{FrameReading, SlotLlr, SlotPayloadBits};
use crate::phy_layout;
use crate::phy_layout::FrameLayout;
use crate::session;
use crate::session::Meta;
use vstd::prelude::*;

verus! {

/// Where byte `r` of a stream comes from that was sent with `sent` bytes in each slot and is read
/// with `read` bytes.
pub open spec fn source_of(r: int, sent: int, read: int) -> int {
    (r / read) * sent + r % read
}

/// Byte `i` of a stream, and zero behind its end.
pub open spec fn byte_at(stream: Seq<u8>, i: int) -> u8 {
    if i < stream.len() {
        stream[i]
    } else {
        0
    }
}

/// A byte that another profile reads.
proof fn lemma_misread_byte(
    got: Seq<SlotLlr>,
    reader: ProfileCfg,
    stream: Seq<u8>,
    sender: ProfileCfg,
    sent: int,
    read: int,
    r: int,
)
    requires
        sender.b_sys == 8 * sent,
        reader.b_sys == 8 * read,
        0 < read <= sent,
        0 <= r,
        r / read < got.len(),
        ({
            let d = got[r / read];
            &&& d.sys_llr@.len() == reader.b_sys
            &&& !float_bits::less(d.q_pilot, 0x3EB3_3333)
            &&& bitstream::hard_bits(d.sys_llr@) == mapper::piece(
                bitstream::unpacked(stream),
                sender.b_sys as nat,
                r / read,
            ).take(reader.b_sys as int)
        }),
    ensures
        r < decoder::assembled(got, reader).len(),
        decoder::assembled(got, reader)[r] == byte_at(stream, source_of(r, sent, read)),
{
    let bits = bitstream::hard_bits(decoder::stream_llr(got, reader));
    let t = r / read;
    let o = r % read;
    let s = source_of(r, sent, read);
    let x = byte_at(stream, s);
    vstd::arithmetic::div_mod::lemma_fundamental_div_mod(r, read);
    assert(0 <= t) by (nonlinear_arith)
        requires
            0 <= r,
            0 < read,
            t == r / read,
    ;
    assert(8 * r + 8 <= bits.len() && 0 <= t * sent) by (nonlinear_arith)
        requires
            r == read * t + o,
            0 <= o < read,
            0 <= t < got.len(),
            0 < read <= sent,
            bits.len() == got.len() * (8 * read),
    ;
    assert forall|k: int| 0 <= k < 8 implies #[trigger] bitstream::padded_bit(bits, 8 * r + k) == (
    x >> ((7 - k) as u8)) & 1 by {
        let i = 8 * r + k;
        let at = 8 * o + k;
        assert(i == t * reader.b_sys + at) by (nonlinear_arith)
            requires
                i == 8 * r + k,
                at == 8 * o + k,
                r == read * t + o,
                reader.b_sys == 8 * read,
        ;
        vstd::arithmetic::div_mod::lemma_fundamental_div_mod_converse(
            i,
            reader.b_sys as int,
            t,
            at,
        );
        let all = bitstream::unpacked(stream);
        let piece = mapper::piece(all, sender.b_sys as nat, t);
        assert(bits[i] == bitstream::hard_bits(got[t].sys_llr@)[at]);
        assert(bits[i] == piece[at]);
        assert(t * sender.b_sys + at == 8 * s + k) by (nonlinear_arith)
            requires
                sender.b_sys == 8 * sent,
                at == 8 * o + k,
                s == t * sent + o,
        ;
        lemma_bits_keep(x, (7 - k) as u8);
        if s < stream.len() {
            assert(all[8 * s + k] == (x >> ((7 - k) as u8)) & 1);
        }
    }
    bitstream::lemma_spelled_byte(bits, r, x);
}

proof fn lemma_bits_keep(x: u8, k: u8)
    requires
        k < 8,
    ensures
        ((x >> k) & 1) & 1 == (x >> k) & 1,
        (0u8 >> k) & 1 == 0u8,
        0u8 & 1 == 0u8,
{
    assert(((x >> k) & 1) & 1 == (x >> k) & 1 && (0u8 >> k) & 1 == 0u8 && 0u8 & 1 == 0u8)
        by (bit_vector)
        requires
            k < 8,
    ;
}

/// Copy `c` starts like the metadata of a profile.
spec fn is_marked(sys: Seq<u8>, c: int, id: u8) -> bool {
    &&& sys[46 * c] == 0x46
    &&& sys[46 * c + 1] == 0x32
    &&& sys[46 * c + 2] == 0x56
    &&& sys[46 * c + 3] == 0x37
    &&& sys[46 * c + 4] == 8
    &&& sys[46 * c + 5] == id
}

/// Two of the copies behind the first start like the metadata of a profile.
spec fn has_two_marks(sys: Seq<u8>, id: u8) -> bool {
    let (m1, m2, m3) = (is_marked(sys, 1, id), is_marked(sys, 2, id), is_marked(sys, 3, id));
    m1 && m2 || m1 && m3 || m2 && m3
}

/// A copy that votes for metadata starts like them.
proof fn lemma_vote_is_marked(sys: Seq<u8>, c: int, m: Meta)
    requires
        0 <= c,
        46 * c + 46 <= sys.len(),
        session::vote_of(sys, 46, c) == Some(m),
    ensures
        is_marked(sys, c, m.profile),
{
    let copy = session::copy_at(sys, 46, c);
    assert(copy.subrange(0, 4) == session::magic());
    assert(copy.subrange(0, 4)[0] == 0x46 && copy.subrange(0, 4)[1] == 0x32 && copy.subrange(0, 4)[2]
        == 0x56 && copy.subrange(0, 4)[3] == 0x37);
}

/// A stream whose first copy names another profile is taken for one's own only where two later
/// copies start like one's own metadata.
proof fn lemma_lock_needs_two_marks(sys: Seq<u8>, reader: ProfileCfg, sender: u8, file_len: u64)
    requires
        reader.r_meta == 4,
        reader.id != sender,
        sys.len() >= 46,
        file_len > 0,
        sys.take(14) == session::magic() + seq![8u8, sender] + bytes::le_bytes(file_len as nat, 8),
        decoder::locks(sys, reader),
    ensures
        has_two_marks(sys, reader.id),
{
    bytes::lemma_le_bytes(file_len as nat, 8);
    bytes::lemma_spans();
    let head = sys.take(14);
    let copy = session::copy_at(sys, 46, 0);
    assert(copy.subrange(0, 4) =~= session::magic()) by {
        assert forall|i: int| 0 <= i < 4 implies copy[i] == session::magic()[i] by {
            assert(copy[i] == head[i]);
        }
    }
    assert(copy[4] == head[4] && copy[5] == head[5]);
    assert(copy.subrange(6, 14) =~= bytes::le_bytes(file_len as nat, 8)) by {
        assert forall|i: int| 0 <= i < 8 implies copy[6 + i] == bytes::le_bytes(
            file_len as nat,
            8,
        )[i] by {
            assert(copy[6 + i] == head[6 + i]);
        }
    }
    let first = session::parsed_meta(copy)->0;
    assert(session::vote_of(sys, 46, 0) == Some(first));
    let m = session::recovered_meta(sys, 4)->0;
    let (a, b) = session::lemma_outvotes_first(sys, 4, first, m);
    lemma_vote_is_marked(sys, a, m);
    lemma_vote_is_marked(sys, b, m);
}

/// The digest holds, where a profile of a lower number looks for its metadata, what such metadata
/// start with.
pub open spec fn digest_mimics(sender: u8, hash: Seq<u8>) -> bool {
    let mark = session::magic() + seq![8u8, 0u8];
    if sender == 1 {
        hash.subrange(10, 16) == mark || hash.subrange(18, 20) + hash.subrange(28, 32) == mark
    } else {
        sender == 2 && hash.subrange(22, 28) == mark
    }
}

/// Byte `o` of the record of a file.
spec fn record_byte(sender: u8, len: nat, hash: Seq<u8>, o: int) -> u8 {
    if o < 4 {
        session::magic()[o]
    } else if o == 4 {
        8
    } else if o == 5 {
        sender
    } else if o < 14 {
        bytes::le_bytes(len, 8)[o - 6]
    } else {
        hash[o - 14]
    }
}

/// The first bytes of a stream as a profile reads them for which it was not sent.
spec fn is_misread(sys: Seq<u8>, stream: Seq<u8>, sent: int, read: int) -> bool {
    &&& sys.len() >= 144
    &&& forall|r: int|
        0 <= r < 144 ==> #[trigger] sys[r] == byte_at(stream, source_of(r, sent, read))
}

/// What is read from byte `o` of copy `c` of the record.
proof fn lemma_read_byte(
    sys: Seq<u8>,
    data: Seq<u8>,
    sender: ProfileCfg,
    hash: Seq<u8>,
    sent: int,
    read: int,
    r: int,
    c: int,
    o: int,
)
    requires
        sender.r_meta == 4,
        hash.len() == 32,
        data.len() <= u64::MAX,
        is_misread(sys, encoder::stream_with(data, sender, hash), sent, read),
        0 <= r < 144,
        source_of(r, sent, read) == 46 * c + o,
        0 <= c < 4,
        0 <= o < 46,
    ensures
        sys[r] == record_byte(sender.id, data.len(), hash, o),
{
    let rec = session::meta_record(sender.id, data.len() as u64, hash);
    let s = encoder::stream_with(data, sender, hash);
    bytes::lemma_le_bytes(data.len(), 8);
    session::lemma_repeated_len(rec, 4);
    session::lemma_repeated(rec, 4, c, data);
    assert(session::copy_at(s, 46, c)[o] == s[c * 46 + o]);
}

/// The first copy is read up to the length of the file.
proof fn lemma_head_is_read(
    sys: Seq<u8>,
    data: Seq<u8>,
    hash: Seq<u8>,
    sender: ProfileCfg,
    sent: int,
    read: int,
)
    requires
        sender.r_meta == 4,
        hash.len() == 32,
        data.len() <= u64::MAX,
        14 <= read,
        is_misread(sys, encoder::stream_with(data, sender, hash), sent, read),
    ensures
        sys.take(14) == session::magic() + seq![8u8, sender.id] + bytes::le_bytes(
            data.len() as u64 as nat,
            8,
        ),
{
    bytes::lemma_le_bytes(data.len(), 8);
    let head = session::magic() + seq![8u8, sender.id] + bytes::le_bytes(data.len(), 8);
    assert forall|r: int| 0 <= r < 14 implies sys[r] == head[r] by {
        vstd::arithmetic::div_mod::lemma_fundamental_div_mod_converse(r, read, 0, r);
        lemma_read_byte(sys, data, sender, hash, sent, read, r, 0, r);
    }
    assert(sys.take(14) =~= head);
}

/// A file of profile 1 looks to profile 0 unlike one of its own.
proof fn lemma_second_lacks_marks_of_first(sys: Seq<u8>, data: Seq<u8>, hash: Seq<u8>, sender: ProfileCfg)
    requires
        sender.id == 1,
        sender.r_meta == 4,
        hash.len() == 32,
        16 * data.len() <= usize::MAX,
        is_misread(sys, encoder::stream_with(data, sender, hash), 36, 28),
        !digest_mimics(1, hash),
    ensures
        !has_two_marks(sys, 0),
{
    let mark = session::magic() + seq![8u8, 0u8];
    assert(!is_marked(sys, 2, 0)) by {
        if is_marked(sys, 2, 0) {
            lemma_read_byte(sys, data, sender, hash, 36, 28, 92, 2, 24);
            lemma_read_byte(sys, data, sender, hash, 36, 28, 93, 2, 25);
            lemma_read_byte(sys, data, sender, hash, 36, 28, 94, 2, 26);
            lemma_read_byte(sys, data, sender, hash, 36, 28, 95, 2, 27);
            lemma_read_byte(sys, data, sender, hash, 36, 28, 96, 2, 28);
            lemma_read_byte(sys, data, sender, hash, 36, 28, 97, 2, 29);
            assert(hash.subrange(10, 16) =~= mark);
        }
    }
    assert(!is_marked(sys, 3, 0)) by {
        if is_marked(sys, 3, 0) {
            lemma_read_byte(sys, data, sender, hash, 36, 28, 138, 3, 32);
            lemma_read_byte(sys, data, sender, hash, 36, 28, 139, 3, 33);
            lemma_read_byte(sys, data, sender, hash, 36, 28, 140, 3, 42);
            lemma_read_byte(sys, data, sender, hash, 36, 28, 141, 3, 43);
            lemma_read_byte(sys, data, sender, hash, 36, 28, 142, 3, 44);
            lemma_read_byte(sys, data, sender, hash, 36, 28, 143, 3, 45);
            assert(hash.subrange(18, 20) + hash.subrange(28, 32) =~= mark);
        }
    }
}

/// A file of profile 2 looks to profile 0 unlike one of its own.
proof fn lemma_third_lacks_marks_of_first(sys: Seq<u8>, data: Seq<u8>, hash: Seq<u8>, sender: ProfileCfg)
    requires
        sender.id == 2,
        sender.r_meta == 4,
        hash.len() == 32,
        16 * data.len() <= usize::MAX,
        is_misread(sys, encoder::stream_with(data, sender, hash), 40, 28),
        !digest_mimics(2, hash),
    ensures
        !has_two_marks(sys, 0),
{
    let mark = session::magic() + seq![8u8, 0u8];
    assert(!is_marked(sys, 1, 0)) by {
        bytes::lemma_le_bytes(data.len(), 8);
        bytes::lemma_first_byte(data.len(), 8);
        bytes::lemma_spans();
        lemma_read_byte(sys, data, sender, hash, 40, 28, 47, 1, 13);
        assert(sys[47] == bytes::be_bytes(data.len(), 8)[0]);
    }
    assert(!is_marked(sys, 2, 0)) by {
        if is_marked(sys, 2, 0) {
            lemma_read_byte(sys, data, sender, hash, 40, 28, 92, 2, 36);
            lemma_read_byte(sys, data, sender, hash, 40, 28, 93, 2, 37);
            lemma_read_byte(sys, data, sender, hash, 40, 28, 94, 2, 38);
            lemma_read_byte(sys, data, sender, hash, 40, 28, 95, 2, 39);
            lemma_read_byte(sys, data, sender, hash, 40, 28, 96, 2, 40);
            lemma_read_byte(sys, data, sender, hash, 40, 28, 97, 2, 41);
            assert(hash.subrange(22, 28) =~= mark);
        }
    }
}

/// A file of profile 2 looks to profile 1 unlike one of its own.
proof fn lemma_third_lacks_marks_of_second(sys: Seq<u8>, data: Seq<u8>, hash: Seq<u8>, sender: ProfileCfg)
    requires
        sender.id == 2,
        sender.r_meta == 4,
        hash.len() == 32,
        16 * data.len() <= usize::MAX,
        is_misread(sys, encoder::stream_with(data, sender, hash), 40, 36),
    ensures
        !has_two_marks(sys, 1),
{
    lemma_read_byte(sys, data, sender, hash, 40, 36, 46, 1, 4);
    lemma_read_byte(sys, data, sender, hash, 40, 36, 96, 2, 12);
    lemma_read_byte(sys, data, sender, hash, 40, 36, 138, 3, 12);
}

/// What a profile of a lower number reads of the first bytes of a file's stream.
proof fn lemma_lower_profile_misreads(
    data: Seq<u8>,
    profile: ProfileCfg,
    l: FrameLayout,
    slots: Seq<SlotPayloadBits>,
    sent: Seq<SlotPayloadBits>,
    extra: nat,
    bytes: Seq<u8>,
    heavy_geom: bool,
    readings: Seq<FrameReading>,
    lower: ProfileCfg,
    got: Seq<SlotLlr>,
    r: int,
)
    requires
        params::profile_numbered(profile.id) == Some(profile),
        params::profile_numbered(lower.id) == Some(lower),
        lower.id < profile.id,
        0 < data.len(),
        16 * (46 * profile.r_meta + data.len()) <= usize::MAX,
        phy_layout::layout_fault(l.width, l.height, profile) is None,
        phy_layout::is_layout(l, l.width, l.height, profile.slots_per_frame as int),
        encoder::are_slots_of(slots, encoder::stream_of(data, profile), profile),
        encoder::is_repeated_last(sent, slots, extra),
        phy_channel::carries(bytes, l, sent, profile),
        readings.len() == phy_channel::frames_for(sent.len(), profile.slots_per_frame as nat),
        laws::reads_cleanly(readings, heavy_geom),
        phy_channel::slots_of_frames(
            got,
            bytes,
            l,
            readings,
            lower,
            heavy_geom,
            readings.len() as int,
        ),
        0 <= r < 144,
    ensures
        r < decoder::assembled(got, lower).len(),
        decoder::assembled(got, lower)[r] == byte_at(
            encoder::stream_of(data, profile),
            source_of(r, profile.b_sys as int / 8, lower.b_sys as int / 8),
        ),
{
    let hash = checksum::sha256_of(data)@;
    let stream = encoder::stream_of(data, profile);
    let bits = bitstream::unpacked(stream);
    let (wrote, reads) = (profile.b_sys as int / 8, lower.b_sys as int / 8);
    session::lemma_repeated_len(session::meta_record(profile.id, data.len() as u64, hash), 4);
    bytes::lemma_le_bytes(data.len(), 8);
    assert(stream.len() == 184 + data.len());
    assert(slots.len() >= 6);
    bitstream::lemma_unpacked_are_bits(stream);
    phy_layout::lemma_slots_len(l.bx_n as int, l.by_n as int, profile.slots_per_frame as int);
    laws::lemma_read_sizes(bytes, l, lower, heavy_geom, readings, got);
    let t = r / reads;
    assert(0 <= t < 6) by {
        assert(reads == 28 || reads == 36);
    }
    assert(encoder::same_slot(sent[t], slots[t]));
    assert(slots[t].sys_bits@ == mapper::piece(bits, profile.b_sys as nat, t));
    assert(t * profile.b_sys >= 0) by (nonlinear_arith)
        requires
            t >= 0,
            profile.b_sys >= 0,
    ;
    laws::lemma_piece_is_bits(bits, profile.b_sys as nat, t);
    laws::lemma_slot_comes_back(bytes, l, sent, profile, lower, heavy_geom, readings, got, t);
    lemma_misread_byte(got, lower, stream, profile, wrote, reads, r);
}

/// A profile of a lower number does not take the frames of a file for its own, unless the digest of
/// the file mimics its metadata.
pub proof fn law_lower_profile_does_not_lock(
    data: Seq<u8>,
    profile: ProfileCfg,
    l: FrameLayout,
    slots: Seq<SlotPayloadBits>,
    sent: Seq<SlotPayloadBits>,
    extra: nat,
    bytes: Seq<u8>,
    heavy_geom: bool,
    readings: Seq<FrameReading>,
    lower: ProfileCfg,
    got: Seq<SlotLlr>,
)
    requires
        params::profile_numbered(profile.id) == Some(profile),
        params::profile_numbered(lower.id) == Some(lower),
        lower.id < profile.id,
        0 < data.len(),
        16 * (46 * profile.r_meta + data.len()) <= usize::MAX,
        phy_layout::layout_fault(l.width, l.height, profile) is None,
        phy_layout::is_layout(l, l.width, l.height, profile.slots_per_frame as int),
        encoder::are_slots_of(slots, encoder::stream_of(data, profile), profile),
        encoder::is_repeated_last(sent, slots, extra),
        phy_channel::carries(bytes, l, sent, profile),
        readings.len() == phy_channel::frames_for(sent.len(), profile.slots_per_frame as nat),
        laws::reads_cleanly(readings, heavy_geom),
        phy_channel::slots_of_frames(
            got,
            bytes,
            l,
            readings,
            lower,
            heavy_geom,
            readings.len() as int,
        ),
    ensures
        digest_mimics(profile.id, checksum::sha256_of(data)@) || !decoder::locks(
            decoder::assembled(got, lower),
            lower,
        ),
{
    let hash = checksum::sha256_of(data)@;
    let stream = encoder::stream_of(data, profile);
    let sys = decoder::assembled(got, lower);
    let (wrote, reads) = (profile.b_sys as int / 8, lower.b_sys as int / 8);
    assert forall|r: int| 0 <= r < 144 implies #[trigger] sys[r] == byte_at(
        stream,
        source_of(r, wrote, reads),
    ) && r < sys.len() by {
        lemma_lower_profile_misreads(
            data,
            profile,
            l,
            slots,
            sent,
            extra,
            bytes,
            heavy_geom,
            readings,
            lower,
            got,
            r,
        );
    }
    assert(sys.len() >= 144) by {
        lemma_lower_profile_misreads(
            data,
            profile,
            l,
            slots,
            sent,
            extra,
            bytes,
            heavy_geom,
            readings,
            lower,
            got,
            143,
        );
    }
    if decoder::locks(sys, lower) && !digest_mimics(profile.id, hash) {
        lemma_head_is_read(sys, data, hash, profile, wrote, reads);
        lemma_lock_needs_two_marks(sys, lower, profile.id, data.len() as u64);
        if profile.id == 1 {
            lemma_second_lacks_marks_of_first(sys, data, hash, profile);
        } else if lower.id == 0 {
            lemma_third_lacks_marks_of_first(sys, data, hash, profile);
        } else {
            lemma_third_lacks_marks_of_second(sys, data, hash, profile);
        }
    }
}

/// A file that is encoded, and whose frames are read cleanly under each profile up to the one that it
/// was sent with, is decoded: unless its digest mimics the metadata of another profile, the result
/// is the file, under its own profile.
pub proof fn law_encoded_file_is_decoded(
    data: Seq<u8>,
    profile: ProfileCfg,
    l: FrameLayout,
    slots: Seq<SlotPayloadBits>,
    sent: Seq<SlotPayloadBits>,
    extra: nat,
    bytes: Seq<u8>,
    heavy_geom: bool,
    readings: Seq<FrameReading>,
    candidates: Seq<Vec<SlotLlr>>,
    best_effort: bool,
    r: Result<(ProfileCfg, Vec<u8>), DecodeError>,
)
    requires
        params::profile_numbered(profile.id) == Some(profile),
        0 < data.len(),
        16 * (46 * profile.r_meta + data.len()) <= usize::MAX,
        phy_layout::layout_fault(l.width, l.height, profile) is None,
        phy_layout::is_layout(l, l.width, l.height, profile.slots_per_frame as int),
        encoder::are_slots_of(slots, encoder::stream_of(data, profile), profile),
        encoder::is_repeated_last(sent, slots, extra),
        phy_channel::carries(bytes, l, sent, profile),
        readings.len() == phy_channel::frames_for(sent.len(), profile.slots_per_frame as nat),
        laws::reads_cleanly(readings, heavy_geom),
        profile.id < candidates.len(),
        forall|q: int|
            #![trigger candidates[q]]
            0 <= q <= profile.id ==> phy_channel::slots_of_frames(
                candidates[q]@,
                bytes,
                l,
                readings,
                params::profile_numbered(q as u8)->0,
                heavy_geom,
                readings.len() as int,
            ),
        decoder::is_decoded(candidates, best_effort, r),
    ensures
        digest_mimics(profile.id, checksum::sha256_of(data)@) || {
            &&& r is Ok
            &&& r->Ok_0.0 == profile
            &&& r->Ok_0.1@ == data
        },
{
    if !digest_mimics(profile.id, checksum::sha256_of(data)@) {
        assert forall|q: int|
            #![trigger candidates[q]]
            0 <= q < profile.id implies !decoder::locks(
            decoder::assembled(candidates[q]@, params::profile_numbered(q as u8)->0),
            params::profile_numbered(q as u8)->0,
        ) by {
            law_lower_profile_does_not_lock(
                data,
                profile,
                l,
                slots,
                sent,
                extra,
                bytes,
                heavy_geom,
                readings,
                params::profile_numbered(q as u8)->0,
                candidates[q]@,
            );
        }
        assert(candidates[profile.id as int] == candidates[profile.id as int]);
        laws::law_decoding_gives_file(
            data,
            profile,
            l,
            slots,
            sent,
            extra,
            bytes,
            heavy_geom,
            readings,
            candidates,
            best_effort,
            r,
        );
    }
}

} // verus!
