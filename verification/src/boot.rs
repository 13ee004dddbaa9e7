//! The boot message of a key frame: which profile and which frame it is.
use crate::bitstream;
use crate::bytes;
use crate::checksum;
use crate::link_profile::LinkParams;
use crate::rs_codec;
use crate::rs_codec::RsCodec;
use crate::rs_laws;
use crate::util;
use vstd::prelude::*;

verus! {

/// The message up to its checksum: mark, version, profile, frame number, and zeros.
pub open spec fn boot_body(p: &LinkParams, profile: u8, frame_idx: u32) -> Seq<u8> {
    seq![p.magic@[0], p.magic@[1], p.version, profile] + bytes::be_bytes(frame_idx as nat, 4)
        + util::constant((p.boot_msg_len - 12) as nat, 0)
}

/// The boot message.
pub open spec fn boot_message(p: &LinkParams, profile: u8, frame_idx: u32) -> Seq<u8> {
    let body = boot_body(p, profile, frame_idx);
    body + bytes::be_bytes(checksum::crc32_of(body) as nat, 4)
}

/// The codeword of a message.
pub open spec fn rs_encoded(msg: Seq<u8>, nsym: nat) -> Seq<u8> {
    choose|c: Seq<u8>| is_encoding(msg, nsym, c)
}

pub open spec fn is_encoding(msg: Seq<u8>, nsym: nat, c: Seq<u8>) -> bool {
    &&& c.len() == msg.len() + nsym
    &&& c.take(msg.len() as int) == msg
    &&& rs_codec::is_codeword(c, nsym)
}

/// Each bit of some bytes `repeat` times.
pub open spec fn repeated_bits(code: Seq<u8>, repeat: int) -> Seq<u8> {
    Seq::new(
        (code.len() * 8 * repeat) as nat,
        |i: int| bitstream::unpacked(code)[i / repeat],
    )
}

/// The code of boot messages.
pub fn boot_rs_codec(p: &LinkParams) -> (rs: RsCodec)
    requires
        p.wf(),
    ensures
        rs.wf(),
        rs.nsym_view() == p.boot_rs_parity,
{
    RsCodec::new(p.boot_rs_parity)
}

/// The bits of a coded message, each repeated.
pub fn boot_encode_bits_rs(p: &LinkParams, msg: &[u8]) -> (out: Vec<u8>)
    requires
        p.wf(),
        msg@.len() == p.boot_msg_len,
    ensures
        out@ == repeated_bits(
            rs_encoded(msg@, p.boot_rs_parity as nat),
            p.boot_rs_repeat as int,
        ),
        out@.len() == p.boot_code_bits(),
{
    let ghost nsym = p.boot_rs_parity as nat;
    let rs: RsCodec = boot_rs_codec(p);
    let code: Vec<u8> = rs.encode(msg);
    proof {
        let c = rs_encoded(msg@, nsym);
        assert(is_encoding(msg@, nsym, code@));
        assert(is_encoding(msg@, nsym, c));
        rs_laws::law_one_codeword_per_message(code@, c, nsym);
    }
    let raw: Vec<u8> = bitstream::bytes_to_bits_msb(code.as_slice());
    let rep: usize = p.boot_rs_repeat;
    let ghost want = repeated_bits(code@, rep as int);
    let mut out: Vec<u8> = Vec::new();
    let mut i: usize = 0;
    assert(0 * rep == 0) by (nonlinear_arith);
    while i < raw.len()
        invariant
            i <= raw@.len(),
            raw@ == bitstream::unpacked(code@),
            rep > 0,
            want == repeated_bits(code@, rep as int),
            want.len() == raw@.len() * rep,
            out@ == want.take(i * rep),
        decreases raw@.len() - i,
    {
        assert(0 <= i * rep && i * rep + rep <= raw@.len() * rep && (i + 1) * rep == i * rep + rep)
            by (nonlinear_arith)
            requires
                0 <= i,
                i + 1 <= raw@.len(),
                rep > 0,
        ;
        let bit: u8 = raw[i];
        let mut j: usize = 0;
        while j < rep
            invariant
                j <= rep,
                i < raw@.len(),
                raw@ == bitstream::unpacked(code@),
                bit == raw@[i as int],
                want == repeated_bits(code@, rep as int),
                0 <= i * rep,
                i * rep + rep <= want.len(),
                out@ == want.take(i * rep + j),
            decreases rep - j,
        {
            out.push(bit);
            proof {
                let k = i * rep + j;
                vstd::arithmetic::div_mod::lemma_fundamental_div_mod_converse(
                    k,
                    rep as int,
                    i as int,
                    j as int,
                );
                assert(want.take(k + 1) =~= want.take(k).push(want[k]));
            }
            j = j + 1;
        }
        i = i + 1;
    }
    assert(want.take(i * rep) =~= want);
    out
}

/// The boot message of a frame up to its checksum.
pub fn make_boot_body(p: &LinkParams, profile: u8, frame_idx: u32) -> (msg: Vec<u8>)
    requires
        p.wf(),
    ensures
        msg@ == boot_body(p, profile, frame_idx),
        msg@.len() == p.boot_msg_len - 4,
{
    proof {
        bytes::lemma_be_bytes(frame_idx as nat, 4);
    }
    let mut msg: Vec<u8> = Vec::with_capacity(p.boot_msg_len);
    msg.push(p.magic[0]);
    msg.push(p.magic[1]);
    msg.push(p.version);
    msg.push(profile);
    let idx: Vec<u8> = bytes::to_be(frame_idx as u64, 4);
    util::append_all(&mut msg, idx.as_slice());
    let zeros: Vec<u8> = util::filled(p.boot_msg_len - 12, 0);
    util::append_all(&mut msg, zeros.as_slice());
    assert(msg@ =~= boot_body(p, profile, frame_idx));
    msg
}

/// The bytes that a frame carries of a coded message.
pub open spec fn record_of(p: &LinkParams, msg: Seq<u8>) -> Seq<u8> {
    bitstream::packed(
        repeated_bits(rs_encoded(msg, p.boot_rs_parity as nat), p.boot_rs_repeat as int),
    ).take(p.boot_len as int)
}

/// Codes a message and takes what a frame carries of it.
pub fn make_record(p: &LinkParams, msg: &[u8]) -> (out: Vec<u8>)
    requires
        p.wf(),
        msg@.len() == p.boot_msg_len,
    ensures
        out@ == record_of(p, msg@),
        out@.len() == p.boot_len,
{
    let bits: Vec<u8> = boot_encode_bits_rs(p, msg);
    let packed: Vec<u8> = bitstream::bits_to_bytes_msb(bits.as_slice());
    proof {
        let n = p.boot_rs_n() * p.boot_rs_repeat;
        assert(bits@.len() == 8 * n) by (nonlinear_arith)
            requires
                bits@.len() == p.boot_rs_n() * 8 * p.boot_rs_repeat,
                n == p.boot_rs_n() * p.boot_rs_repeat,
        ;
    }
    let out: Vec<u8> = util::copy_range(packed.as_slice(), 0, p.boot_len);
    assert(out@ =~= packed@.take(p.boot_len as int));
    out
}

/// The bytes that a frame carries of its boot message.
pub open spec fn boot_record(p: &LinkParams, profile: u8, frame_idx: u32) -> Seq<u8> {
    record_of(p, boot_message(p, profile, frame_idx))
}

/// The boot record of a frame.
pub fn make_boot(p: &LinkParams, profile: u8, frame_idx: u32) -> (out: Vec<u8>)
    requires
        p.wf(),
    ensures
        out@ == boot_record(p, profile, frame_idx),
        out@.len() == p.boot_len,
{
    let body: Vec<u8> = make_boot_body(p, profile, frame_idx);
    let crc: u32 = checksum::crc32_bytes(body.as_slice());
    let msg: Vec<u8> = bytes::seal(body, crc);
    make_record(p, msg.as_slice())
}

/// What a boot message says, given the checksum of all but its last four bytes.
pub open spec fn parsed_boot(p: &LinkParams, b: Seq<u8>, crc: u32) -> Option<(u8, u32)> {
    let n = b.len() as int;
    if n != p.boot_msg_len || b[0] != p.magic@[0] || b[1] != p.magic@[1] || b[2] != p.version
        || bytes::be_value(b.subrange(n - 4, n)) != crc {
        None
    } else {
        Some((b[3], bytes::be_value(b.subrange(4, 8)) as u32))
    }
}

/// Reads a boot message all but whose last four bytes have the checksum `crc`.
pub fn parse_checked_boot(p: &LinkParams, b: &[u8], crc: u32) -> (r: Option<(u8, u32)>)
    requires
        p.wf(),
    ensures
        r == parsed_boot(p, b@, crc),
{
    if b.len() != p.boot_msg_len {
        return None;
    }
    if b[0] != p.magic[0] || b[1] != p.magic[1] || b[2] != p.version {
        return None;
    }
    let got: u64 = bytes::read_be(b, b.len() - 4, 4);
    if got != crc as u64 {
        return None;
    }
    let idx: u64 = bytes::read_be(b, 4, 4);
    proof {
        bytes::lemma_be_value(b@.subrange(4, 8));
        bytes::lemma_spans();
    }
    Some((b[3], idx as u32))
}

/// The checksum that a boot message should carry.
pub open spec fn boot_crc(b: Seq<u8>) -> u32 {
    checksum::crc32_of(b.take(b.len() - 4))
}

/// Reads a boot message.
pub fn parse_boot_msg(p: &LinkParams, b: &[u8]) -> (r: Option<(u8, u32)>)
    requires
        p.wf(),
    ensures
        b@.len() != p.boot_msg_len ==> r is None,
        b@.len() == p.boot_msg_len ==> r == parsed_boot(p, b@, boot_crc(b@)),
{
    if b.len() != p.boot_msg_len {
        return None;
    }
    let body: Vec<u8> = util::copy_range(b, 0, b.len() - 4);
    assert(body@ =~= b@.take(b@.len() - 4));
    let crc: u32 = checksum::crc32_bytes(body.as_slice());
    parse_checked_boot(p, b, crc)
}

/// The message behind the soft bits of a record, each the sum of its repetitions.
pub open spec fn decoded_boot(p: &LinkParams, sums: Seq<u32>) -> Option<Seq<u8>> {
    if sums.len() != p.boot_rs_n() * 8 {
        None
    } else {
        match rs_codec::decoded(
            bitstream::packed(bitstream::hard_bits(sums)),
            p.boot_rs_parity as nat,
        ) {
            Some(m) if m.len() == p.boot_msg_len => Some(m),
            _ => None,
        }
    }
}

/// Decodes the message from the sums of the soft bits of each bit's repetitions, which are given by
/// their bit patterns.
pub fn boot_decode_msg_from_sums(p: &LinkParams, sums: &[u32]) -> (r: Option<Vec<u8>>)
    requires
        p.wf(),
    ensures
        match r {
            Some(m) => decoded_boot(p, sums@) == Some(m@),
            None => decoded_boot(p, sums@) is None,
        },
{
    let n: usize = p.boot_msg_len + p.boot_rs_parity;
    if sums.len() != n * 8 {
        return None;
    }
    let bits: Vec<u8> = bitstream::hard_llr_to_bits(sums);
    let code: Vec<u8> = bitstream::bits_to_bytes_msb(bits.as_slice());
    let rs: RsCodec = boot_rs_codec(p);
    assert(code@.len() == n);
    match rs.decode(code.as_slice()) {
        Some(m) => {
            if m.len() != p.boot_msg_len {
                None
            } else {
                Some(m)
            }
        },
        None => None,
    }
}

/// What some soft bits say: the boot message that they decode to, if there is one.
pub open spec fn readable(p: &LinkParams, sums: Seq<u32>) -> Option<(u8, u32)> {
    match decoded_boot(p, sums) {
        None => None,
        Some(m) => parsed_boot(p, m, boot_crc(m)),
    }
}

/// What the copies from number `i` on say: what the first says that can be read by itself.
pub open spec fn first_boot(p: &LinkParams, copies: Seq<Vec<u32>>, i: nat) -> Option<(u8, u32)>
    decreases copies.len() - i,
{
    if i >= copies.len() {
        None
    } else {
        match readable(p, copies[i as int]@) {
            Some(x) => Some(x),
            None => first_boot(p, copies, i + 1),
        }
    }
}

/// What comes of all copies together, and, where their sum holds no boot message, of each.
pub open spec fn read_boot(p: &LinkParams, total: Seq<u32>, copies: Seq<Vec<u32>>) -> Option<
    (u8, u32),
> {
    if copies.len() == 0 {
        None
    } else {
        match readable(p, total) {
            Some(x) => Some(x),
            None => first_boot(p, copies, 0),
        }
    }
}

/// Reads a boot message from the sums of the soft bits of each bit's repetitions.
pub fn read_one_boot(p: &LinkParams, sums: &[u32]) -> (r: Option<(u8, u32)>)
    requires
        p.wf(),
    ensures
        r == readable(p, sums@),
{
    match boot_decode_msg_from_sums(p, sums) {
        Some(m) => parse_boot_msg(p, m.as_slice()),
        None => None,
    }
}

/// Reads the boot message of a frame from the soft bits of all copies together, or else of each of
/// them by itself: a copy that is badly corrupted does not spoil the others.
pub fn read_boot_from_sums(p: &LinkParams, total: &[u32], copies: &[Vec<u32>]) -> (r: Option<
    (u8, u32),
>)
    requires
        p.wf(),
    ensures
        r == read_boot(p, total@, copies@),
{
    if copies.len() == 0 {
        return None;
    }
    if let Some(x) = read_one_boot(p, total) {
        return Some(x);
    }
    let mut i: usize = 0;
    while i < copies.len()
        invariant
            i <= copies@.len(),
            p.wf(),
            first_boot(p, copies@, 0) == first_boot(p, copies@, i as nat),
            read_boot(p, total@, copies@) == first_boot(p, copies@, 0),
        decreases copies@.len() - i,
    {
        if let Some(x) = read_one_boot(p, copies[i].as_slice()) {
            return Some(x);
        }
        i = i + 1;
    }
    None
}

/// A copy that can be read is read, whatever has become of the sum of all copies and of the copies
/// before it, as long as none of these says anything else.
pub proof fn law_good_copy_is_read(
    p: &LinkParams,
    total: Seq<u32>,
    copies: Seq<Vec<u32>>,
    c: int,
)
    requires
        0 <= c < copies.len(),
        readable(p, total) is None,
        forall|i: int| 0 <= i < c ==> readable(p, (#[trigger] copies[i])@) is None,
        readable(p, copies[c]@) is Some,
    ensures
        read_boot(p, total, copies) == readable(p, copies[c]@),
{
    lemma_first_readable(p, copies, 0, c);
}

proof fn lemma_first_readable(p: &LinkParams, copies: Seq<Vec<u32>>, i: nat, c: int)
    requires
        i <= c < copies.len(),
        forall|j: int| i <= j < c ==> readable(p, (#[trigger] copies[j])@) is None,
        readable(p, copies[c]@) is Some,
    ensures
        first_boot(p, copies, i) == readable(p, copies[c]@),
    decreases c - i,
{
    if i < c {
        assert(readable(p, copies[i as int]@) is None);
        lemma_first_readable(p, copies, i + 1, c);
    }
}

/// A boot message is read back from its codeword, where the soft bits decide for the codeword's
/// bits.
pub proof fn law_boot_comes_back(
    p: &LinkParams,
    profile: u8,
    frame_idx: u32,
    code: Seq<u8>,
    sums: Seq<u32>,
)
    requires
        p.wf(),
        is_encoding(boot_message(p, profile, frame_idx), p.boot_rs_parity as nat, code),
        bitstream::hard_bits(sums) == bitstream::unpacked(code),
    ensures
        code == rs_encoded(boot_message(p, profile, frame_idx), p.boot_rs_parity as nat),
        decoded_boot(p, sums) == Some(boot_message(p, profile, frame_idx)),
        ({
            let m = boot_message(p, profile, frame_idx);
            parsed_boot(p, m, boot_crc(m)) == Some((profile, frame_idx))
        }),
        readable(p, sums) == Some((profile, frame_idx)),
{
    let nsym = p.boot_rs_parity as nat;
    let m = boot_message(p, profile, frame_idx);
    let body = boot_body(p, profile, frame_idx);
    let crc = checksum::crc32_of(body);
    assert(is_encoding(m, nsym, rs_encoded(m, nsym)));
    rs_laws::law_one_codeword_per_message(code, rs_encoded(m, nsym), nsym);
    bytes::lemma_be_bytes(frame_idx as nat, 4);
    bytes::lemma_be_bytes(crc as nat, 4);
    bytes::lemma_spans();
    assert(m.len() == p.boot_msg_len);
    assert(m.take(m.len() - 4) =~= body);
    assert(m.subrange(m.len() - 4, m.len() as int) =~= bytes::be_bytes(crc as nat, 4));
    assert(m.subrange(4, 8) =~= bytes::be_bytes(frame_idx as nat, 4));
    bitstream::law_pack_undoes_unpack(code);
    rs_laws::law_decode_undoes_encode(m, code, nsym);
    assert(bitstream::hard_bits(sums).len() == sums.len());
}

/// A boot message that is read bears the mark and the version, and says its profile and, from its
/// highest byte on, the number of its frame; its last four bytes are the checksum of the others.
pub proof fn law_read_boot_bears_the_mark(p: &LinkParams, b: Seq<u8>, profile: u8, frame_idx: u32)
    requires
        p.boot_msg_len >= 12,
        parsed_boot(p, b, boot_crc(b)) == Some((profile, frame_idx)),
    ensures
        b.len() == p.boot_msg_len,
        b[0] == p.magic@[0] && b[1] == p.magic@[1],
        b[2] == p.version,
        b[3] == profile,
        bytes::be_value(b.subrange(4, 8)) == frame_idx,
        bytes::be_value(b.skip(b.len() - 4)) == checksum::crc32_of(b.take(b.len() - 4)),
{
    bytes::lemma_be_value(b.subrange(4, 8));
    bytes::lemma_spans();
    assert(b.skip(b.len() - 4) =~= b.subrange(b.len() - 4, b.len() as int));
}

/// Each bit of a coded message is repeated as often as the parameters say, its repetitions side by
/// side.
pub proof fn law_bits_are_repeated(code: Seq<u8>, repeat: int, i: int, t: int)
    requires
        repeat > 0,
        0 <= i < 8 * code.len(),
        0 <= t < repeat,
    ensures
        repeated_bits(code, repeat).len() == 8 * code.len() * repeat,
        i * repeat + t < repeated_bits(code, repeat).len(),
        repeated_bits(code, repeat)[i * repeat + t] == bitstream::unpacked(code)[i],
{
    let n = 8 * code.len();
    assert(code.len() * 8 * repeat == n * repeat && n * repeat >= 0) by (nonlinear_arith)
        requires
            n == 8 * code.len(),
            n >= 0,
            repeat > 0,
    ;
    assert(0 <= i * repeat && i * repeat + repeat <= n * repeat) by (nonlinear_arith)
        requires
            0 <= i,
            i + 1 <= n,
            repeat > 0,
    ;
    vstd::arithmetic::div_mod::lemma_fundamental_div_mod_converse(i * repeat + t, repeat, i, t);
}

/// What all copies together say counts first, and what a single copy says only where that cannot be
/// read: then the first copy that can be read.
pub proof fn law_earlier_copy_counts(
    p: &LinkParams,
    total: Seq<u32>,
    copies: Seq<Vec<u32>>,
    i: int,
)
    requires
        0 <= i < copies.len(),
        readable(p, copies[i]@) is Some,
        forall|j: int| 0 <= j < i ==> readable(p, #[trigger] copies[j]@) is None,
    ensures
        readable(p, total) is Some ==> read_boot(p, total, copies) == readable(p, total),
        readable(p, total) is None ==> read_boot(p, total, copies) == readable(p, copies[i]@),
{
    lemma_first_boot(p, copies, 0, i);
}

proof fn lemma_first_boot(p: &LinkParams, copies: Seq<Vec<u32>>, from: nat, i: int)
    requires
        from <= i < copies.len(),
        readable(p, copies[i]@) is Some,
        forall|j: int| from <= j < i ==> readable(p, #[trigger] copies[j]@) is None,
    ensures
        first_boot(p, copies, from) == readable(p, copies[i]@),
    decreases i - from,
{
    if from < i {
        assert(readable(p, copies[from as int]@) is None);
        lemma_first_boot(p, copies, from + 1, i);
    }
}

/// A boot message is the mark, the version, the profile, the number of the frame from its highest
/// byte on, zeros, and the checksum of all that in its last four bytes.
pub proof fn law_boot_message_fields(p: &LinkParams, profile: u8, frame_idx: u32)
    requires
        12 <= p.boot_msg_len,
    ensures
        ({
            let b = boot_message(p, profile, frame_idx);
            &&& b.len() == p.boot_msg_len
            &&& b[0] == p.magic@[0] && b[1] == p.magic@[1]
            &&& b[2] == p.version
            &&& b[3] == profile
            &&& bytes::be_value(b.subrange(4, 8)) == frame_idx
            &&& forall|i: int| 8 <= i < b.len() - 4 ==> #[trigger] b[i] == 0
            &&& bytes::be_value(b.skip(b.len() - 4)) == checksum::crc32_of(b.take(b.len() - 4))
        }),
{
    let body = boot_body(p, profile, frame_idx);
    let b = boot_message(p, profile, frame_idx);
    let crc = checksum::crc32_of(body) as nat;
    bytes::lemma_be_bytes(frame_idx as nat, 4);
    bytes::lemma_be_bytes(crc, 4);
    bytes::lemma_spans();
    assert(b.subrange(4, 8) =~= bytes::be_bytes(frame_idx as nat, 4));
    assert(b.take(b.len() - 4) =~= body);
    assert(b.skip(b.len() - 4) =~= bytes::be_bytes(crc, 4));
}

} // verus!
