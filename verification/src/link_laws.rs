//! What the framed link promises as a whole: drawn frames show what was drawn, their bits come back
//! in order, and the codewords become the file.
use crate::bitstream;
use crate::boot;
use crate::checksum;
use crate::envelope;
use crate::gray;
use crate::interleave;
use crate::ldpc;
use crate::ldpc::LdpcCode;
use crate::link_decoder;
use crate::link_decoder::{LinkDecodeError, Outcome, Reception};
use crate::link_draw;
use crate::link_encoder;
use crate::link_frame;
use crate::link_frame::Paint;
use crate::link_layout;
use crate::link_layout::ProfileLayout;
use crate::link_plan;
use crate::link_plan::LinkLayouts;
use crate::link_profile::{LinkParams, LinkProfile};
use crate::llr;
use crate::protocol;
use crate::protocol::StreamHeader;
use crate::stream_coder;
use crate::util;
use vstd::prelude::*;

verus! {

/// The header of a file.
pub open spec fn file_header(profile: u8, file: Seq<u8>) -> StreamHeader {
    StreamHeader {
        profile,
        file_len: file.len() as u64,
        file_crc: checksum::crc32_of(file),
    }
}

/// The stream of a file.
pub open spec fn stream_of(profile: u8, file: Seq<u8>) -> Seq<u8> {
    protocol::header_bytes(file_header(profile, file)) + file
}

/// The information bits of codeword `c` of a stream.
pub open spec fn block_info(stream: Seq<u8>, size: int, c: int) -> Seq<u8> {
    bitstream::unpacked(
        envelope::padded(stream_coder::stream_block(stream, size, c), size as nat),
    )
}

/// What a receiver holds after the first `c` codewords of a file.
pub open spec fn reception_at(profile: u8, max_file_len: u64, file: Seq<u8>, size: int, c: int) -> Reception {
    Reception {
        profile,
        max_file_len,
        stream: envelope::padded(stream_of(profile, file), (c * size) as nat),
        codewords: c as nat,
        header: if c * size >= 24 {
            Some(file_header(profile, file))
        } else {
            None
        },
    }
}

/// The codewords of a file, received one after another, give the file with the last of them, and a
/// failure at none. Reception starts from nothing.
#[verifier::rlimit(40)]
pub proof fn law_stream_comes_back(profile: u8, max_file_len: u64, file: Seq<u8>, k: usize, c: int)
    requires
        envelope::payload_capacity(k) is Ok,
        0 < file.len() <= max_file_len,
        file.len() + 24 <= usize::MAX,
        0 <= c < util::ceil_div(file.len() + 24, (k / 8) as nat),
    ensures
        ({
            let size = k as int / 8;
            let n = util::ceil_div(file.len() + 24, size as nat);
            let o = link_decoder::outcome(
                reception_at(profile, max_file_len, file, size, c),
                k,
                Some(block_info(stream_of(profile, file), size, c)),
            );
            &&& c + 1 < n ==> o == Outcome::More(
                reception_at(profile, max_file_len, file, size, c + 1),
            )
            &&& c + 1 == n ==> o == Outcome::Done(file)
        }),
        reception_at(profile, max_file_len, file, k as int / 8, 0) == (Reception {
            profile,
            max_file_len,
            stream: Seq::empty(),
            codewords: 0,
            header: None,
        }),
{
    let size = k as int / 8;
    let h = file_header(profile, file);
    let all = stream_of(profile, file);
    protocol::law_parse_undoes_make(h);
    assert(all.len() == file.len() + 24);
    let n = util::ceil_div(all.len(), size as nat);
    stream_coder::lemma_block_starts(all.len(), size as nat, c);
    assert((c + 1) * size == c * size + size) by (nonlinear_arith);
    assert(0 * size == 0) by (nonlinear_arith);
    assert(envelope::padded(all, 0) =~= Seq::<u8>::empty());
    let s = reception_at(profile, max_file_len, file, size, c);
    let piece = stream_coder::stream_block(all, size, c);
    let block = envelope::padded(piece, size as nat);
    bitstream::law_pack_undoes_unpack(block);
    let got = s.stream + block;
    assert(got =~= envelope::padded(all, ((c + 1) * size) as nat)) by {
        assert forall|i: int| 0 <= i < (c + 1) * size implies got[i] == envelope::padded(
            all,
            ((c + 1) * size) as nat,
        )[i] by {
            if i >= c * size {
                assert(got[i] == block[i - c * size]);
                if i < all.len() {
                    assert(piece[i - c * size] == all[i]);
                }
            }
        }
    }
    assert(envelope::is_block(k, block));
    if c * size < 24 && (c + 1) * size >= 24 {
        assert(got.take(24) =~= protocol::header_bytes(h));
    }
    if (c + 1) * size >= 24 {
        assert(link_decoder::header_after(s, got) == Ok::<
            Option<StreamHeader>,
            LinkDecodeError,
        >(Some(h)));
    }
    if c + 1 == n {
        assert(got.subrange(24, 24 + h.file_len) =~= file);
    }
}

/// No file is handed out that its header does not vouch for: it has the length and the checksum that
/// the header gives, and the header names the profile of the reception.
pub proof fn law_received_file_is_checked(s: Reception, k: usize, info: Option<Seq<u8>>, file: Seq<u8>)
    requires
        s.header is Some ==> link_decoder::header_fault(s.profile, s.max_file_len, s.header) is None,
        link_decoder::outcome(s, k, info) == Outcome::Done(file),
    ensures
        exists|h: StreamHeader|
            #![trigger h.file_crc]
            {
                &&& link_decoder::header_fault(s.profile, s.max_file_len, Some(h)) is None
                &&& h.profile == s.profile
                &&& file.len() == h.file_len
                &&& checksum::crc32_of(file) == h.file_crc
            },
{
    let stream = s.stream + bitstream::packed(info->0);
    let h = link_decoder::header_after(s, stream)->Ok_0->0;
    assert(checksum::crc32_of(file) == h.file_crc);
    assert(file.len() == h.file_len);
}

/// A codeword that arrives unharmed is accepted, and its information bits are those of its block.
pub proof fn law_codeword_gives_block(code: &LdpcCode, stream: Seq<u8>, size: int, c: int)
    requires
        code.wf(),
        envelope::payload_capacity(code.k) is Ok,
        size == code.k as int / 8,
    ensures
        ({
            let word = stream_coder::coded_block(code, stream, size, c);
            &&& word.len() == code.n
            &&& code.accepts(word)
            &&& word.take(code.k as int) == block_info(stream, size, c)
        }),
{
    let info = block_info(stream, size, c);
    code.law_codeword_exists(info);
    ldpc::law_accepted_codeword_returns_information(
        code,
        info,
        stream_coder::coded_block(code, stream, size, c),
    );
}

/// The hard decisions of frame `i` are the bits that were sent in it.
pub open spec fn frame_arrives(l: LinkLayouts, all: Seq<u8>, soft: Seq<Seq<u32>>, i: int) -> bool {
    bitstream::hard_bits(soft[i]) == stream_coder::bits_from(
        all,
        l.capacity_before(i as nat),
        l.capacity_of(i) as nat,
    )
}

proof fn lemma_joined(l: LinkLayouts, all: Seq<u8>, soft: Seq<Seq<u32>>, n: nat)
    requires
        n <= soft.len(),
        forall|i: int| 0 <= i < n ==> #[trigger] frame_arrives(l, all, soft, i),
    ensures
        llr::frames_joined(soft, n).len() == l.capacity_before(n),
        forall|x: int|
            0 <= x < llr::frames_joined(soft, n).len() ==> bitstream::hard_bit(
                #[trigger] llr::frames_joined(soft, n)[x],
            ) == if x < all.len() {
                all[x]
            } else {
                0
            },
    decreases n,
{
    if n > 0 {
        let m = (n - 1) as nat;
        lemma_joined(l, all, soft, m);
        assert(frame_arrives(l, all, soft, m as int));
        let before = llr::frames_joined(soft, m);
        let part = stream_coder::bits_from(
            all,
            l.capacity_before(m),
            l.capacity_of(m as int) as nat,
        );
        let hard = bitstream::hard_bits(soft[m as int]);
        assert(hard.len() == soft[m as int].len());
        assert forall|x: int| 0 <= x < llr::frames_joined(soft, n).len() implies bitstream::hard_bit(
            #[trigger] llr::frames_joined(soft, n)[x],
        ) == if x < all.len() {
            all[x]
        } else {
            0
        } by {
            if x < before.len() {
                assert(llr::frames_joined(soft, n)[x] == before[x]);
            } else {
                let j = x - before.len();
                assert(llr::frames_joined(soft, n)[x] == soft[m as int][j]);
                assert(hard[j] == part[j]);
            }
        }
    }
}

/// The frames that a plan asks for carry all codewords: where the hard decisions on the frames are
/// the bits that were sent, those on each codeword cut from them are the codeword.
pub proof fn law_codewords_arrive(
    l: LinkLayouts,
    code: &LdpcCode,
    stream: Seq<u8>,
    size: int,
    codewords: nat,
    soft: Seq<Seq<u32>>,
    c: int,
)
    requires
        code.wf(),
        link_plan::are_frames_needed(l, codewords * code.n, soft.len()),
        forall|i: int|
            0 <= i < soft.len() ==> #[trigger] frame_arrives(
                l,
                stream_coder::coded_stream(code, stream, size, codewords),
                soft,
                i,
            ),
        0 <= c < codewords,
    ensures
        ({
            let joined = llr::frames_joined(soft, soft.len());
            &&& 0 <= c * code.n
            &&& c * code.n + code.n <= joined.len()
            &&& bitstream::hard_bits(joined.subrange(c * code.n, c * code.n + code.n))
                == stream_coder::coded_block(code, stream, size, c)
        }),
{
    let n = code.n as int;
    let all = stream_coder::coded_stream(code, stream, size, codewords);
    let joined = llr::frames_joined(soft, soft.len());
    lemma_joined(l, all, soft, soft.len());
    assert(0 <= c * n && c * n + n <= codewords * n) by (nonlinear_arith)
        requires
            0 <= c,
            c + 1 <= codewords,
            n >= 0,
    ;
    let word = stream_coder::coded_block(code, stream, size, c);
    code.law_codeword_exists(block_info(stream, size, c));
    let part = joined.subrange(c * n, c * n + n);
    assert forall|i: int| 0 <= i < n implies bitstream::hard_bits(part)[i] == word[i] by {
        stream_coder::lemma_coded_at(code, stream, size, codewords, c, i);
        assert(part[i] == joined[c * n + i]);
    }
    assert(bitstream::hard_bits(part) =~= word);
}

/// Bit `t` of the Gray code of a symbol is the bit that was sent there.
proof fn lemma_symbol_bit(bits: Seq<u8>, o: link_draw::BitOrder, first: int, n: nat, t: int)
    requires
        0 <= t < n <= 8,
    ensures
        (link_draw::symbol_code(bits, o, first, n) >> ((n - 1 - t) as u8)) & 1
            == bitstream::padded_bit(bits, link_draw::source_of(o, first + t)),
    decreases n,
{
    let m = (n - 1) as nat;
    let c = link_draw::symbol_code(bits, o, first, m);
    let b = bitstream::padded_bit(bits, link_draw::source_of(o, first + m));
    let raw = bits[link_draw::source_of(o, first + m)];
    assert(raw & 1 <= 1) by (bit_vector);
    let s = (n - 1 - t) as u8;
    if t == m {
        assert(b <= 1 ==> (((c << 1u8) | b) >> 0u8) & 1 == b) by (bit_vector);
    } else {
        lemma_symbol_bit(bits, o, first, m, t);
        let q = (s - 1) as u8;
        assert(b <= 1 && q < 7 ==> (((c << 1u8) | b) >> ((q + 1) as u8)) & 1 == (c >> q) & 1)
            by (bit_vector);
    }
}

/// The bits of a frame come back in order: where the soft bits of each block decide for the Gray
/// code of the level that the block was drawn with, restoring their order gives the bits.
pub proof fn law_frame_bits_come_back(
    layout: ProfileLayout,
    pcfg: &LinkProfile,
    frame_idx: u32,
    bits: Seq<u8>,
    raw: Seq<u32>,
)
    requires
        0 < pcfg.bits_per_plane < 8,
        pcfg.pam_m == 1u8 << (pcfg.bits_per_plane as u8),
        bits.len() == layout.payload_pos@.len() * pcfg.bits_per_plane,
        bits.len() * bits.len() <= usize::MAX,
        bitstream::are_bits(bits),
        raw.len() == bits.len(),
        forall|k: int, t: int|
            0 <= k < layout.payload_pos@.len() && 0 <= t < pcfg.bits_per_plane
                ==> #[trigger] symbol_arrives(layout, pcfg, frame_idx, bits, raw, k, t),
    ensures
        ({
            let len = link_layout::capacity_bits(&layout, pcfg) as usize;
            let (a, b) = interleave::permutation_params(
                len as nat,
                interleave::frame_seed(pcfg.profile, frame_idx),
            );
            &&& len == bits.len()
            &&& bitstream::hard_bits(
                interleave::restored(raw, len as nat, len, a as usize, b as usize, len as nat),
            ) == bits
        }),
{
    let n = pcfg.bits_per_plane as int;
    assert(bits.len() <= bits.len() * bits.len()) by (nonlinear_arith)
        requires
            bits.len() >= 0,
    ;
    let len = link_layout::capacity_bits(&layout, pcfg) as usize;
    assert(len == bits.len());
    let seed = interleave::frame_seed(pcfg.profile, frame_idx);
    let (a0, b0) = interleave::permutation_params(len as nat, seed);
    let (a, b) = (a0 as usize, b0 as usize);
    let o = link_draw::frame_order(&layout, pcfg, frame_idx);
    let out = interleave::restored(raw, len as nat, len, a, b, len as nat);
    let hard = bitstream::hard_bits(out);
    if len > 0 {
        let _ = interleave::law_restored_holds_places(raw, len, seed, 0);
    } else {
        assert(interleave::restored(raw, 0, len, a, b, 0).len() == 0);
    }
    assert forall|v: int| 0 <= v < len implies hard[v] == bits[v] by {
        let i = interleave::law_restored_holds_places(raw, len, seed, v) as int;
        let (k, t) = (i / n, i % n);
        vstd::arithmetic::div_mod::lemma_fundamental_div_mod(i, n);
        assert(k * n == n * k) by (nonlinear_arith);
        assert(0 <= k < layout.payload_pos@.len()) by (nonlinear_arith)
            requires
                i == n * k + t,
                0 <= t < n,
                0 <= i < layout.payload_pos@.len() * n,
        ;
        assert(symbol_arrives(layout, pcfg, frame_idx, bits, raw, k, t));
        link_draw::law_level_tells_code(bits, o, k * n, n as nat, pcfg.pam_m as int);
        lemma_symbol_bit(bits, o, k * n, n as nat, t);
        assert(bits[v] == 0 || bits[v] == 1);
        assert(0u8 & 1 == 0 && 1u8 & 1 == 1) by (bit_vector);
        assert(link_draw::source_of(o, i) == v);
        assert(bitstream::padded_bit(bits, v) == bits[v]);
    }
    assert(hard =~= bits);
}

/// Soft bit `t` of block `k` decides for bit `t` of the Gray code of the block's level.
pub open spec fn symbol_arrives(
    layout: ProfileLayout,
    pcfg: &LinkProfile,
    frame_idx: u32,
    bits: Seq<u8>,
    raw: Seq<u32>,
    k: int,
    t: int,
) -> bool {
    let n = pcfg.bits_per_plane as int;
    let level = link_draw::level_of(
        link_draw::symbol_code(
            bits,
            link_draw::frame_order(&layout, pcfg, frame_idx),
            k * n,
            n as nat,
        ),
        pcfg.pam_m as int,
    );
    bitstream::hard_bit(raw[k * n + t]) == (gray::gray(level as u8) >> ((n - 1 - t) as u8)) & 1
}

/// A block shows the luma of the last paint on it.
pub proof fn law_last_paint_shows(
    f: link_frame::Planes,
    width: int,
    height: int,
    list: Seq<Paint>,
    n: nat,
    k: int,
)
    requires
        f.y.len() == width * height,
        link_draw::paints_fit(list, width, height),
        0 <= k < n <= list.len(),
        forall|j: int|
            k < j < n ==> (#[trigger] list[j]).bx != list[k].bx || list[j].by != list[k].by,
    ensures
        link_frame::painted(f, width, height, list, n).y.len() == width * height,
        link_frame::block_is(
            link_frame::painted(f, width, height, list, n).y,
            width,
            list[k].bx as int,
            list[k].by as int,
            list[k].y,
        ),
    decreases n,
{
    let m = (n - 1) as nat;
    let before = link_frame::painted(f, width, height, list, m);
    link_draw::lemma_painted_len(f, width, height, list, m);
    link_draw::lemma_painted_len(f, width, height, list, n);
    assert(link_frame::fits(width, height, list[m as int].bx as int, list[m as int].by as int));
    assert(link_frame::fits(width, height, list[k].bx as int, list[k].by as int));
    if k < m {
        law_last_paint_shows(f, width, height, list, m, k);
    }
    link_frame::law_paint_is_local(
        before,
        width,
        height,
        list[m as int],
        list[k].bx as int,
        list[k].by as int,
        list[k].y,
    );
}

/// A block shows the chroma of the last paint on it.
pub proof fn law_last_paint_shows_in_chroma(
    f: link_frame::Planes,
    width: int,
    height: int,
    list: Seq<Paint>,
    n: nat,
    k: int,
)
    requires
        f.u.len() == (width / 2) * (height / 2),
        f.v.len() == (width / 2) * (height / 2),
        link_draw::paints_fit(list, width, height),
        0 <= k < n <= list.len(),
        forall|j: int|
            k < j < n ==> (#[trigger] list[j]).bx != list[k].bx || list[j].by != list[k].by,
    ensures
        link_frame::chroma_block_is(
            link_frame::painted(f, width, height, list, n).u,
            width,
            list[k].bx as int,
            list[k].by as int,
            list[k].u,
        ),
        link_frame::chroma_block_is(
            link_frame::painted(f, width, height, list, n).v,
            width,
            list[k].bx as int,
            list[k].by as int,
            list[k].v,
        ),
    decreases n,
{
    let m = (n - 1) as nat;
    let before = link_frame::painted(f, width, height, list, m);
    let (bx, by) = (list[k].bx as int, list[k].by as int);
    let (cx, cy) = (list[m as int].bx as int, list[m as int].by as int);
    lemma_chroma_len(f, width, height, list, m);
    assert(link_frame::fits(width, height, list[m as int].bx as int, list[m as int].by as int));
    assert(link_frame::fits(width, height, list[k].bx as int, list[k].by as int));
    if k < m {
        law_last_paint_shows_in_chroma(f, width, height, list, m, k);
    }
    let (u, v) = (list[m as int].u, list[m as int].v);
    link_frame::law_chroma_paint_is_local(
        before.u,
        width,
        height,
        cx,
        cy,
        u,
        bx,
        by,
        list[k].u,
    );
    link_frame::law_chroma_paint_is_local(
        before.v,
        width,
        height,
        cx,
        cy,
        v,
        bx,
        by,
        list[k].v,
    );
}

proof fn lemma_chroma_len(
    f: link_frame::Planes,
    width: int,
    height: int,
    list: Seq<Paint>,
    n: nat,
)
    ensures
        link_frame::painted(f, width, height, list, n).u.len() == f.u.len(),
        link_frame::painted(f, width, height, list, n).v.len() == f.v.len(),
    decreases n,
{
    if n > 0 {
        lemma_chroma_len(f, width, height, list, (n - 1) as nat);
    }
}

/// A block of a drawn frame shows a colour in all three planes.
pub open spec fn shows_colour(
    f: link_frame::Planes,
    width: int,
    b: (usize, usize),
    y: u8,
    u: u8,
    v: u8,
) -> bool {
    &&& link_frame::block_is(f.y, width, b.0 as int, b.1 as int, y)
    &&& link_frame::chroma_block_is(f.u, width, b.0 as int, b.1 as int, u)
    &&& link_frame::chroma_block_is(f.v, width, b.0 as int, b.1 as int, v)
}

/// The planes of a drawn frame.
pub open spec fn drawn_frame(
    p: &LinkParams,
    pcfg: &LinkProfile,
    l: LinkLayouts,
    width: int,
    height: int,
    profile: u8,
    frame_idx: u32,
    bits: Seq<u8>,
) -> link_frame::Planes {
    let list = link_encoder::frame_paints(p, pcfg, l, profile, frame_idx, bits);
    link_frame::painted(
        link_encoder::blank(width, height),
        width,
        height,
        list,
        list.len(),
    )
}

/// The last paint on a block of a drawn frame shows in all three planes.
pub proof fn lemma_last_paint_in_frame(
    p: &LinkParams,
    pcfg: &LinkProfile,
    l: LinkLayouts,
    width: int,
    height: int,
    profile: u8,
    frame_idx: u32,
    bits: Seq<u8>,
    k: int,
    b: (usize, usize),
)
    requires
        can_send(p, pcfg, l, width, height),
        0 <= k < link_encoder::frame_paints(p, pcfg, l, profile, frame_idx, bits).len(),
        ({
            let list = link_encoder::frame_paints(p, pcfg, l, profile, frame_idx, bits);
            &&& list[k].bx == b.0 && list[k].by == b.1
            &&& forall|j: int|
                k < j < list.len() ==> (#[trigger] list[j]).bx != list[k].bx || list[j].by
                    != list[k].by
        }),
    ensures
        ({
            let list = link_encoder::frame_paints(p, pcfg, l, profile, frame_idx, bits);
            shows_colour(
                drawn_frame(p, pcfg, l, width, height, profile, frame_idx, bits),
                width,
                b,
                list[k].y,
                list[k].u,
                list[k].v,
            )
        }),
{
    let list = link_encoder::frame_paints(p, pcfg, l, profile, frame_idx, bits);
    let f = link_encoder::blank(width, height);
    lemma_frame_paints_fit(p, pcfg, l, width, height, profile, frame_idx, bits);
    assert(0 <= (width / 2) * (height / 2)) by (nonlinear_arith)
        requires
            0 <= width,
            0 <= height,
    ;
    law_last_paint_shows(f, width, height, list, list.len(), k);
    law_last_paint_shows_in_chroma(f, width, height, list, list.len(), k);
}

/// The blocks that a list of paints goes to are those of a list of blocks.
pub open spec fn paints_go_to(list: Seq<Paint>, blocks: Seq<(usize, usize)>) -> bool {
    &&& list.len() == blocks.len()
    &&& forall|j: int|
        0 <= j < list.len() ==> (#[trigger] list[j]).bx == blocks[j].0 && list[j].by == blocks[j].1
}

pub proof fn lemma_boot_paints(p: &LinkParams, record: Seq<u8>, copies: Seq<Vec<(usize, usize)>>, n: nat)
    requires
        n <= copies.len(),
    ensures
        paints_go_to(
            link_draw::boot_paints(p, record, copies, n),
            link_layout::boot_blocks(copies, n),
        ),
    decreases n,
{
    if n > 0 {
        let m = (n - 1) as nat;
        lemma_boot_paints(p, record, copies, m);
        let (x, y) = (
            link_draw::boot_paints(p, record, copies, m),
            link_layout::boot_blocks(copies, m),
        );
        let all = link_draw::boot_paints(p, record, copies, n);
        let blocks = link_layout::boot_blocks(copies, n);
        assert forall|j: int| 0 <= j < all.len() implies (#[trigger] all[j]).bx == blocks[j].0
            && all[j].by == blocks[j].1 by {
            if j < x.len() {
                assert(all[j] == x[j] && blocks[j] == y[j]);
            } else {
                assert(all[j] == link_draw::boot_copy_paints(p, record, copies[m as int]@)[j
                    - x.len()]);
                assert(blocks[j] == copies[m as int]@[j - x.len()]);
            }
        }
    }
}

/// Where bit `i` of copy `c` is in the paints of all copies.
pub proof fn lemma_boot_paint_at(
    p: &LinkParams,
    record: Seq<u8>,
    copies: Seq<Vec<(usize, usize)>>,
    n: nat,
    c: int,
    i: int,
) -> (j: int)
    requires
        0 <= c < n <= copies.len(),
        0 <= i < copies[c]@.len(),
    ensures
        0 <= j < link_draw::boot_paints(p, record, copies, n).len(),
        link_draw::boot_paints(p, record, copies, n)[j] == link_draw::boot_copy_paints(
            p,
            record,
            copies[c]@,
        )[i],
    decreases n,
{
    let m = (n - 1) as nat;
    let before = link_draw::boot_paints(p, record, copies, m);
    if c == m {
        before.len() + i
    } else {
        lemma_boot_paint_at(p, record, copies, m, c, i)
    }
}

pub proof fn lemma_locators_fit(p: &LinkParams, bx_n: int, by_n: int, side: int, width: int, height: int)
    requires
        1 <= side <= bx_n,
        side <= by_n,
        bx_n * 32 <= width,
        by_n * 32 <= height,
    ensures
        link_draw::paints_fit(
            link_draw::locator_paints(p, bx_n, by_n, side as nat),
            width,
            height,
        ),
{
    let list = link_draw::locator_paints(p, bx_n, by_n, side as nat);
    let (x, y) = ((bx_n - side) as nat, (by_n - side) as nat);
    let a = link_draw::locator_paints_at(p, 0, 0, side as nat, false, false, false);
    let b = link_draw::locator_paints_at(p, x, 0, side as nat, true, false, true);
    let c = link_draw::locator_paints_at(p, 0, y, side as nat, false, true, true);
    let d = link_draw::locator_paints_at(p, x, y, side as nat, true, true, false);
    assert forall|i: int| 0 <= i < side * side implies 0 <= #[trigger] (i / side) < side && 0 <= i
        % side < side by {
        vstd::arithmetic::div_mod::lemma_fundamental_div_mod(i, side);
        vstd::arithmetic::div_mod::lemma_mod_bound(i, side);
        assert(0 <= i / side < side) by (nonlinear_arith)
            requires
                i == side * (i / side) + i % side,
                0 <= i % side < side,
                0 <= i < side * side,
        ;
    }
    let q = a.len() as int;
    assert forall|i: int| 0 <= i < list.len() implies link_frame::fits(
        width,
        height,
        (#[trigger] list[i]).bx as int,
        list[i].by as int,
    ) by {
        if i < q {
            assert(list[i] == a[i]);
            assert(0 <= i / side < side);
        } else if i < 2 * q {
            assert(list[i] == b[i - q]);
            assert(0 <= (i - q) / side < side);
        } else if i < 3 * q {
            assert(list[i] == c[i - 2 * q]);
            assert(0 <= (i - 2 * q) / side < side);
        } else {
            assert(list[i] == d[i - 3 * q]);
            assert(0 <= (i - 3 * q) / side < side);
        }
    }
}

/// A transmission whose frames can be drawn.
pub open spec fn can_send(
    p: &LinkParams,
    pcfg: &LinkProfile,
    l: LinkLayouts,
    width: int,
    height: int,
) -> bool {
    &&& 0 <= width <= usize::MAX
    &&& 0 <= height <= usize::MAX
    &&& (width / 32) * (height / 32) <= usize::MAX
    &&& p.boot_copies_max >= 1
    &&& p.header_rows < usize::MAX
    &&& l.are_for(p, pcfg, width, height)
    &&& link_encoder::can_draw(pcfg, width, height)
}

/// The luma of a drawn frame.
pub open spec fn drawn_luma(
    p: &LinkParams,
    pcfg: &LinkProfile,
    l: LinkLayouts,
    width: int,
    height: int,
    profile: u8,
    frame_idx: u32,
    bits: Seq<u8>,
) -> Seq<u8> {
    let list = link_encoder::frame_paints(p, pcfg, l, profile, frame_idx, bits);
    link_frame::painted(
        link_encoder::blank(width, height),
        width,
        height,
        list,
        list.len(),
    ).y
}

pub proof fn lemma_frame_paints_fit(
    p: &LinkParams,
    pcfg: &LinkProfile,
    l: LinkLayouts,
    width: int,
    height: int,
    profile: u8,
    frame_idx: u32,
    bits: Seq<u8>,
)
    requires
        can_send(p, pcfg, l, width, height),
    ensures
        link_draw::paints_fit(
            link_encoder::frame_paints(p, pcfg, l, profile, frame_idx, bits),
            width,
            height,
        ),
        link_encoder::blank(width, height).y.len() == width * height,
{
    link_encoder::lemma_layouts_fit(p, pcfg, l, width, height);
    assert(0 <= width * height) by (nonlinear_arith)
        requires
            0 <= width,
            0 <= height,
    ;
    let layout = link_encoder::layout_of(l, frame_idx);
    let pos = layout.payload_pos@;
    let list = link_encoder::frame_paints(p, pcfg, l, profile, frame_idx, bits);
    let payload = link_draw::payload_paints(
        pcfg,
        pos,
        bits,
        link_draw::frame_order(&layout, pcfg, frame_idx),
    );
    if frame_idx % 8 == 0 {
        let (bx_n, by_n) = (l.key.bx_n as int, l.key.by_n as int);
        let side = link_layout::locator_side(bx_n, by_n, pcfg.locator_size as int);
        let copies = link_draw::copies_written(
            p,
            pcfg.boot_copies as int,
            l.boot.copies@.len() as int,
        ) as nat;
        let record = boot::boot_record(p, profile, frame_idx);
        let a = link_draw::locator_paints(p, bx_n, by_n, side as nat);
        let b = link_draw::boot_paints(p, record, l.boot.copies@, copies);
        let c = link_draw::cal_paints(pcfg, l.key.cal_pos@);
        lemma_locators_fit(p, bx_n, by_n, side, width, height);
        lemma_boot_paints(p, record, l.boot.copies@, copies);
        link_layout::law_boot_keeps_clear(
            p,
            l.boot,
            width,
            height,
            pcfg.boot_copies as int,
            link_plan::cal_blocks(pcfg),
        );
        let used = link_layout::boot_blocks(l.boot.copies@, copies);
        let every = link_layout::boot_blocks(l.boot.copies@, l.boot.copies@.len());
        link_layout::lemma_boot_blocks_prefix(l.boot.copies@, copies, l.boot.copies@.len());
        assert forall|i: int| 0 <= i < list.len() implies link_frame::fits(
            width,
            height,
            (#[trigger] list[i]).bx as int,
            list[i].by as int,
        ) by {
            if i < a.len() {
                assert(list[i] == a[i]);
            } else if i < a.len() + b.len() {
                let j = i - a.len();
                assert(list[i] == b[j]);
                assert(every[j] == used[j]);
            } else if i < a.len() + b.len() + c.len() {
                let j = i - a.len() - b.len();
                assert(list[i] == c[j]);
                assert(l.key.cal_pos@[j] == l.key.cal_pos@[j]);
            } else {
                let j = i - a.len() - b.len() - c.len();
                assert(list[i] == payload[j]);
                assert(pos[j] == pos[j]);
            }
        }
    } else {
        assert forall|i: int| 0 <= i < list.len() implies link_frame::fits(
            width,
            height,
            (#[trigger] list[i]).bx as int,
            list[i].by as int,
        ) by {
            assert(pos[i] == pos[i]);
        }
    }
}

/// Every payload block of a drawn frame shows the level of its bits, and no
/// colour.
pub proof fn law_payload_is_shown(
    p: &LinkParams,
    pcfg: &LinkProfile,
    l: LinkLayouts,
    width: int,
    height: int,
    profile: u8,
    frame_idx: u32,
    bits: Seq<u8>,
    k: int,
)
    requires
        can_send(p, pcfg, l, width, height),
        0 <= k < link_encoder::layout_of(l, frame_idx).payload_pos@.len(),
    ensures
        ({
            let layout = link_encoder::layout_of(l, frame_idx);
            let n = pcfg.bits_per_plane as nat;
            let code = link_draw::symbol_code(
                bits,
                link_draw::frame_order(&layout, pcfg, frame_idx),
                k * n,
                n,
            );
            link_frame::block_is(
                drawn_luma(p, pcfg, l, width, height, profile, frame_idx, bits),
                width,
                layout.payload_pos@[k].0 as int,
                layout.payload_pos@[k].1 as int,
                pcfg.y_levels@[link_draw::level_of(code, pcfg.pam_m as int)],
            ) && shows_colour(
                drawn_frame(p, pcfg, l, width, height, profile, frame_idx, bits),
                width,
                layout.payload_pos@[k],
                pcfg.y_levels@[link_draw::level_of(code, pcfg.pam_m as int)],
                128,
                128,
            )
        }),
{
    let layout = link_encoder::layout_of(l, frame_idx);
    let pos = layout.payload_pos@;
    let list = link_encoder::frame_paints(p, pcfg, l, profile, frame_idx, bits);
    let payload = link_draw::payload_paints(
        pcfg,
        pos,
        bits,
        link_draw::frame_order(&layout, pcfg, frame_idx),
    );
    lemma_frame_paints_fit(p, pcfg, l, width, height, profile, frame_idx, bits);
    link_encoder::lemma_payload_apart(p, pcfg, l, width, height);
    let first = list.len() - payload.len();
    assert(list[first + k] == payload[k]);
    assert forall|j: int| first + k < j < list.len() implies (#[trigger] list[j]).bx != list[first
        + k].bx || list[j].by != list[first + k].by by {
        assert(list[j] == payload[j - first]);
        assert(pos[j - first] != pos[k]);
    }
    lemma_last_paint_in_frame(
        p,
        pcfg,
        l,
        width,
        height,
        profile,
        frame_idx,
        bits,
        first + k,
        pos[k],
    );
}

/// Every bit of every copy of the boot message that is written in a key frame shows its
/// colour.
pub proof fn law_boot_is_shown(
    p: &LinkParams,
    pcfg: &LinkProfile,
    l: LinkLayouts,
    width: int,
    height: int,
    profile: u8,
    frame_idx: u32,
    bits: Seq<u8>,
    c: int,
    i: int,
)
    requires
        can_send(p, pcfg, l, width, height),
        frame_idx % 8 == 0,
        0 <= c < link_draw::copies_written(
            p,
            pcfg.boot_copies as int,
            l.boot.copies@.len() as int,
        ),
        0 <= i < l.boot.copies@[c]@.len(),
    ensures
        ({
            let sent = bitstream::unpacked(boot::boot_record(p, profile, frame_idx));
            link_frame::block_is(
                drawn_luma(p, pcfg, l, width, height, profile, frame_idx, bits),
                width,
                l.boot.copies@[c]@[i].0 as int,
                l.boot.copies@[c]@[i].1 as int,
                if i < sent.len() && sent[i] != 0 {
                    p.loc_y1
                } else {
                    p.loc_y0
                },
            ) && if i < sent.len() && sent[i] != 0 {
                shows_colour(
                    drawn_frame(p, pcfg, l, width, height, profile, frame_idx, bits),
                    width,
                    l.boot.copies@[c]@[i],
                    p.loc_y1,
                    p.loc_u1,
                    p.loc_v1,
                )
            } else {
                shows_colour(
                    drawn_frame(p, pcfg, l, width, height, profile, frame_idx, bits),
                    width,
                    l.boot.copies@[c]@[i],
                    p.loc_y0,
                    p.loc_u0,
                    p.loc_v0,
                )
            }
        }),
{
    let pos = l.key.payload_pos@;
    let list = link_encoder::frame_paints(p, pcfg, l, profile, frame_idx, bits);
    let copies = link_draw::copies_written(
        p,
        pcfg.boot_copies as int,
        l.boot.copies@.len() as int,
    ) as nat;
    let (bx_n, by_n) = (l.key.bx_n as int, l.key.by_n as int);
    let side = link_layout::locator_side(bx_n, by_n, pcfg.locator_size as int);
    let record = boot::boot_record(p, profile, frame_idx);
    let cal = link_plan::cal_blocks(pcfg);
    let a = link_draw::locator_paints(p, bx_n, by_n, side as nat);
    let b = link_draw::boot_paints(p, record, l.boot.copies@, copies);
    let s = link_draw::cal_paints(pcfg, l.key.cal_pos@);
    let payload = link_draw::payload_paints(
        pcfg,
        pos,
        bits,
        link_draw::frame_order(&l.key, pcfg, frame_idx),
    );
    assert(list == a + b + s + payload);
    lemma_frame_paints_fit(p, pcfg, l, width, height, profile, frame_idx, bits);
    link_encoder::lemma_payload_apart(p, pcfg, l, width, height);
    lemma_boot_paints(p, record, l.boot.copies@, copies);
    link_layout::law_boot_keeps_clear(p, l.boot, width, height, pcfg.boot_copies as int, cal);
    let used = link_layout::boot_blocks(l.boot.copies@, copies);
    let every = link_layout::boot_blocks(l.boot.copies@, l.boot.copies@.len());
    link_layout::lemma_boot_blocks_prefix(l.boot.copies@, copies, l.boot.copies@.len());
    let j0 = lemma_boot_paint_at(p, record, l.boot.copies@, copies, c, i);
    let at = a.len() + j0;
    assert(list[at] == b[j0]);
    assert(every[j0] == used[j0]);
    assert forall|j: int| at < j < list.len() implies (#[trigger] list[j]).bx != list[at].bx
        || list[j].by != list[at].by by {
        if j < a.len() + b.len() {
            let x = j - a.len();
            assert(list[j] == b[x]);
            assert(every[x] == used[x]);
            assert(every[x] != every[j0]);
        } else if j < a.len() + b.len() + s.len() {
            let x = j - a.len() - b.len();
            assert(list[j] == s[x]);
            assert(!link_layout::in_cal_strip(every[j0], cal));
        } else {
            let x = j - a.len() - b.len() - s.len();
            assert(list[j] == payload[x]);
            assert(pos[x].1 >= 1 + p.header_rows);
        }
    }
    lemma_last_paint_in_frame(
        p,
        pcfg,
        l,
        width,
        height,
        profile,
        frame_idx,
        bits,
        at as int,
        l.boot.copies@[c]@[i],
    );
}

/// Every block of the calibration strip of a key frame shows its level, as long as the header has a
/// row for the strip.
pub proof fn law_calibration_is_shown(
    p: &LinkParams,
    pcfg: &LinkProfile,
    l: LinkLayouts,
    width: int,
    height: int,
    profile: u8,
    frame_idx: u32,
    bits: Seq<u8>,
    i: int,
)
    requires
        can_send(p, pcfg, l, width, height),
        p.header_rows >= 1,
        frame_idx % 8 == 0,
        0 <= i < l.key.cal_pos@.len(),
    ensures
        link_frame::block_is(
            drawn_luma(p, pcfg, l, width, height, profile, frame_idx, bits),
            width,
            l.key.cal_pos@[i].0 as int,
            l.key.cal_pos@[i].1 as int,
            pcfg.y_levels@[l.key.cal_pos@[i].2 as int],
        ),
        shows_colour(
            drawn_frame(p, pcfg, l, width, height, profile, frame_idx, bits),
            width,
            (l.key.cal_pos@[i].0, l.key.cal_pos@[i].1),
            pcfg.y_levels@[l.key.cal_pos@[i].2 as int],
            pcfg.u_levels@[l.key.cal_pos@[i].2 as int],
            pcfg.v_levels@[l.key.cal_pos@[i].2 as int],
        ),
{
    let pos = l.key.payload_pos@;
    let list = link_encoder::frame_paints(p, pcfg, l, profile, frame_idx, bits);
    let keys = link_encoder::key_paints(p, pcfg, l, profile, frame_idx);
    let s = link_draw::cal_paints(pcfg, l.key.cal_pos@);
    let payload = link_draw::payload_paints(
        pcfg,
        pos,
        bits,
        link_draw::frame_order(&l.key, pcfg, frame_idx),
    );
    assert(list == keys + payload);
    lemma_frame_paints_fit(p, pcfg, l, width, height, profile, frame_idx, bits);
    link_encoder::lemma_payload_apart(p, pcfg, l, width, height);
    let first = keys.len() - s.len();
    let at = first + i;
    assert(keys.subrange(first, keys.len() as int) =~= s);
    assert forall|x: int| 0 <= x < s.len() implies list[first + x] == #[trigger] s[x] by {
        assert(s[x] == keys.subrange(first, keys.len() as int)[x]);
    }
    let strip = l.key.cal_pos@;
    assert(list[at] == s[i]);
    assert forall|j: int| at < j < list.len() implies (#[trigger] list[j]).bx != list[at].bx
        || list[j].by != list[at].by by {
        if j < keys.len() {
            let x = j - first;
            assert(list[first + x] == s[x]);
            assert(strip[x].0 == 1 + x && strip[i].0 == 1 + i);
        } else {
            let x = j - keys.len();
            assert(list[j] == payload[x]);
            assert(pos[x].1 >= 1 + p.header_rows);
        }
    }
    lemma_last_paint_in_frame(
        p,
        pcfg,
        l,
        width,
        height,
        profile,
        frame_idx,
        bits,
        at,
        (strip[i].0, strip[i].1),
    );
}

/// A codeword that is lost or of the wrong size ends the reception with its number, and so does a
/// file whose checksum is not the one that its header gives.
pub proof fn law_failures_are_told(s: Reception, k: usize, info: Seq<u8>, h: StreamHeader)
    requires
        k % 8 == 0,
        s.codewords <= usize::MAX,
    ensures
        link_decoder::outcome(s, k, None) == Outcome::Fails(
            LinkDecodeError::CodewordLost { codeword: s.codewords as usize },
        ),
        8 * bitstream::packed(info).len() != k ==> link_decoder::outcome(s, k, Some(info))
            == Outcome::Fails(LinkDecodeError::BadEnvelope { codeword: s.codewords as usize }),
        ({
            let stream = s.stream + bitstream::packed(info);
            let file = stream.skip(24).take(h.file_len as int);
            8 * bitstream::packed(info).len() == k && k >= 8 && s.header == Some(h)
                && stream.len() >= 24 + h.file_len && (s.codewords + 1) * (k / 8) >= 24
                + h.file_len && checksum::crc32_of(file) != h.file_crc ==> link_decoder::outcome(
                s,
                k,
                Some(info),
            ) == Outcome::Fails(
                LinkDecodeError::CrcMismatch {
                    got: checksum::crc32_of(file),
                    expected: h.file_crc,
                },
            )
        }),
{
    let stream = s.stream + bitstream::packed(info);
    let b = (k / 8) as nat;
    let file = stream.skip(24).take(h.file_len as int);
    if 8 * bitstream::packed(info).len() == k && k >= 8 && s.header == Some(h) && stream.len() >= 24
        + h.file_len && (s.codewords + 1) * (k / 8) >= 24 + h.file_len {
        assert(file =~= link_decoder::file_in(stream, h));
        util::law_groups_suffice((24 + h.file_len) as nat, b);
        let n = link_decoder::codewords_needed(h, b);
        assert(s.codewords + 1 >= n) by (nonlinear_arith)
            requires
                (n - 1) * b < 24 + h.file_len,
                (s.codewords + 1) * b >= 24 + h.file_len,
                b > 0,
        ;
    }
}

/// Each codeword that reception goes on after adds its block to the stream and counts once; the
/// header, once it is known, stays.
pub proof fn law_reception_grows(s: Reception, k: usize, info: Option<Seq<u8>>, t: Reception)
    requires
        link_decoder::outcome(s, k, info) == Outcome::More(t),
    ensures
        info is Some,
        t.stream == s.stream + bitstream::packed(info->0),
        8 * bitstream::packed(info->0).len() == k,
        t.codewords == s.codewords + 1,
        t.profile == s.profile,
        t.max_file_len == s.max_file_len,
        s.header is Some ==> t.header == s.header,
        t.stream.len() >= 24 ==> t.header is Some,
        t.header is Some && s.header is None ==> link_decoder::header_fault(
            s.profile,
            s.max_file_len,
            t.header,
        ) is None,
{
}

} // verus!
