//! A whole reception over the framed link: frames are read one after another, their soft bits put in
//! order and cut into codewords, and the codewords become the file.
use crate::bitstream;
use crate::envelope;
use crate::gray;
use crate::interleave;
use crate::ldpc::LdpcCode;
use crate::link_decoder;
use crate::link_decoder::{LinkDecodeError, Outcome, Reception};
use crate::link_draw;
use crate::link_encoder;
use crate::link_frame;
use crate::link_laws;
use crate::link_layout;
use crate::link_layout::ProfileLayout;
use crate::link_plan;
use crate::link_plan::LinkLayouts;
use crate::link_profile::{LinkParams, LinkProfile};
use crate::llr;
use crate::llr::Assembly;
use crate::stream_coder;
use crate::util;
use vstd::prelude::*;

verus! {

/// What has become of a reception.
pub enum Receiving {
    Open(Assembly, Reception),
    Done(Seq<u8>),
    Failed(LinkDecodeError),
}

/// A reception after all whole codewords that are ready have been taken in. `decode` gives the
/// information bits of a codeword's soft bits.
pub open spec fn codewords_taken(
    a: Assembly,
    s: Reception,
    k: usize,
    decode: spec_fn(Seq<u32>) -> Option<Seq<u8>>,
) -> Receiving
    decreases a.ready.len(),
{
    let n = a.codeword_len as int;
    if n == 0 || a.ready.len() < n {
        Receiving::Open(a, s)
    } else {
        match link_decoder::outcome(s, k, decode(a.ready.take(n))) {
            Outcome::Fails(e) => Receiving::Failed(e),
            Outcome::Done(file) => Receiving::Done(file),
            Outcome::More(next) => codewords_taken(
                Assembly { ready: a.ready.skip(n), ..a },
                next,
                k,
                decode,
            ),
        }
    }
}

/// The soft bits of a frame in the order in which they were sent, from those of its blocks.
pub open spec fn soft_of(pcfg: &LinkProfile, l: LinkLayouts, frame_idx: u32, raw: Seq<u32>) -> Seq<u32> {
    let layout = link_encoder::layout_of(l, frame_idx);
    let len = link_layout::capacity_bits(&layout, pcfg) as usize;
    let (a, b) = interleave::permutation_params(
        len as nat,
        interleave::frame_seed(pcfg.profile, frame_idx),
    );
    interleave::restored(raw, len as nat, len, a as usize, b as usize, len as nat)
}

/// A reception after its first `n` frames. Of each frame there is what its boot message says, if it
/// has been read, and the soft bits of its blocks.
pub open spec fn received(
    pcfg: &LinkProfile,
    l: LinkLayouts,
    code: &LdpcCode,
    profile: u8,
    max_file_len: u64,
    boots: Seq<Option<(u8, u32)>>,
    raws: Seq<Seq<u32>>,
    decode: spec_fn(Seq<u32>) -> Option<Seq<u8>>,
    n: nat,
) -> Receiving
    decreases n,
{
    if n == 0 {
        Receiving::Open(
            Assembly {
                codeword_len: code.n as nat,
                waiting: Map::empty(),
                ready: Seq::empty(),
                expected: None,
            },
            Reception { profile, max_file_len, stream: Seq::empty(), codewords: 0, header: None },
        )
    } else {
        let i = n - 1;
        match received(pcfg, l, code, profile, max_file_len, boots, raws, decode, i as nat) {
            Receiving::Open(a, s) => {
                let number = link_decoder::frame_number(boots[i], a.expected, i as usize);
                let b = llr::with_frame(a, number, soft_of(pcfg, l, number, raws[i]));
                codewords_taken(
                    llr::drained(b, b.waiting.dom().len()),
                    s,
                    code.k,
                    decode,
                )
            },
            other => other,
        }
    }
}

/// Soft bit `t` of payload block `k` decides for that bit of the Gray code of level `v`, if the block
/// shows the luma of that level.
pub open spec fn decides_for_shown(
    plane: Seq<u8>,
    width: int,
    layout: ProfileLayout,
    pcfg: &LinkProfile,
    raw: Seq<u32>,
    k: int,
    t: int,
    v: int,
) -> bool {
    let n = pcfg.bits_per_plane as int;
    link_frame::block_is(
        plane,
        width,
        layout.payload_pos@[k].0 as int,
        layout.payload_pos@[k].1 as int,
        pcfg.y_levels@[v],
    ) ==> bitstream::hard_bit(raw[k * n + t]) == (gray::gray(v as u8) >> ((n - 1 - t) as u8)) & 1
}

/// The soft bits of each payload block decide for the level that it shows.
pub open spec fn is_read(
    plane: Seq<u8>,
    width: int,
    layout: ProfileLayout,
    pcfg: &LinkProfile,
    raw: Seq<u32>,
) -> bool {
    &&& raw.len() == layout.payload_pos@.len() * pcfg.bits_per_plane
    &&& forall|k: int, t: int, v: int|
        0 <= k < layout.payload_pos@.len() && 0 <= t < pcfg.bits_per_plane && 0 <= v < pcfg.pam_m
            ==> #[trigger] decides_for_shown(plane, width, layout, pcfg, raw, k, t, v)
}

/// The bits that a transmission sends in frame `i`.
pub open spec fn sent_bits(l: LinkLayouts, all: Seq<u8>, i: int) -> Seq<u8> {
    stream_coder::bits_from(all, l.capacity_before(i as nat), l.capacity_of(i) as nat)
}

/// A codeword all of whose hard decisions are right is decoded to its information bits.
pub open spec fn keeps_codeword(
    code: &LdpcCode,
    decode: spec_fn(Seq<u32>) -> Option<Seq<u8>>,
    word: Seq<u32>,
) -> bool {
    code.accepts(bitstream::hard_bits(word)) ==> decode(word) == Some(
        bitstream::hard_bits(word).take(code.k as int),
    )
}

/// The soft bits of codeword `c`, cut from those of all frames.
pub open spec fn word_at(code: &LdpcCode, joined: Seq<u32>, c: int) -> Seq<u32> {
    joined.subrange(c * code.n, c * code.n + code.n)
}

/// The soft bits of all frames.
pub open spec fn all_soft(pcfg: &LinkProfile, l: LinkLayouts, raws: Seq<Seq<u32>>) -> Seq<Seq<u32>> {
    Seq::new(raws.len(), |i: int| soft_of(pcfg, l, i as u32, raws[i]))
}

/// The layouts of a transmission carry as many bits as they have places for.
proof fn lemma_capacity(
    p: &LinkParams,
    pcfg: &LinkProfile,
    l: LinkLayouts,
    width: int,
    height: int,
    i: u32,
)
    requires
        link_laws::can_send(p, pcfg, l, width, height),
    ensures
        ({
            let layout = link_encoder::layout_of(l, i);
            &&& link_layout::capacity_bits(&layout, pcfg) == l.capacity_of(i as int)
            &&& l.capacity_of(i as int) == layout.payload_pos@.len() * pcfg.bits_per_plane
        }),
{
    link_plan::lemma_capacities(p, pcfg, width, height, l.key, l.tracking);
    link_encoder::lemma_layouts_fit(p, pcfg, l, width, height);
}

/// A drawn frame that is read gives the bits that were sent in it.
proof fn lemma_frame_arrives(
    p: &LinkParams,
    pcfg: &LinkProfile,
    l: LinkLayouts,
    width: int,
    height: int,
    profile: u8,
    all: Seq<u8>,
    raws: Seq<Seq<u32>>,
    i: int,
)
    requires
        link_laws::can_send(p, pcfg, l, width, height),
        0 < pcfg.bits_per_plane < 8,
        pcfg.pam_m == 1u8 << (pcfg.bits_per_plane as u8),
        bitstream::are_bits(all),
        0 <= i < raws.len() <= u32::MAX,
        l.capacity_of(i) * l.capacity_of(i) <= usize::MAX,
        is_read(
            link_laws::drawn_luma(
                p,
                pcfg,
                l,
                width,
                height,
                profile,
                i as u32,
                sent_bits(l, all, i),
            ),
            width,
            link_encoder::layout_of(l, i as u32),
            pcfg,
            raws[i],
        ),
    ensures
        link_laws::frame_arrives(l, all, all_soft(pcfg, l, raws), i),
        all_soft(pcfg, l, raws)[i].len() == l.capacity_of(i),
{
    let idx = i as u32;
    let layout = link_encoder::layout_of(l, idx);
    let bits = sent_bits(l, all, i);
    let raw = raws[i];
    let n = pcfg.bits_per_plane as int;
    let plane = link_laws::drawn_luma(p, pcfg, l, width, height, profile, idx, bits);
    lemma_capacity(p, pcfg, l, width, height, idx);
    assert(bitstream::are_bits(bits)) by {
        assert forall|j: int| 0 <= j < bits.len() implies (#[trigger] bits[j] == 0 || bits[j] == 1) by {
            let from = l.capacity_before(i as nat) + j;
            if from < all.len() {
                lemma_capacity_grows(l, 0, i as nat);
                assert(all[from] == 0 || all[from] == 1);
            }
        }
    }
    assert forall|k: int, t: int|
        0 <= k < layout.payload_pos@.len() && 0 <= t < n implies #[trigger] link_laws::symbol_arrives(
        layout,
        pcfg,
        idx,
        bits,
        raw,
        k,
        t,
    ) by {
        link_laws::law_payload_is_shown(p, pcfg, l, width, height, profile, idx, bits, k);
        let c = link_draw::symbol_code(
            bits,
            link_draw::frame_order(&layout, pcfg, idx),
            k * n,
            n as nat,
        );
        let v = link_draw::level_of(c, pcfg.pam_m as int);
        link_encoder::lemma_layouts_fit(p, pcfg, l, width, height);
        assert(0 <= v < pcfg.pam_m);
        assert(decides_for_shown(plane, width, layout, pcfg, raw, k, t, v));
    }
    link_laws::law_frame_bits_come_back(layout, pcfg, idx, bits, raw);
    let soft = all_soft(pcfg, l, raws)[i];
    assert(bitstream::hard_bits(soft).len() == soft.len());
}

proof fn lemma_capacity_grows(l: LinkLayouts, m: nat, n: nat)
    requires
        m <= n,
    ensures
        0 <= l.capacity_before(m) <= l.capacity_before(n),
    decreases n,
{
    if m < n {
        lemma_capacity_grows(l, m, (n - 1) as nat);
    } else if n > 0 {
        lemma_capacity_grows(l, (n - 1) as nat, (n - 1) as nat);
    }
}

/// The soft bits of the first frames are the first of those of all frames.
proof fn lemma_joined_prefix(l: LinkLayouts, soft: Seq<Seq<u32>>, m: nat, n: nat)
    requires
        m <= n <= soft.len(),
        forall|i: int| 0 <= i < soft.len() ==> (#[trigger] soft[i]).len() == l.capacity_of(i),
    ensures
        llr::frames_joined(soft, m).len() == l.capacity_before(m),
        l.capacity_before(m) <= llr::frames_joined(soft, n).len(),
        llr::frames_joined(soft, m) == llr::frames_joined(soft, n).take(l.capacity_before(m)),
    decreases n,
{
    let whole = llr::frames_joined(soft, n);
    if m < n {
        let n1 = (n - 1) as nat;
        lemma_joined_prefix(l, soft, m, n1);
        let part = llr::frames_joined(soft, n1);
        assert(whole.take(l.capacity_before(m)) =~= part.take(l.capacity_before(m)));
    } else {
        if n > 0 {
            let n1 = (n - 1) as nat;
            lemma_joined_prefix(l, soft, n1, n1);
            assert(soft[n1 as int].len() == l.capacity_of(n1 as int));
        }
        assert(whole.take(whole.len() as int) =~= whole);
    }
}

/// Taking one frame in that is next in order, where none waits.
proof fn lemma_next_frame(a: Assembly, number: u32, soft: Seq<u32>)
    requires
        a.waiting == Map::<u32, Seq<u32>>::empty(),
        a.expected is None || a.expected == Some(number),
        number < u32::MAX,
    ensures
        ({
            let b = llr::with_frame(a, number, soft);
            llr::drained(b, b.waiting.dom().len()) == (Assembly {
                ready: a.ready + soft,
                expected: Some((number + 1) as u32),
                ..a
            })
        }),
{
    let b = llr::with_frame(a, number, soft);
    let none = Set::<u32>::empty();
    assert(b.waiting.dom() =~= none.insert(number));
    assert(b.waiting.dom().len() == 1);
    reveal_with_fuel(llr::drained, 2);
    assert(b.waiting.remove(number) =~= Map::<u32, Seq<u32>>::empty());
}

/// Codeword `c` is decoded to the block of the stream that it carries.
spec fn word_arrives(
    code: &LdpcCode,
    stream: Seq<u8>,
    joined: Seq<u32>,
    decode: spec_fn(Seq<u32>) -> Option<Seq<u8>>,
    c: int,
) -> bool {
    let n = code.n as int;
    &&& 0 <= c * n
    &&& c * n + n <= joined.len()
    &&& decode(word_at(code, joined, c)) == Some(
        link_laws::block_info(stream, code.k as int / 8, c),
    )
}

/// How many codewords a file takes.
pub open spec fn codewords_of(code: &LdpcCode, file: Seq<u8>) -> nat {
    util::ceil_div(file.len() + 24, (code.k / 8) as nat)
}

/// What an assembler holds when `upto` soft bits have come and `c` codewords have been taken.
spec fn assembly_at(code: &LdpcCode, joined: Seq<u32>, c: int, upto: int, expected: Option<u32>) -> Assembly {
    Assembly {
        codeword_len: code.n as nat,
        waiting: Map::empty(),
        ready: joined.subrange(c * code.n, upto),
        expected,
    }
}

/// Taking the codewords of a file that have come so far, from codeword `c` on.
proof fn lemma_codewords_taken(
    code: &LdpcCode,
    profile: u8,
    max_file_len: u64,
    file: Seq<u8>,
    joined: Seq<u32>,
    decode: spec_fn(Seq<u32>) -> Option<Seq<u8>>,
    c: int,
    upto: int,
    expected: Option<u32>,
)
    requires
        code.wf(),
        envelope::payload_capacity(code.k) is Ok,
        0 < file.len() <= max_file_len,
        file.len() + 24 <= usize::MAX,
        0 <= c < codewords_of(code, file),
        0 <= c * code.n <= upto <= joined.len(),
        forall|q: int|
            0 <= q < codewords_of(code, file) ==> #[trigger] word_arrives(
                code,
                link_laws::stream_of(profile, file),
                joined,
                decode,
                q,
            ),
    ensures
        ({
            let size = code.k as int / 8;
            let r = codewords_taken(
                assembly_at(code, joined, c, upto, expected),
                link_laws::reception_at(profile, max_file_len, file, size, c),
                code.k,
                decode,
            );
            let d = upto / (code.n as int);
            if upto >= codewords_of(code, file) * code.n {
                r == Receiving::Done(file)
            } else {
                &&& 0 <= d < codewords_of(code, file)
                &&& 0 <= d * code.n <= upto
                &&& r == Receiving::Open(
                    assembly_at(code, joined, d, upto, expected),
                    link_laws::reception_at(profile, max_file_len, file, size, d),
                )
            }
        }),
    decreases codewords_of(code, file) - c,
{
    let n = code.n as int;
    let cw = codewords_of(code, file) as int;
    let size = code.k as int / 8;
    let stream = link_laws::stream_of(profile, file);
    let a = assembly_at(code, joined, c, upto, expected);
    assert((c + 1) * n == c * n + n) by (nonlinear_arith);
    if upto - c * n < n {
        vstd::arithmetic::div_mod::lemma_fundamental_div_mod_converse(upto, n, c, upto - c * n);
        assert((c + 1) * n <= cw * n) by (nonlinear_arith)
            requires
                c + 1 <= cw,
                n > 0,
        ;
    } else {
        assert(word_arrives(code, stream, joined, decode, c));
        assert(a.ready.take(n) =~= word_at(code, joined, c));
        link_laws::law_stream_comes_back(profile, max_file_len, file, code.k, c);
        if c + 1 < cw {
            assert(a.ready.skip(n) =~= joined.subrange((c + 1) * n, upto));
            lemma_codewords_taken(
                code,
                profile,
                max_file_len,
                file,
                joined,
                decode,
                c + 1,
                upto,
                expected,
            );
        }
    }
}

/// What a reception of a file holds after `i` frames, as long as frames are missing.
proof fn lemma_received(
    pcfg: &LinkProfile,
    l: LinkLayouts,
    code: &LdpcCode,
    profile: u8,
    max_file_len: u64,
    file: Seq<u8>,
    boots: Seq<Option<(u8, u32)>>,
    raws: Seq<Seq<u32>>,
    decode: spec_fn(Seq<u32>) -> Option<Seq<u8>>,
    i: nat,
)
    requires
        code.wf(),
        envelope::payload_capacity(code.k) is Ok,
        0 < file.len() <= max_file_len,
        file.len() + 24 <= usize::MAX,
        i <= raws.len() < u32::MAX,
        boots.len() == raws.len(),
        forall|j: int|
            0 <= j < boots.len() ==> (#[trigger] boots[j] is None || boots[j] == Some(
                (profile, j as u32),
            )),
        link_plan::are_frames_needed(l, codewords_of(code, file) * code.n, raws.len()),
        forall|j: int|
            0 <= j < raws.len() ==> (#[trigger] all_soft(pcfg, l, raws)[j]).len() == l.capacity_of(j),
        forall|q: int|
            0 <= q < codewords_of(code, file) ==> #[trigger] word_arrives(
                code,
                link_laws::stream_of(profile, file),
                llr::frames_joined(all_soft(pcfg, l, raws), raws.len()),
                decode,
                q,
            ),
    ensures
        ({
            let r = received(pcfg, l, code, profile, max_file_len, boots, raws, decode, i);
            let joined = llr::frames_joined(all_soft(pcfg, l, raws), raws.len());
            let size = code.k as int / 8;
            let upto = l.capacity_before(i);
            let d = upto / (code.n as int);
            if i == raws.len() {
                r == Receiving::Done(file)
            } else {
                &&& 0 <= d < codewords_of(code, file)
                &&& 0 <= d * code.n <= upto <= joined.len()
                &&& r == Receiving::Open(
                    assembly_at(
                        code,
                        joined,
                        d,
                        upto,
                        if i == 0 {
                            None
                        } else {
                            Some(i as u32)
                        },
                    ),
                    link_laws::reception_at(profile, max_file_len, file, size, d),
                )
            }
        }),
    decreases i,
{
    let n = code.n as int;
    let cw = codewords_of(code, file) as int;
    let size = code.k as int / 8;
    let soft = all_soft(pcfg, l, raws);
    let total = raws.len();
    let joined = llr::frames_joined(soft, total);
    let upto = l.capacity_before(i);
    assert(cw >= 1) by {
        lemma_some_codewords(file.len() + 24, (code.k / 8) as nat);
    }
    assert(cw * n >= 1) by (nonlinear_arith)
        requires
            cw >= 1,
            n >= 1,
    ;
    lemma_joined_prefix(l, soft, i, total);
    if i == 0 {
        assert(0 * n == 0) by (nonlinear_arith);
        vstd::arithmetic::div_mod::lemma_fundamental_div_mod_converse(0, n, 0, 0);
        assert(joined.subrange(0, 0) =~= Seq::<u32>::empty());
        link_laws::law_stream_comes_back(profile, max_file_len, file, code.k, 0);
    } else {
        let m = (i - 1) as nat;
        lemma_received(pcfg, l, code, profile, max_file_len, file, boots, raws, decode, m);
        lemma_joined_prefix(l, soft, m, total);
        let before = l.capacity_before(m);
        let d = before / n;
        let a = assembly_at(
            code,
            joined,
            d,
            before,
            if m == 0 {
                None
            } else {
                Some(m as u32)
            },
        );
        let number = m as u32;
        assert(boots[m as int] is None || boots[m as int] == Some((profile, m as u32)));
        assert(link_decoder::frame_number(boots[m as int], a.expected, m as usize) == number);
        lemma_next_frame(a, number, soft[m as int]);
        assert(soft[m as int] == soft_of(pcfg, l, number, raws[m as int]));
        assert(a.ready + soft[m as int] =~= joined.subrange(d * n, upto)) by {
            let first = llr::frames_joined(soft, i);
            assert(first == llr::frames_joined(soft, m) + soft[m as int]);
            assert forall|x: int| d * n <= x < upto implies (a.ready + soft[m as int])[x - d * n]
                == joined[x] by {
                assert(first[x] == joined.take(upto)[x]);
                if x < before {
                    assert(a.ready[x - d * n] == joined[x]);
                }
            }
        }
        lemma_codewords_taken(
            code,
            profile,
            max_file_len,
            file,
            joined,
            decode,
            d,
            upto,
            Some(i as u32),
        );
        if i < total {
            lemma_capacity_grows(l, i, (total - 1) as nat);
        }
    }
}

proof fn lemma_some_codewords(len: nat, size: nat)
    requires
        len > 0,
        size > 0,
    ensures
        util::ceil_div(len, size) >= 1,
{
    vstd::arithmetic::div_mod::lemma_fundamental_div_mod(len as int, size as int);
    let q = len as int / size as int;
    if len % size == 0 {
        assert(q >= 1) by (nonlinear_arith)
            requires
                len == size * q,
                len > 0,
                size > 0,
        ;
    } else {
        assert(q >= 0) by (nonlinear_arith)
            requires
                len == size * q + len % size,
                0 <= len % size < size,
                len > 0,
                size > 0,
        ;
    }
}

/// A file that is sent is received. Where the frames of its plan are drawn and read, so that the soft
/// bits of each block decide for the level that the block shows, where a frame's boot message says its
/// number or cannot be read, and where a codeword all of whose hard decisions are right is decoded to
/// its information bits, the last frame gives the file, and nothing fails before.
pub proof fn law_sent_file_is_received(
    p: &LinkParams,
    pcfg: &LinkProfile,
    l: LinkLayouts,
    code: &LdpcCode,
    width: int,
    height: int,
    profile: u8,
    max_file_len: u64,
    file: Seq<u8>,
    boots: Seq<Option<(u8, u32)>>,
    raws: Seq<Seq<u32>>,
    decode: spec_fn(Seq<u32>) -> Option<Seq<u8>>,
)
    requires
        link_laws::can_send(p, pcfg, l, width, height),
        0 < pcfg.bits_per_plane < 8,
        pcfg.pam_m == 1u8 << (pcfg.bits_per_plane as u8),
        l.key_bits * l.key_bits <= usize::MAX,
        l.tracking_bits * l.tracking_bits <= usize::MAX,
        code.wf(),
        envelope::payload_capacity(code.k) is Ok,
        0 < file.len() <= max_file_len,
        file.len() + 24 <= usize::MAX,
        raws.len() < u32::MAX,
        link_plan::are_frames_needed(l, codewords_of(code, file) * code.n, raws.len()),
        boots.len() == raws.len(),
        forall|i: int|
            0 <= i < boots.len() ==> (#[trigger] boots[i] is None || boots[i] == Some(
                (profile, i as u32),
            )),
        forall|i: int|
            0 <= i < raws.len() ==> is_read(
                link_laws::drawn_luma(
                    p,
                    pcfg,
                    l,
                    width,
                    height,
                    profile,
                    i as u32,
                    sent_bits(
                        l,
                        stream_coder::coded_stream(
                            code,
                            link_laws::stream_of(profile, file),
                            code.k as int / 8,
                            codewords_of(code, file),
                        ),
                        i,
                    ),
                ),
                width,
                link_encoder::layout_of(l, i as u32),
                pcfg,
                #[trigger] raws[i],
            ),
        forall|c: int|
            0 <= c < codewords_of(code, file) ==> keeps_codeword(
                code,
                decode,
                #[trigger] word_at(
                    code,
                    llr::frames_joined(all_soft(pcfg, l, raws), raws.len()),
                    c,
                ),
            ),
    ensures
        received(pcfg, l, code, profile, max_file_len, boots, raws, decode, raws.len())
            == Receiving::Done(file),
        forall|n: nat|
            n < raws.len() ==> #[trigger] received(
                pcfg,
                l,
                code,
                profile,
                max_file_len,
                boots,
                raws,
                decode,
                n,
            ) is Open,
{
    let stream = link_laws::stream_of(profile, file);
    let size = code.k as int / 8;
    let cw = codewords_of(code, file);
    let all = stream_coder::coded_stream(code, stream, size, cw);
    let soft = all_soft(pcfg, l, raws);
    let joined = llr::frames_joined(soft, raws.len());
    stream_coder::lemma_coded_are_bits(code, stream, size, cw);
    assert forall|i: int| 0 <= i < raws.len() implies #[trigger] link_laws::frame_arrives(
        l,
        all,
        soft,
        i,
    ) && soft[i].len() == l.capacity_of(i) by {
        assert(raws[i] == raws[i]);
        lemma_frame_arrives(p, pcfg, l, width, height, profile, all, raws, i);
    }
    assert forall|i: int| 0 <= i < raws.len() implies (#[trigger] soft[i]).len() == l.capacity_of(
        i,
    ) by {
        assert(link_laws::frame_arrives(l, all, soft, i));
    }
    assert forall|c: int| 0 <= c < cw implies #[trigger] word_arrives(
        code,
        stream,
        joined,
        decode,
        c,
    ) by {
        link_laws::law_codewords_arrive(l, code, stream, size, cw, soft, c);
        link_laws::law_codeword_gives_block(code, stream, size, c);
        assert(keeps_codeword(code, decode, word_at(code, joined, c)));
    }
    lemma_received(pcfg, l, code, profile, max_file_len, file, boots, raws, decode, raws.len());
    assert forall|n: nat| n < raws.len() implies #[trigger] received(
        pcfg,
        l,
        code,
        profile,
        max_file_len,
        boots,
        raws,
        decode,
        n,
    ) is Open by {
        lemma_received(pcfg, l, code, profile, max_file_len, file, boots, raws, decode, n);
    }
}

} // verus!
