//! The frames of a transmission over the framed link.
use crate::boot;
use crate::checksum;
use crate::link_draw;
use crate::link_frame;
use crate::link_frame::{Paint, Yuv420Frame};
use crate::link_laws;
use crate::link_layout;
use crate::link_layout::ProfileLayout;
use crate::link_plan;
use crate::link_plan::LinkLayouts;
use crate::link_profile::{LinkParams, LinkProfile};
use crate::payload_tiles;
use crate::protocol;
use crate::util;
use vstd::prelude::*;

verus! {

/// What is painted on a key frame below its payload: locators, boot message, calibration strip.
pub open spec fn key_paints(
    p: &LinkParams,
    pcfg: &LinkProfile,
    l: LinkLayouts,
    profile: u8,
    frame_idx: u32,
) -> Seq<Paint> {
    let (bx_n, by_n) = (l.key.bx_n as int, l.key.by_n as int);
    let side = link_layout::locator_side(bx_n, by_n, pcfg.locator_size as int);
    let copies = link_draw::copies_written(
        p,
        pcfg.boot_copies as int,
        l.boot.copies@.len() as int,
    );
    link_draw::locator_paints(p, bx_n, by_n, side as nat) + link_draw::boot_paints(
        p,
        boot::boot_record(p, profile, frame_idx),
        l.boot.copies@,
        copies as nat,
    ) + link_draw::cal_paints(pcfg, l.key.cal_pos@)
}

/// The layout of a frame.
pub open spec fn layout_of(l: LinkLayouts, frame_idx: u32) -> ProfileLayout {
    if frame_idx % 8 == 0 {
        l.key
    } else {
        l.tracking
    }
}

/// What is painted on a frame.
pub open spec fn frame_paints(
    p: &LinkParams,
    pcfg: &LinkProfile,
    l: LinkLayouts,
    profile: u8,
    frame_idx: u32,
    bits: Seq<u8>,
) -> Seq<Paint> {
    let layout = layout_of(l, frame_idx);
    let payload = link_draw::payload_paints(
        pcfg,
        layout.payload_pos@,
        bits,
        link_draw::frame_order(&layout, pcfg, frame_idx),
    );
    if frame_idx % 8 == 0 {
        key_paints(p, pcfg, l, profile, frame_idx) + payload
    } else {
        payload
    }
}

/// A grey frame.
pub open spec fn blank(width: int, height: int) -> link_frame::Planes {
    let c = ((width / 2) * (height / 2)) as nat;
    link_frame::Planes {
        y: util::constant((width * height) as nat, 128),
        u: util::constant(c, 128),
        v: util::constant(c, 128),
    }
}

/// There is a level for each symbol, and the bits of a frame can be counted.
pub open spec fn can_draw(pcfg: &LinkProfile, width: int, height: int) -> bool {
    &&& pcfg.pam_m <= pcfg.y_levels@.len()
    &&& pcfg.pam_m <= pcfg.u_levels@.len()
    &&& pcfg.pam_m <= pcfg.v_levels@.len()
    &&& ((width / 32) * (height / 32)) * pcfg.bits_per_plane <= usize::MAX
}

/// All blocks of the layouts lie in the frame.
pub proof fn lemma_layouts_fit(p: &LinkParams, pcfg: &LinkProfile, l: LinkLayouts, width: int, height: int)
    requires
        l.are_for(p, pcfg, width, height),
        can_draw(pcfg, width, height),
        0 <= width <= usize::MAX,
        0 <= height <= usize::MAX,
        p.boot_copies_max >= 1,
        (width / 32) * (height / 32) <= usize::MAX,
    ensures
        link_draw::boot_layout_fits(l.boot, width, height),
        l.boot.copies@.len() > 0,
        link_draw::payload_fits(pcfg, l.key.payload_pos@, width, height),
        link_draw::payload_fits(pcfg, l.tracking.payload_pos@, width, height),
        forall|i: int|
            #![trigger l.key.cal_pos@[i]]
            0 <= i < l.key.cal_pos@.len() ==> {
                let c = l.key.cal_pos@[i];
                &&& link_frame::fits(width, height, c.0 as int, c.1 as int)
                &&& c.2 < pcfg.pam_m
            },
{
    let (bx_n, by_n) = (width / 32, height / 32);
    let cal = link_plan::cal_blocks(pcfg);
    link_layout::law_boot_keeps_clear(
        p,
        l.boot,
        width,
        height,
        pcfg.boot_copies as int,
        cal,
    );
    let blocks = link_layout::boot_blocks(l.boot.copies@, l.boot.copies@.len());
    assert forall|c: int, i: int|
        0 <= c < l.boot.copies@.len() && 0 <= i < l.boot.copies@[c]@.len() implies link_frame::fits(
        width,
        height,
        (#[trigger] l.boot.copies@[c]@[i]).0 as int,
        l.boot.copies@[c]@[i].1 as int,
    ) by {
        link_layout::lemma_in_boot_blocks(l.boot.copies@, l.boot.copies@.len(), c, i);
        let k = choose|k: int|
            0 <= k < blocks.len() && blocks[k] == l.boot.copies@[c]@[i];
        assert(blocks[k] == l.boot.copies@[c]@[i]);
    }
    assert(pcfg.pam_m > 0 && pcfg.cal_repeats > 0) by (nonlinear_arith)
        requires
            pcfg.pam_m * pcfg.cal_repeats > 0,
            pcfg.pam_m >= 0,
            pcfg.cal_repeats >= 0,
    ;
    lemma_payload_fits(pcfg, l.key, width, height);
    lemma_payload_fits(pcfg, l.tracking, width, height);
    assert forall|i: int|
        #![trigger l.key.cal_pos@[i]]
        0 <= i < l.key.cal_pos@.len() implies ({
        let c = l.key.cal_pos@[i];
        &&& link_frame::fits(width, height, c.0 as int, c.1 as int)
        &&& c.2 < pcfg.pam_m
    }) by {
        let rep = pcfg.cal_repeats as int;
        let lvl = i / rep;
        assert(lvl < pcfg.pam_m && 0 <= lvl) by {
            vstd::arithmetic::div_mod::lemma_fundamental_div_mod(i, rep);
            assert(0 <= lvl < pcfg.pam_m) by (nonlinear_arith)
                requires
                    i == rep * lvl + i % rep,
                    0 <= i % rep < rep,
                    0 <= i < pcfg.pam_m * rep,
                    rep > 0,
            ;
        }
        let x = lvl as usize;
        assert((x as u8) <= x) by (bit_vector);
    }
}

proof fn lemma_payload_fits(pcfg: &LinkProfile, layout: ProfileLayout, width: int, height: int)
    requires
        0 <= width <= usize::MAX,
        0 <= height <= usize::MAX,
        width / 32 > 2,
        layout.bx_n == width / 32,
        1 <= layout.payload_by_start <= layout.payload_by_end == height / 32 - 1,
        layout.payload_pos@ == payload_tiles::payload_positions(
            layout.bx_n,
            layout.payload_by_start,
            layout.payload_by_end,
        ),
        (width / 32) * (height / 32) <= usize::MAX,
        0 < pcfg.pam_m <= pcfg.y_levels@.len(),
        can_draw(pcfg, width, height),
    ensures
        link_draw::payload_fits(pcfg, layout.payload_pos@, width, height),
        layout.payload_pos@.no_duplicates(),
        forall|k: int|
            0 <= k < layout.payload_pos@.len() ==> (#[trigger] layout.payload_pos@[k]).1
                >= layout.payload_by_start,
{
    let (bx_n, by_n) = (width / 32, height / 32);
    let pos = layout.payload_pos@;
    let (w, h) = (bx_n - 2, layout.payload_by_end - layout.payload_by_start);
    assert(0 <= w * h <= bx_n * by_n) by (nonlinear_arith)
        requires
            0 <= w <= bx_n,
            0 <= h <= by_n,
    ;
    payload_tiles::law_payload_covers_area(
        layout.bx_n,
        layout.payload_by_start,
        layout.payload_by_end,
    );
    let area = bx_n * by_n;
    assert(pos.len() * pcfg.bits_per_plane <= area * pcfg.bits_per_plane) by (nonlinear_arith)
        requires
            0 <= pos.len() <= area,
            pcfg.bits_per_plane >= 0,
    ;
    assert forall|k: int| 0 <= k < pos.len() implies link_frame::fits(
        width,
        height,
        (#[trigger] pos[k]).0 as int,
        pos[k].1 as int,
    ) && pos[k].1 >= layout.payload_by_start by {
        assert(pos.contains(pos[k]));
    }
}

/// Payload blocks are distinct, and those of key frames stand below the header.
pub proof fn lemma_payload_apart(p: &LinkParams, pcfg: &LinkProfile, l: LinkLayouts, width: int, height: int)
    requires
        l.are_for(p, pcfg, width, height),
        can_draw(pcfg, width, height),
        0 <= width <= usize::MAX,
        0 <= height <= usize::MAX,
        (width / 32) * (height / 32) <= usize::MAX,
    ensures
        l.key.payload_pos@.no_duplicates(),
        l.tracking.payload_pos@.no_duplicates(),
        forall|k: int|
            0 <= k < l.key.payload_pos@.len() ==> (#[trigger] l.key.payload_pos@[k]).1 >= 1
                + p.header_rows,
{
    assert(pcfg.pam_m > 0) by (nonlinear_arith)
        requires
            pcfg.pam_m * pcfg.cal_repeats > 0,
            pcfg.pam_m >= 0,
            pcfg.cal_repeats >= 0,
    ;
    lemma_payload_fits(pcfg, l.key, width, height);
    lemma_payload_fits(pcfg, l.tracking, width, height);
}

/// The stream of a file: its header, then the file.
pub fn make_stream(profile: u8, file: &[u8]) -> (s: Vec<u8>)
    requires
        file@.len() + 24 <= usize::MAX,
    ensures
        s@ == link_laws::stream_of(profile, file@),
{
    let crc: u32 = checksum::crc32_bytes(file);
    let mut s: Vec<u8> = protocol::make_stream_header(profile, file.len() as u64, crc);
    util::append_all(&mut s, file);
    s
}

/// Draws a frame of a transmission.
pub fn draw_frame(
    frame: &mut Yuv420Frame,
    p: &LinkParams,
    pcfg: &LinkProfile,
    l: &LinkLayouts,
    profile: u8,
    frame_idx: u32,
    bits: &[u8],
)
    requires
        old(frame).wf(),
        p.wf(),
        p.boot_copies_max >= 1,
        l.are_for(p, pcfg, old(frame).width as int, old(frame).height as int),
        can_draw(pcfg, old(frame).width as int, old(frame).height as int),
    ensures
        final(frame).wf(),
        final(frame).width == old(frame).width,
        final(frame).height == old(frame).height,
        ({
            let list = frame_paints(p, pcfg, *l, profile, frame_idx, bits@);
            let (w, h) = (old(frame).width as int, old(frame).height as int);
            final(frame).planes() == link_frame::painted(blank(w, h), w, h, list, list.len())
        }),
{
    let ghost (w, h) = (frame.width as int, frame.height as int);
    proof {
        lemma_blocks_fit(w, h, frame.y@.len());
        assert(frame.y.len() <= usize::MAX);
        lemma_layouts_fit(p, pcfg, *l, w, h);
    }
    frame.clear(128, 128);
    let ghost f0 = frame.planes();
    assert(f0 == blank(w, h)) by {
        assert(f0.y =~= blank(w, h).y);
        assert(f0.u =~= blank(w, h).u);
        assert(f0.v =~= blank(w, h).v);
    }
    let is_key: bool = link_layout::frame_uses_boot_cal(frame_idx);
    let ghost keys = key_paints(p, pcfg, *l, profile, frame_idx);
    let ghost payload = link_draw::payload_paints(
        pcfg,
        layout_of(*l, frame_idx).payload_pos@,
        bits@,
        link_draw::frame_order(&layout_of(*l, frame_idx), pcfg, frame_idx),
    );
    if is_key {
        link_draw::draw_locators(frame, p, l.key.bx_n, l.key.by_n, pcfg.locator_size);
        let record: Vec<u8> = boot::make_boot(p, profile, frame_idx);
        proof {
            assert(record@.len() * 8 <= p.boot_code_bits()) by (nonlinear_arith)
                requires
                    record@.len() <= p.boot_rs_n() * p.boot_rs_repeat,
                    p.boot_code_bits() == p.boot_rs_n() * 8 * p.boot_rs_repeat,
            ;
        }
        link_draw::write_boot(frame, p, &l.boot, record.as_slice(), pcfg.boot_copies);
        link_draw::draw_cal_strip(frame, pcfg, &l.key);
        proof {
            let (bx_n, by_n) = (l.key.bx_n as int, l.key.by_n as int);
            let side = link_layout::locator_side(bx_n, by_n, pcfg.locator_size as int);
            let copies = link_draw::copies_written(
                p,
                pcfg.boot_copies as int,
                l.boot.copies@.len() as int,
            );
            let a = link_draw::locator_paints(p, bx_n, by_n, side as nat);
            let b = link_draw::boot_paints(p, record@, l.boot.copies@, copies as nat);
            let c = link_draw::cal_paints(pcfg, l.key.cal_pos@);
            link_draw::lemma_painted_concat(f0, w, h, a, b, b.len());
            link_draw::lemma_painted_concat(f0, w, h, a + b, c, c.len());
            assert(frame.planes() == link_frame::painted(f0, w, h, keys, keys.len()));
        }
        link_draw::write_payload_interleaved_bits(frame, &l.key, pcfg, bits, frame_idx);
        proof {
            link_draw::lemma_painted_concat(f0, w, h, keys, payload, payload.len());
        }
    } else {
        link_draw::write_payload_interleaved_bits(frame, &l.tracking, pcfg, bits, frame_idx);
    }
}

/// A frame has fewer blocks than pixels.
proof fn lemma_blocks_fit(width: int, height: int, pixels: nat)
    requires
        0 <= width,
        0 <= height,
        pixels == width * height,
    ensures
        (width / 32) * (height / 32) <= pixels,
{
    let (a, b) = (width / 32, height / 32);
    assert(a * b <= width * height) by (nonlinear_arith)
        requires
            0 <= a <= width,
            0 <= b <= height,
    ;
}

} // verus!
