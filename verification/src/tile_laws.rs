//! What holds of the tiles that are drawn and of what becomes of frames that are not read.
use crate::params::ProfileCfg;
use crate::phy_channel;
use crate::phy_channel::{FrameReading, SlotLlr, SlotPayloadBits};
use crate::phy_layout;
use crate::phy_layout::FrameLayout;
use crate::util;
use vstd::prelude::*;

verus! {

/// A pixel of a locator is in its middle, which is half as wide and half as high.
pub open spec fn in_middle(lx: int, ly: int) -> bool {
    8 <= lx <= 23 && 8 <= ly <= 23
}

/// Locators are checkerboards of four-pixel cells: bright or dark, a cell of one colour, and the
/// next cell to the right or below of the other, unless one of them is in the middle and the other
/// is not. The locator of the next corner is the negative, and the first starts bright.
pub proof fn law_locator_is_a_checkerboard(corner: int, lx: int, ly: int, mx: int, my: int)
    requires
        0 <= corner,
        0 <= lx < 32,
        0 <= ly < 32,
        0 <= mx < 32,
        0 <= my < 32,
    ensures
        ({
            let a = phy_channel::locator_luma_at(corner, lx, ly);
            let b = phy_channel::locator_luma_at(corner, mx, my);
            &&& a == 240 || a == 16
            &&& lx / 4 == mx / 4 && ly / 4 == my / 4 ==> a == b
            &&& mx == lx + 4 && my == ly ==> (a == b <==> in_middle(lx, ly) != in_middle(mx, my))
            &&& mx == lx && my == ly + 4 ==> (a == b <==> in_middle(lx, ly) != in_middle(mx, my))
            &&& phy_channel::locator_luma_at(corner + 1, lx, ly) + a == 256
            &&& phy_channel::locator_luma_at(0, 0, 0) == 240
        }),
{
}

/// Pilots are stripes four pixels wide and eight high: bright or dark, the next stripe to the right
/// or below of the other colour. The next pilot is the negative, and the first starts bright.
pub proof fn law_pilot_is_striped(pilot: int, lx: int, ly: int, mx: int, my: int)
    requires
        0 <= pilot,
        0 <= lx < 32,
        0 <= ly < 32,
        0 <= mx < 32,
        0 <= my < 32,
    ensures
        ({
            let a = phy_channel::pilot_luma_at(pilot, lx, ly);
            let b = phy_channel::pilot_luma_at(pilot, mx, my);
            &&& a == 216 || a == 40
            &&& lx / 4 == mx / 4 && ly / 8 == my / 8 ==> a == b
            &&& mx == lx + 4 && my == ly ==> a != b
            &&& mx == lx && my == ly + 8 ==> a != b
            &&& phy_channel::pilot_luma_at(pilot + 1, lx, ly) + a == 256
            &&& phy_channel::pilot_luma_at(0, 0, 0) == 216
        }),
{
}

/// The tiles are the pixels of their patterns, row by row.
pub proof fn law_tiles_are_row_by_row(n: int, lx: int, ly: int)
    requires
        0 <= lx < 32,
        0 <= ly < 32,
    ensures
        phy_channel::locator_tile(n).len() == 32 * 32,
        phy_channel::locator_tile(n)[32 * ly + lx] == phy_channel::locator_luma_at(n, lx, ly),
        phy_channel::pilot_tile(n).len() == 32 * 32,
        phy_channel::pilot_tile(n)[32 * ly + lx] == phy_channel::pilot_luma_at(n, lx, ly),
{
    assert((32 * ly + lx) % 32 == lx && (32 * ly + lx) / 32 == ly);
}

/// A zero is as much brighter than grey as a one is darker.
pub proof fn law_bits_lie_round_grey(bit: u8)
    requires
        bit == 0 || bit == 1,
    ensures
        phy_channel::bit_luma(bit) - 128 == if bit == 0 {
            96
        } else {
            -96int
        },
{
    phy_channel::lemma_bit_lumas();
}

/// A frame has three bytes for every two pixels.
pub proof fn law_frame_has_three_bytes_for_two_pixels(width: int, height: int)
    requires
        0 <= width,
        0 <= height,
        width % 2 == 0,
        height % 2 == 0,
    ensures
        2 * phy_layout::frame_size(width, height) == 3 * (width * height),
{
    let (w, h) = (width / 2, height / 2);
    assert(width * height == 4 * (w * h)) by (nonlinear_arith)
        requires
            width == 2 * w,
            height == 2 * h,
    ;
}

/// As many frames as are made hold all slots, one fewer would not, and there is always one.
pub proof fn law_frames_hold_all_slots(slots: nat, per: nat)
    requires
        per > 0,
    ensures
        phy_channel::frames_for(slots, per) >= 1,
        phy_channel::frames_for(slots, per) * per >= slots,
        phy_channel::frames_for(slots, per) > 1 ==> (phy_channel::frames_for(slots, per) - 1) * per
            < slots,
{
    util::law_groups_suffice(slots, per);
    if slots > 0 {
        let n = util::ceil_div(slots, per);
        assert(n >= 1) by (nonlinear_arith)
            requires
                n * per >= slots,
                slots > 0,
        ;
    }
}

/// A frame whose locators score high enough without a search for shifts does so with one.
pub proof fn law_search_reads_more(r: FrameReading)
    requires
        phy_channel::is_synced(r, false),
    ensures
        phy_channel::is_synced(r, true),
{
}

/// Of a slot nothing is known where its frame is not read, or where the shift takes its block out of
/// the frame.
pub proof fn law_lost_slot_is_unknown(
    s: SlotLlr,
    plane: Seq<u8>,
    l: FrameLayout,
    b: (usize, usize),
    r: FrameReading,
    profile: ProfileCfg,
    heavy_geom: bool,
)
    requires
        phy_channel::is_slot_of(s, plane, l, b, r, profile, heavy_geom),
        !phy_channel::is_synced(r, heavy_geom) || b.0 + r.offset.dx < 0 || b.1 + r.offset.dy < 0
            || b.0 + r.offset.dx >= l.bx_n || b.1 + r.offset.dy >= l.by_n,
    ensures
        s.sys_llr@.len() == profile.b_sys,
        s.par_llr@.len() == profile.b_par,
        forall|i: int| 0 <= i < profile.b_sys ==> #[trigger] s.sys_llr@[i] == 0,
        forall|i: int| 0 <= i < profile.b_par ==> #[trigger] s.par_llr@[i] == 0,
        s.q_pilot == 0,
{
}

/// The frames that are read are counted once each: all of them exactly where each is read, and none
/// exactly where none is.
pub proof fn law_read_frames_are_counted(readings: Seq<FrameReading>, heavy_geom: bool, n: nat)
    requires
        n <= readings.len(),
    ensures
        phy_channel::synced_count(readings, heavy_geom, n) <= n,
        phy_channel::synced_count(readings, heavy_geom, n) == n <==> forall|f: int|
            0 <= f < n ==> #[trigger] phy_channel::is_synced(readings[f], heavy_geom),
        phy_channel::synced_count(readings, heavy_geom, n) == 0 <==> forall|f: int|
            0 <= f < n ==> !#[trigger] phy_channel::is_synced(readings[f], heavy_geom),
    decreases n,
{
    if n > 0 {
        law_read_frames_are_counted(readings, heavy_geom, (n - 1) as nat);
        let last = phy_channel::is_synced(readings[n - 1], heavy_geom);
        assert(last || !last);
    }
}

/// A slot block that there is no slot for is grey, and so is what a slot leaves of its block.
pub proof fn law_spare_pixels_are_grey(
    bytes: Seq<u8>,
    l: FrameLayout,
    slots: Seq<SlotPayloadBits>,
    profile: ProfileCfg,
    f: int,
    k: int,
    i: int,
)
    requires
        phy_layout::layout_fault(l.width, l.height, profile) is None,
        phy_layout::is_layout(l, l.width, l.height, profile.slots_per_frame as int),
        phy_channel::carries(bytes, l, slots, profile),
        0 <= f < phy_channel::frames_for(slots.len(), profile.slots_per_frame as nat),
        0 <= k < l.slot_blocks@.len(),
        0 <= i < 1024,
        f * profile.slots_per_frame + k >= slots.len() || i
            >= slots[f * profile.slots_per_frame + k].sys_bits@.len()
            + slots[f * profile.slots_per_frame + k].par_bits@.len(),
    ensures
        phy_channel::frame_at(bytes, l.frame_bytes as int, f)[phy_channel::pixel(
            l.width as int,
            l.slot_blocks@[k],
            i,
        )] == 128,
{
    let frame = phy_channel::frame_at(bytes, l.frame_bytes as int, f);
    let blocks = phy_layout::drawn_blocks(l);
    let art = phy_channel::frame_art(l, slots, profile, f);
    let w = l.width as int;
    assert(phy_channel::is_drawn(frame, w, blocks, art, blocks.len() as int));
    let j = 4 + l.pilot_blocks@.len() + k;
    assert(blocks[j] == l.slot_blocks@[k]);
    assert(phy_channel::shows(frame, w, blocks[j], art[j]));
    assert(frame[phy_channel::pixel(w, blocks[j], i)] == art[j][i]);
}

/// A frame is read where the score of its locators is a number from 0.7 on, or from 0.55 on where
/// shifts are searched for: such numbers have the patterns from that of the bound up to infinity.
pub proof fn law_scores_that_are_read(r: FrameReading)
    ensures
        phy_channel::is_synced(r, false) <==> 0x3F33_3333 <= r.locator_score <= 0x7F80_0000,
        phy_channel::is_synced(r, true) <==> 0x3F0C_CCCD <= r.locator_score <= 0x7F80_0000,
{
}

} // verus!
