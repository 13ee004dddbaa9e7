//! What holds of comparing blocks with tiles and of frames that arrive shifted.
use crate::bitstream;
use crate::params::ProfileCfg;
use crate::phy_channel;
use crate::phy_channel::{BlockOffset, FrameReading, SlotLlr, SlotPayloadBits};
use crate::phy_layout;
use crate::phy_layout::FrameLayout;
use vstd::prelude::*;

verus! {

/// How far apart two lumas are.
pub open spec fn distance(a: u8, b: u8) -> int {
    if a >= b {
        a - b
    } else {
        b - a
    }
}

/// A block whose pixels are each at most `e` away from the tile's differs from it by at most `e`
/// for each pixel, and one whose pixels are each at least `e` away by at least that.
pub proof fn law_difference_is_bounded(
    plane: Seq<u8>,
    width: int,
    b: (usize, usize),
    tile: Seq<u8>,
    n: nat,
    e: nat,
)
    ensures
        (forall|i: int|
            0 <= i < n ==> distance(plane[#[trigger] phy_channel::pixel(width, b, i)], tile[i])
                <= e) ==> phy_channel::difference(plane, width, b, tile, n) <= n * e,
        (forall|i: int|
            0 <= i < n ==> distance(plane[#[trigger] phy_channel::pixel(width, b, i)], tile[i])
                >= e) ==> phy_channel::difference(plane, width, b, tile, n) >= n * e,
    decreases n,
{
    if n > 0 {
        law_difference_is_bounded(plane, width, b, tile, (n - 1) as nat, e);
        assert(n * e == (n - 1) * e + e) by (nonlinear_arith);
        let at = phy_channel::pixel(width, b, n - 1);
        assert(0 <= n - 1);
    }
}

/// Where two frames show the same in a block but for one pixel, their differences from a tile are
/// as far apart as that pixel's are.
pub proof fn law_difference_counts_each_pixel(
    was: Seq<u8>,
    now: Seq<u8>,
    width: int,
    b: (usize, usize),
    tile: Seq<u8>,
    n: nat,
    k: int,
)
    requires
        0 <= k < n,
        forall|i: int|
            0 <= i < n && i != k ==> now[#[trigger] phy_channel::pixel(width, b, i)]
                == was[phy_channel::pixel(width, b, i)],
    ensures
        phy_channel::difference(now, width, b, tile, n) - phy_channel::difference(
            was,
            width,
            b,
            tile,
            n,
        ) == distance(now[phy_channel::pixel(width, b, k)], tile[k]) - distance(
            was[phy_channel::pixel(width, b, k)],
            tile[k],
        ),
    decreases n,
{
    if k < n - 1 {
        law_difference_counts_each_pixel(was, now, width, b, tile, (n - 1) as nat, k);
        let at = phy_channel::pixel(width, b, n - 1);
        assert(now[at] == was[at]);
    } else {
        lemma_same_difference(was, now, width, b, tile, (n - 1) as nat);
    }
}

proof fn lemma_same_difference(
    was: Seq<u8>,
    now: Seq<u8>,
    width: int,
    b: (usize, usize),
    tile: Seq<u8>,
    n: nat,
)
    requires
        forall|i: int|
            0 <= i < n ==> now[#[trigger] phy_channel::pixel(width, b, i)]
                == was[phy_channel::pixel(width, b, i)],
    ensures
        phy_channel::difference(now, width, b, tile, n) == phy_channel::difference(
            was,
            width,
            b,
            tile,
            n,
        ),
    decreases n,
{
    if n > 0 {
        lemma_same_difference(was, now, width, b, tile, (n - 1) as nat);
        let at = phy_channel::pixel(width, b, n - 1);
        assert(now[at] == was[at]);
    }
}

/// A block that shows a tile but for one pixel differs from it by what that pixel is off.
pub proof fn law_one_pixel_off(
    plane: Seq<u8>,
    width: int,
    b: (usize, usize),
    tile: Seq<u8>,
    k: int,
)
    requires
        0 <= k < 1024,
        forall|i: int|
            0 <= i < 1024 && i != k ==> plane[#[trigger] phy_channel::pixel(width, b, i)]
                == tile[i],
    ensures
        phy_channel::difference(plane, width, b, tile, 1024) == distance(
            plane[phy_channel::pixel(width, b, k)],
            tile[k],
        ),
{
    lemma_one_pixel_off(plane, width, b, tile, k, 1024);
}

proof fn lemma_one_pixel_off(
    plane: Seq<u8>,
    width: int,
    b: (usize, usize),
    tile: Seq<u8>,
    k: int,
    n: nat,
)
    requires
        forall|i: int|
            0 <= i < n && i != k ==> plane[#[trigger] phy_channel::pixel(width, b, i)] == tile[i],
    ensures
        phy_channel::difference(plane, width, b, tile, n) == if 0 <= k < n {
            distance(plane[phy_channel::pixel(width, b, k)], tile[k])
        } else {
            0
        },
    decreases n,
{
    if n > 0 {
        lemma_one_pixel_off(plane, width, b, tile, k, (n - 1) as nat);
        let at = phy_channel::pixel(width, b, n - 1);
        assert(n - 1 == k || plane[at] == tile[n - 1]);
    }
}

/// A block moved by a shift is the one as far to the right and below as the shift says, and there
/// is one wherever that place is in the frame.
pub proof fn law_moved_block(
    b: (usize, usize),
    to: (usize, usize),
    bx_n: int,
    by_n: int,
    o: BlockOffset,
)
    requires
        bx_n <= usize::MAX,
        by_n <= usize::MAX,
    ensures
        phy_channel::moved(b, bx_n, by_n, o) == Some(to) <==> (to.0 - b.0 == o.dx && to.1 - b.1
            == o.dy && to.0 < bx_n && to.1 < by_n),
        phy_channel::moved(b, bx_n, by_n, o) is None <==> !(0 <= b.0 + o.dx < bx_n && 0 <= b.1
            + o.dy < by_n),
{
}

/// A block that was moved within the frame comes back under the opposite shift.
pub proof fn law_opposite_shift_moves_back(
    b: (usize, usize),
    bx_n: int,
    by_n: int,
    o: BlockOffset,
    back: BlockOffset,
)
    requires
        b.0 < bx_n <= usize::MAX,
        b.1 < by_n <= usize::MAX,
        0 <= b.0 + o.dx < bx_n,
        0 <= b.1 + o.dy < by_n,
        back.dx == -o.dx,
        back.dy == -o.dy,
    ensures
        phy_channel::moved(b, bx_n, by_n, o) matches Some(to) && phy_channel::moved(
            to,
            bx_n,
            by_n,
            back,
        ) == Some(b),
{
}

/// Each shift by up to one block either way is tried, and tried once.
pub proof fn law_each_small_shift_is_tried(dx: isize, dy: isize)
    requires
        -1 <= dx <= 1,
        -1 <= dy <= 1,
    ensures
        exists|k: int|
            0 <= k < 9 && #[trigger] phy_channel::offset_at(k) == (BlockOffset { dx, dy }),
        forall|j: int, k: int|
            0 <= j < k < 9 ==> #[trigger] phy_channel::offset_at(j)
                != #[trigger] phy_channel::offset_at(k),
{
    let k = (dy + 1) * 3 + dx + 1;
    assert(phy_channel::offset_at(k) == (BlockOffset { dx, dy }));
}

/// The luma of the pixel in column `x` and row `y`.
pub open spec fn luma_at(plane: Seq<u8>, width: int, x: int, y: int) -> u8 {
    plane[y * width + x]
}

/// The second plane shows what the first does, as many blocks to the right and below as the shift
/// says, as far as that is still in the frame.
pub open spec fn is_shifted(
    plane: Seq<u8>,
    shifted: Seq<u8>,
    width: int,
    height: int,
    o: BlockOffset,
) -> bool {
    forall|x: int, y: int|
        0 <= x < width && 0 <= y < height && 0 <= x + 32 * o.dx < width && 0 <= y + 32 * o.dy
            < height ==> #[trigger] luma_at(plane, width, x, y) == luma_at(
            shifted,
            width,
            x + 32 * o.dx,
            y + 32 * o.dy,
        )
}

/// A block that stays in the frame is shown in its new place.
proof fn lemma_shifted_block(
    plane: Seq<u8>,
    shifted: Seq<u8>,
    l: FrameLayout,
    o: BlockOffset,
    b: (usize, usize),
    to: (usize, usize),
    tile: Seq<u8>,
)
    requires
        l.width == 32 * l.bx_n,
        l.height == 32 * l.by_n,
        is_shifted(plane, shifted, l.width as int, l.height as int, o),
        b.0 < l.bx_n,
        b.1 < l.by_n,
        to.0 < l.bx_n,
        to.1 < l.by_n,
        to.0 == b.0 + o.dx,
        to.1 == b.1 + o.dy,
        phy_channel::shows(plane, l.width as int, b, tile),
    ensures
        phy_channel::shows(shifted, l.width as int, to, tile),
{
    let w = l.width as int;
    assert forall|i: int| 0 <= i < 1024 implies shifted[#[trigger] phy_channel::pixel(w, to, i)]
        == tile[i] by {
        let (x, y) = (32 * b.0 + i % 32, 32 * b.1 + i / 32);
        assert(luma_at(plane, w, x, y) == luma_at(shifted, w, x + 32 * o.dx, y + 32 * o.dy));
        assert(x + 32 * o.dx == 32 * to.0 + i % 32);
        assert(y + 32 * o.dy == 32 * to.1 + i / 32);
        assert(plane[phy_channel::pixel(w, b, i)] == tile[i]);
    }
}

/// In a frame that was drawn and arrives shifted, the locators and pilots that stayed in it match
/// exactly under that shift.
pub proof fn law_shifted_frame_matches(
    bytes: Seq<u8>,
    shifted: Seq<u8>,
    l: FrameLayout,
    slots: Seq<SlotPayloadBits>,
    profile: ProfileCfg,
    f: int,
    o: BlockOffset,
)
    requires
        phy_layout::layout_fault(l.width, l.height, profile) is None,
        phy_layout::is_layout(l, l.width, l.height, profile.slots_per_frame as int),
        phy_channel::carries(bytes, l, slots, profile),
        0 <= f < phy_channel::frames_for(slots.len(), profile.slots_per_frame as nat),
        is_shifted(
            phy_channel::frame_at(bytes, l.frame_bytes as int, f),
            shifted,
            l.width as int,
            l.height as int,
            o,
        ),
    ensures
        forall|c: int|
            0 <= c < 4 ==> {
                let b = phy_layout::locator_block(l.bx_n as int, l.by_n as int, c);
                0 <= b.0 + o.dx < l.bx_n && 0 <= b.1 + o.dy < l.by_n
                    ==> #[trigger] phy_channel::locator_differences_of(shifted, l, o)[c] == Some(
                    0u32,
                )
            },
        forall|p: int|
            0 <= p < l.pilot_blocks@.len() ==> {
                let b = l.pilot_blocks@[p];
                0 <= b.0 + o.dx < l.bx_n && 0 <= b.1 + o.dy < l.by_n
                    ==> #[trigger] phy_channel::pilot_differences_of(shifted, l, o)[p] == Some(
                    0u32,
                )
            },
{
    let frame = phy_channel::frame_at(bytes, l.frame_bytes as int, f);
    let blocks = phy_layout::drawn_blocks(l);
    let art = phy_channel::frame_art(l, slots, profile, f);
    let w = l.width as int;
    phy_layout::law_blocks_are_distinct(l, l.width, l.height, profile.slots_per_frame as int);
    assert(phy_channel::is_drawn(frame, w, blocks, art, blocks.len() as int));
    assert forall|c: int|
        0 <= c < 4 && 0 <= blocks[c].0 + o.dx < l.bx_n && 0 <= blocks[c].1 + o.dy
            < l.by_n implies #[trigger] phy_channel::locator_differences_of(shifted, l, o)[c]
        == Some(0u32) by {
        let to = ((blocks[c].0 + o.dx) as usize, (blocks[c].1 + o.dy) as usize);
        assert(blocks[c] == phy_layout::locator_block(l.bx_n as int, l.by_n as int, c));
        assert(phy_channel::shows(frame, w, blocks[c], art[c]));
        assert(blocks[c].0 < l.bx_n && blocks[c].1 < l.by_n);
        lemma_shifted_block(frame, shifted, l, o, blocks[c], to, phy_channel::locator_tile(c));
        phy_channel::law_shown_tile_has_no_difference(
            shifted,
            w,
            to,
            phy_channel::locator_tile(c),
            1024,
        );
    }
    assert forall|c: int|
        0 <= c < 4 implies blocks[c] == #[trigger] phy_layout::locator_block(
        l.bx_n as int,
        l.by_n as int,
        c,
    ) by {}
    assert forall|p: int| 0 <= p < l.pilot_blocks@.len() implies ({
        let b = l.pilot_blocks@[p];
        0 <= b.0 + o.dx < l.bx_n && 0 <= b.1 + o.dy < l.by_n
            ==> #[trigger] phy_channel::pilot_differences_of(shifted, l, o)[p] == Some(0u32)
    }) by {
        let j = 4 + p;
        let b = l.pilot_blocks@[p];
        assert(blocks[j] == b);
        assert(phy_channel::shows(frame, w, blocks[j], art[j]));
        assert(blocks[j].0 < l.bx_n && blocks[j].1 < l.by_n);
        if 0 <= b.0 + o.dx < l.bx_n && 0 <= b.1 + o.dy < l.by_n {
            let to = ((b.0 + o.dx) as usize, (b.1 + o.dy) as usize);
            lemma_shifted_block(frame, shifted, l, o, b, to, phy_channel::pilot_tile(p));
            phy_channel::law_shown_tile_has_no_difference(
                shifted,
                w,
                to,
                phy_channel::pilot_tile(p),
                1024,
            );
        }
    }
}

/// A slot that was drawn in a frame which arrives shifted, and that stayed in the frame, gives the
/// bits that were sent when it is read under that shift.
pub proof fn law_shifted_slot_reads_back(
    bytes: Seq<u8>,
    shifted: Seq<u8>,
    l: FrameLayout,
    slots: Seq<SlotPayloadBits>,
    profile: ProfileCfg,
    heavy_geom: bool,
    r: FrameReading,
    d: SlotLlr,
    f: int,
    k: int,
)
    requires
        phy_layout::layout_fault(l.width, l.height, profile) is None,
        phy_layout::is_layout(l, l.width, l.height, profile.slots_per_frame as int),
        phy_channel::carries(bytes, l, slots, profile),
        0 <= f < phy_channel::frames_for(slots.len(), profile.slots_per_frame as nat),
        0 <= k < l.slot_blocks@.len(),
        f * profile.slots_per_frame + k < slots.len(),
        slots[f * profile.slots_per_frame + k].sys_bits@.len() == profile.b_sys,
        slots[f * profile.slots_per_frame + k].par_bits@.len() == profile.b_par,
        profile.b_sys + profile.b_par == profile.coded_bits_per_slot <= 1024,
        bitstream::are_bits(slots[f * profile.slots_per_frame + k].sys_bits@),
        bitstream::are_bits(slots[f * profile.slots_per_frame + k].par_bits@),
        is_shifted(
            phy_channel::frame_at(bytes, l.frame_bytes as int, f),
            shifted,
            l.width as int,
            l.height as int,
            r.offset,
        ),
        0 <= l.slot_blocks@[k].0 + r.offset.dx < l.bx_n,
        0 <= l.slot_blocks@[k].1 + r.offset.dy < l.by_n,
        phy_channel::is_synced(r, heavy_geom),
        phy_channel::tells_bits_apart(r.llr_by_luma@),
        phy_channel::is_slot_of(
            d,
            shifted,
            l,
            l.slot_blocks@[k],
            r,
            profile,
            heavy_geom,
        ),
    ensures
        bitstream::hard_bits(d.sys_llr@) == slots[f * profile.slots_per_frame + k].sys_bits@,
        bitstream::hard_bits(d.par_llr@) == slots[f * profile.slots_per_frame + k].par_bits@,
        d.q_pilot == r.q_frame,
{
    let frame = phy_channel::frame_at(bytes, l.frame_bytes as int, f);
    let o = r.offset;
    let w = l.width as int;
    let s = slots[f * profile.slots_per_frame + k];
    let b = l.slot_blocks@[k];
    let to = ((b.0 + o.dx) as usize, (b.1 + o.dy) as usize);
    let tile = phy_channel::slot_tile(
        s.sys_bits@,
        s.par_bits@,
        profile.coded_bits_per_slot as int,
    );
    phy_channel::lemma_slot_is_shown(bytes, l, slots, profile, f, k);
    phy_layout::law_blocks_are_distinct(l, l.width, l.height, profile.slots_per_frame as int);
    let blocks = phy_layout::drawn_blocks(l);
    assert(blocks[4 + l.pilot_blocks@.len() + k] == b);
    lemma_shifted_block(frame, shifted, l, o, b, to, tile);
    phy_channel::lemma_bit_lumas();
    assert forall|i: int| 0 <= i < profile.b_sys implies bitstream::hard_bits(d.sys_llr@)[i]
        == s.sys_bits@[i] by {
        assert(shifted[phy_channel::pixel(w, to, 0 + i)] == tile[i]);
        assert(s.sys_bits@[i] == 0 || s.sys_bits@[i] == 1);
    }
    assert(bitstream::hard_bits(d.sys_llr@) =~= s.sys_bits@);
    assert forall|i: int| 0 <= i < profile.b_par implies bitstream::hard_bits(d.par_llr@)[i]
        == s.par_bits@[i] by {
        assert(shifted[phy_channel::pixel(w, to, profile.b_sys + i)] == tile[profile.b_sys + i]);
        assert(s.par_bits@[i] == 0 || s.par_bits@[i] == 1);
    }
    assert(bitstream::hard_bits(d.par_llr@) =~= s.par_bits@);
}

} // verus!
