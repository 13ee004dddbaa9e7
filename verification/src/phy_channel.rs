//! Slots of bits drawn into luma blocks, and read back from them.
use crate::bitstream;
use crate::float_bits;
use crate::params::{ProfileCfg, Y_BLOCK};
use crate::phy_layout;
use crate::phy_layout::{FrameLayout, LayoutError, BLOCK_PIXELS, LOCATOR_BLOCKS};
use crate::util;
use vstd::prelude::*;

verus! {

pub const LUMA_MID: u8 = 128;

pub const LUMA_ZERO: u8 = 224;

pub const LUMA_ONE: u8 = 32;

/// The bits that one slot carries.
#[derive(Clone, Debug)]
pub struct SlotPayloadBits {
    pub sys_bits: Vec<u8>,
    pub par_bits: Vec<u8>,
}

/// The soft bits read from one slot and the quality of the reading, as bit patterns of
/// single-precision numbers.
#[derive(Clone, Debug)]
pub struct SlotLlr {
    pub sys_llr: Vec<u32>,
    pub par_llr: Vec<u32>,
    pub q_pilot: u32,
}

#[derive(Clone, Debug)]
pub struct PhyDecodeResult {
    pub slots: Vec<SlotLlr>,
    pub frames_total: usize,
    pub frames_synced: usize,
}

/// The luma of pixel `(lx, ly)` of a locator: a checkerboard of 4-pixel cells, inverted in its
/// middle and in every second corner.
pub open spec fn locator_luma_at(corner: int, lx: int, ly: int) -> u8 {
    let middle: int = if 8 <= lx < 24 && 8 <= ly < 24 {
        1
    } else {
        0
    };
    if (lx / 4 + ly / 4 + corner + middle) % 2 == 0 {
        240
    } else {
        16
    }
}

/// The luma of pixel `(lx, ly)` of a pilot: stripes that the number of the pilot shifts.
pub open spec fn pilot_luma_at(pilot: int, lx: int, ly: int) -> u8 {
    if (lx / 4 + pilot + ly / 8) % 2 == 0 {
        216
    } else {
        40
    }
}

pub open spec fn bit_luma(bit: u8) -> u8 {
    if bit & 1 == 0 {
        224
    } else {
        32
    }
}

/// The pixels of a locator, row by row.
pub open spec fn locator_tile(corner: int) -> Seq<u8> {
    Seq::new(1024, |i: int| locator_luma_at(corner, i % 32, i / 32))
}

pub open spec fn pilot_tile(pilot: int) -> Seq<u8> {
    Seq::new(1024, |i: int| pilot_luma_at(pilot, i % 32, i / 32))
}

/// The pixels of a slot: its systematic bits, then its parity bits as far as the profile codes
/// bits, and middle grey for the rest.
pub open spec fn slot_tile(sys: Seq<u8>, par: Seq<u8>, coded: int) -> Seq<u8> {
    Seq::new(
        1024,
        |i: int|
            if i < sys.len() {
                bit_luma(sys[i])
            } else if i < coded && i - sys.len() < par.len() {
                bit_luma(par[i - sys.len()])
            } else {
                128
            },
    )
}

pub open spec fn grey_tile() -> Seq<u8> {
    util::constant(1024, 128)
}

/// The place of pixel `i` of block `b` in a plane.
pub open spec fn pixel(width: int, b: (usize, usize), i: int) -> int {
    (32 * b.1 + i / 32) * width + 32 * b.0 + i % 32
}

/// A block of a plane shows a tile.
pub open spec fn shows(plane: Seq<u8>, width: int, b: (usize, usize), tile: Seq<u8>) -> bool {
    forall|i: int| 0 <= i < 1024 ==> plane[#[trigger] pixel(width, b, i)] == tile[i]
}

/// A block lies in the plane.
pub open spec fn block_in(width: int, height: int, b: (usize, usize)) -> bool {
    32 * b.0 + 32 <= width && 32 * b.1 + 32 <= height
}

pub proof fn lemma_pixel(width: int, height: int, b: (usize, usize), i: int)
    requires
        block_in(width, height, b),
        0 <= i < 1024,
    ensures
        0 <= pixel(width, b, i) < width * height,
        pixel(width, b, i) / width == 32 * b.1 + i / 32,
        pixel(width, b, i) % width == 32 * b.0 + i % 32,
{
    let y = 32 * b.1 + i / 32;
    let x = 32 * b.0 + i % 32;
    vstd::arithmetic::div_mod::lemma_fundamental_div_mod_converse(
        pixel(width, b, i),
        width,
        y,
        x,
    );
    assert(y * width + x < width * height) by (nonlinear_arith)
        requires
            0 <= y < height,
            0 <= x < width,
    ;
    assert(y * width >= 0) by (nonlinear_arith)
        requires
            0 <= y,
            0 <= width,
    ;
}

/// Two pixels in one place are one pixel of one block.
pub proof fn lemma_pixel_injective(
    width: int,
    height: int,
    a: (usize, usize),
    i: int,
    b: (usize, usize),
    j: int,
)
    requires
        block_in(width, height, a),
        block_in(width, height, b),
        0 <= i < 1024,
        0 <= j < 1024,
        pixel(width, a, i) == pixel(width, b, j),
    ensures
        a == b,
        i == j,
{
    lemma_pixel(width, height, a, i);
    lemma_pixel(width, height, b, j);
}

fn locator_luma(corner_idx: usize, lx: usize, ly: usize) -> (r: u8)
    requires
        lx < 32,
        ly < 32,
    ensures
        r == locator_luma_at(corner_idx as int, lx as int, ly as int),
{
    let middle: usize = if lx >= 8 && lx < 24 && ly >= 8 && ly < 24 {
        1
    } else {
        0
    };
    if (lx / 4 + ly / 4 + corner_idx % 2 + middle) % 2 == 0 {
        240
    } else {
        16
    }
}

fn pilot_luma(pilot_idx: usize, lx: usize, ly: usize) -> (r: u8)
    requires
        lx < 32,
        ly < 32,
    ensures
        r == pilot_luma_at(pilot_idx as int, lx as int, ly as int),
{
    if (lx / 4 + pilot_idx % 2 + ly / 8) % 2 == 0 {
        216
    } else {
        40
    }
}

fn slot_bit_luma(bit: u8) -> (r: u8)
    ensures
        r == bit_luma(bit),
{
    if bit & 1 == 0 {
        LUMA_ZERO
    } else {
        LUMA_ONE
    }
}

fn make_locator_tile(corner_idx: usize) -> (t: Vec<u8>)
    ensures
        t@ == locator_tile(corner_idx as int),
{
    let ghost want = locator_tile(corner_idx as int);
    let mut t: Vec<u8> = Vec::with_capacity(BLOCK_PIXELS);
    let mut i: usize = 0;
    while i < BLOCK_PIXELS
        invariant
            i <= BLOCK_PIXELS,
            want == locator_tile(corner_idx as int),
            t@ == want.take(i as int),
        decreases BLOCK_PIXELS - i,
    {
        t.push(locator_luma(corner_idx, i % Y_BLOCK, i / Y_BLOCK));
        assert(want.take(i + 1) =~= want.take(i as int).push(want[i as int]));
        i = i + 1;
    }
    assert(want.take(1024) =~= want);
    t
}

fn make_pilot_tile(pilot_idx: usize) -> (t: Vec<u8>)
    ensures
        t@ == pilot_tile(pilot_idx as int),
{
    let ghost want = pilot_tile(pilot_idx as int);
    let mut t: Vec<u8> = Vec::with_capacity(BLOCK_PIXELS);
    let mut i: usize = 0;
    while i < BLOCK_PIXELS
        invariant
            i <= BLOCK_PIXELS,
            want == pilot_tile(pilot_idx as int),
            t@ == want.take(i as int),
        decreases BLOCK_PIXELS - i,
    {
        t.push(pilot_luma(pilot_idx, i % Y_BLOCK, i / Y_BLOCK));
        assert(want.take(i + 1) =~= want.take(i as int).push(want[i as int]));
        i = i + 1;
    }
    assert(want.take(1024) =~= want);
    t
}

fn make_slot_tile(slot: &SlotPayloadBits, coded: usize) -> (t: Vec<u8>)
    ensures
        t@ == slot_tile(slot.sys_bits@, slot.par_bits@, coded as int),
{
    let ghost want = slot_tile(slot.sys_bits@, slot.par_bits@, coded as int);
    let n: usize = slot.sys_bits.len();
    let mut t: Vec<u8> = Vec::with_capacity(BLOCK_PIXELS);
    let mut i: usize = 0;
    while i < BLOCK_PIXELS
        invariant
            i <= BLOCK_PIXELS,
            n == slot.sys_bits@.len(),
            want == slot_tile(slot.sys_bits@, slot.par_bits@, coded as int),
            t@ == want.take(i as int),
        decreases BLOCK_PIXELS - i,
    {
        let v: u8 = if i < n {
            slot_bit_luma(slot.sys_bits[i])
        } else if i < coded && i - n < slot.par_bits.len() {
            slot_bit_luma(slot.par_bits[i - n])
        } else {
            LUMA_MID
        };
        t.push(v);
        assert(want.take(i + 1) =~= want.take(i as int).push(want[i as int]));
        i = i + 1;
    }
    assert(want.take(1024) =~= want);
    t
}

/// Draws a tile on a block of the luma plane that a frame starts with.
fn fill_block(
    frame: &mut Vec<u8>,
    width: usize,
    height: usize,
    b: (usize, usize),
    tile: &Vec<u8>,
)
    requires
        tile.len() == 1024,
        block_in(width as int, height as int, b),
        width * height <= old(frame).len(),
    ensures
        final(frame)@.len() == old(frame)@.len(),
        forall|i: int|
            0 <= i < 1024 ==> final(frame)@[#[trigger] pixel(width as int, b, i)] == tile@[i],
        forall|k: int|
            0 <= k < old(frame)@.len() && (forall|i: int|
                0 <= i < 1024 ==> k != #[trigger] pixel(width as int, b, i))
                ==> #[trigger] final(frame)@[k] == old(frame)@[k],
{
    let ghost before = frame@;
    let mut i: usize = 0;
    while i < BLOCK_PIXELS
        invariant
            i <= 1024,
            tile.len() == 1024,
            block_in(width as int, height as int, b),
            width * height <= frame.len(),
            frame@.len() == before.len(),
            forall|j: int|
                0 <= j < i ==> frame@[#[trigger] pixel(width as int, b, j)] == tile@[j],
            forall|k: int|
                0 <= k < before.len() && (forall|j: int|
                    0 <= j < 1024 ==> k != #[trigger] pixel(width as int, b, j))
                    ==> #[trigger] frame@[k] == before[k],
        decreases 1024 - i,
    {
        let y: usize = Y_BLOCK * b.1 + i / Y_BLOCK;
        let x: usize = Y_BLOCK * b.0 + i % Y_BLOCK;
        proof {
            lemma_pixel(width as int, height as int, b, i as int);
            assert(0 <= y * width && y * width + x < width * height) by (nonlinear_arith)
                requires
                    y < height,
                    x < width,
            ;
        }
        let ghost here = frame@;
        let at: usize = y * width + x;
        frame.set(at, tile[i]);
        proof {
            assert(at == pixel(width as int, b, i as int));
            assert forall|j: int| 0 <= j < i + 1 implies frame@[#[trigger] pixel(
                width as int,
                b,
                j,
            )] == tile@[j] by {
                if j < i {
                    if pixel(width as int, b, j) == pixel(width as int, b, i as int) {
                        lemma_pixel_injective(
                            width as int,
                            height as int,
                            b,
                            j,
                            b,
                            i as int,
                        );
                    }
                    lemma_pixel(width as int, height as int, b, j);
                    assert(here[pixel(width as int, b, j)] == tile@[j]);
                }
            }
        }
        i = i + 1;
    }
}

/// What a slot block shows: the slot, or grey where there are no more slots.
pub open spec fn slot_art(slots: Seq<SlotPayloadBits>, k: int, coded: int) -> Seq<u8> {
    if 0 <= k < slots.len() {
        slot_tile(slots[k].sys_bits@, slots[k].par_bits@, coded)
    } else {
        grey_tile()
    }
}

/// What each of the blocks that are drawn on shows in frame `f`.
pub open spec fn frame_art(
    l: FrameLayout,
    slots: Seq<SlotPayloadBits>,
    profile: ProfileCfg,
    f: int,
) -> Seq<Seq<u8>> {
    let p = l.pilot_blocks@.len();
    Seq::new(
        phy_layout::drawn_blocks(l).len(),
        |j: int|
            if j < 4 {
                locator_tile(j)
            } else if j < 4 + p {
                pilot_tile(j - 4)
            } else {
                slot_art(
                    slots,
                    f * profile.slots_per_frame + (j - 4 - p),
                    profile.coded_bits_per_slot as int,
                )
            },
    )
}

/// The first `n` blocks show their tiles, and everything that they leave free is grey.
pub open spec fn is_drawn(
    frame: Seq<u8>,
    width: int,
    blocks: Seq<(usize, usize)>,
    art: Seq<Seq<u8>>,
    n: int,
) -> bool {
    &&& forall|j: int| 0 <= j < n ==> shows(frame, width, #[trigger] blocks[j], art[j])
    &&& forall|k: int|
        0 <= k < frame.len() && (forall|j: int, i: int|
            0 <= j < n && 0 <= i < 1024 ==> k != #[trigger] pixel(width, blocks[j], i))
            ==> #[trigger] frame[k] == 128
}

/// Blocks of a plane that do not overlap.
pub open spec fn are_disjoint(blocks: Seq<(usize, usize)>, width: int, height: int) -> bool {
    &&& blocks.no_duplicates()
    &&& forall|j: int| 0 <= j < blocks.len() ==> block_in(width, height, #[trigger] blocks[j])
}

/// Draws the next block.
fn draw_next(
    frame: &mut Vec<u8>,
    width: usize,
    height: usize,
    b: (usize, usize),
    tile: &Vec<u8>,
    blocks: Ghost<Seq<(usize, usize)>>,
    art: Ghost<Seq<Seq<u8>>>,
    n: Ghost<int>,
)
    requires
        width * height <= old(frame).len(),
        are_disjoint(blocks@, width as int, height as int),
        0 <= n@ < blocks@.len(),
        blocks@[n@] == b,
        tile@ == art@[n@],
        tile@.len() == 1024,
        is_drawn(old(frame)@, width as int, blocks@, art@, n@),
    ensures
        final(frame)@.len() == old(frame)@.len(),
        is_drawn(final(frame)@, width as int, blocks@, art@, n@ + 1),
{
    let ghost before = frame@;
    let ghost w = width as int;
    fill_block(frame, width, height, b, tile);
    proof {
        assert forall|j: int| 0 <= j < n@ + 1 implies shows(
            frame@,
            w,
            #[trigger] blocks@[j],
            art@[j],
        ) by {
            if j < n@ {
                assert forall|i: int| 0 <= i < 1024 implies frame@[#[trigger] pixel(w, blocks@[j], i)]
                    == art@[j][i] by {
                    let k = pixel(w, blocks@[j], i);
                    lemma_pixel(w, height as int, blocks@[j], i);
                    assert(before[k] == art@[j][i]) by {
                        assert(shows(before, w, blocks@[j], art@[j]));
                    }
                    assert forall|q: int| 0 <= q < 1024 implies k != #[trigger] pixel(w, b, q) by {
                        if k == pixel(w, b, q) {
                            lemma_pixel_injective(w, height as int, blocks@[j], i, b, q);
                        }
                    }
                }
            }
        }
        assert forall|k: int|
            0 <= k < frame@.len() && (forall|j: int, i: int|
                0 <= j < n@ + 1 && 0 <= i < 1024 ==> k != #[trigger] pixel(w, blocks@[j], i)) implies #[trigger] frame@[k]
            == 128 by {
            assert forall|q: int| 0 <= q < 1024 implies k != #[trigger] pixel(w, b, q) by {
                assert(k != pixel(w, blocks@[n@], q));
            }
            assert(before[k] == 128);
        }
    }
}

/// Every slot fits its block.
pub open spec fn slots_fit(slots: Seq<SlotPayloadBits>) -> bool {
    forall|k: int| 0 <= k < slots.len() ==> (#[trigger] slots[k]).sys_bits@.len() <= 1024
}

proof fn lemma_layout_disjoint(l: FrameLayout, width: usize, height: usize, profile: ProfileCfg)
    requires
        phy_layout::layout_fault(width, height, profile) is None,
        phy_layout::is_layout(l, width, height, profile.slots_per_frame as int),
    ensures
        are_disjoint(phy_layout::drawn_blocks(l), width as int, height as int),
{
    phy_layout::law_blocks_are_distinct(l, width, height, profile.slots_per_frame as int);
    let blocks = phy_layout::drawn_blocks(l);
    assert forall|j: int| 0 <= j < blocks.len() implies block_in(
        width as int,
        height as int,
        #[trigger] blocks[j],
    ) by {
        assert(blocks[j].0 < l.bx_n && blocks[j].1 < l.by_n);
    }
}

/// Draws one frame.
fn draw_frame(
    l: &FrameLayout,
    slots: &[SlotPayloadBits],
    profile: ProfileCfg,
    frame_idx: usize,
) -> (frame: Vec<u8>)
    requires
        phy_layout::layout_fault(l.width, l.height, profile) is None,
        phy_layout::is_layout(*l, l.width, l.height, profile.slots_per_frame as int),
        frame_idx * profile.slots_per_frame + profile.slots_per_frame <= usize::MAX,
        profile.slots_per_frame > 0,
        slots_fit(slots@),
    ensures
        frame@.len() == l.frame_bytes,
        is_drawn(
            frame@,
            l.width as int,
            phy_layout::drawn_blocks(*l),
            frame_art(*l, slots@, profile, frame_idx as int),
            phy_layout::drawn_blocks(*l).len() as int,
        ),
{
    let ghost blocks = phy_layout::drawn_blocks(*l);
    let ghost art = frame_art(*l, slots@, profile, frame_idx as int);
    let ghost pn = l.pilot_blocks@.len() as int;
    proof {
        lemma_layout_disjoint(*l, l.width, l.height, profile);
        phy_layout::lemma_slots_len(l.bx_n as int, l.by_n as int, profile.slots_per_frame as int);
    }
    let width: usize = l.width;
    let height: usize = l.height;
    let mut frame: Vec<u8> = util::filled(l.frame_bytes, LUMA_MID);
    let corners: [(usize, usize); 4] = phy_layout::locator_coords(l.bx_n, l.by_n);
    let mut c: usize = 0;
    while c < LOCATOR_BLOCKS
        invariant
            c <= 4,
            width == l.width,
            height == l.height,
            frame.len() == l.frame_bytes,
            l.frame_bytes == phy_layout::frame_size(width as int, height as int),
            corners@ == phy_layout::locator_blocks(l.bx_n as int, l.by_n as int),
            blocks == phy_layout::drawn_blocks(*l),
            art == frame_art(*l, slots@, profile, frame_idx as int),
            are_disjoint(blocks, width as int, height as int),
            is_drawn(frame@, width as int, blocks, art, c as int),
        decreases 4 - c,
    {
        let tile: Vec<u8> = make_locator_tile(c);
        proof {
            assert(width * height >= 0) by (nonlinear_arith)
                requires
                    width >= 0,
                    height >= 0,
            ;
        }
        draw_next(
            &mut frame,
            width,
            height,
            corners[c],
            &tile,
            Ghost(blocks),
            Ghost(art),
            Ghost(c as int),
        );
        c = c + 1;
    }
    let mut p: usize = 0;
    while p < l.pilot_blocks.len()
        invariant
            p <= l.pilot_blocks@.len(),
            width == l.width,
            height == l.height,
            pn == l.pilot_blocks@.len(),
            frame.len() == l.frame_bytes,
            l.frame_bytes == phy_layout::frame_size(width as int, height as int),
            blocks == phy_layout::drawn_blocks(*l),
            art == frame_art(*l, slots@, profile, frame_idx as int),
            are_disjoint(blocks, width as int, height as int),
            is_drawn(frame@, width as int, blocks, art, 4 + p),
        decreases l.pilot_blocks@.len() - p,
    {
        let tile: Vec<u8> = make_pilot_tile(p);
        proof {
            assert(width * height >= 0) by (nonlinear_arith)
                requires
                    width >= 0,
                    height >= 0,
            ;
            assert(blocks[4 + p] == l.pilot_blocks@[p as int]);
        }
        draw_next(
            &mut frame,
            width,
            height,
            l.pilot_blocks[p],
            &tile,
            Ghost(blocks),
            Ghost(art),
            Ghost(4 + p),
        );
        p = p + 1;
    }
    let base_slot: usize = frame_idx * profile.slots_per_frame;
    let mut s: usize = 0;
    while s < l.slot_blocks.len()
        invariant
            s <= l.slot_blocks@.len(),
            l.slot_blocks@.len() <= profile.slots_per_frame,
            base_slot == frame_idx * profile.slots_per_frame,
            base_slot + profile.slots_per_frame <= usize::MAX,
            width == l.width,
            height == l.height,
            pn == l.pilot_blocks@.len(),
            frame.len() == l.frame_bytes,
            l.frame_bytes == phy_layout::frame_size(width as int, height as int),
            blocks == phy_layout::drawn_blocks(*l),
            art == frame_art(*l, slots@, profile, frame_idx as int),
            are_disjoint(blocks, width as int, height as int),
            is_drawn(frame@, width as int, blocks, art, 4 + pn + s),
        decreases l.slot_blocks@.len() - s,
    {
        let k: usize = base_slot + s;
        let tile: Vec<u8> = if k < slots.len() {
            make_slot_tile(&slots[k], profile.coded_bits_per_slot)
        } else {
            util::filled(BLOCK_PIXELS, LUMA_MID)
        };
        proof {
            assert(width * height >= 0) by (nonlinear_arith)
                requires
                    width >= 0,
                    height >= 0,
            ;
            assert(blocks[4 + pn + s] == l.slot_blocks@[s as int]);
        }
        draw_next(
            &mut frame,
            width,
            height,
            l.slot_blocks[s],
            &tile,
            Ghost(blocks),
            Ghost(art),
            Ghost(4 + pn + s),
        );
        s = s + 1;
    }
    frame
}

/// How many frames carry a number of slots: at least one.
pub open spec fn frames_for(slots: nat, slots_per_frame: nat) -> nat {
    if slots == 0 {
        1
    } else {
        util::ceil_div(slots, slots_per_frame)
    }
}

/// Frame `f` of a sequence of frames.
pub open spec fn frame_at(bytes: Seq<u8>, frame_bytes: int, f: int) -> Seq<u8> {
    bytes.subrange(f * frame_bytes, f * frame_bytes + frame_bytes)
}

/// The bytes are the frames that carry the slots.
pub open spec fn carries(
    bytes: Seq<u8>,
    l: FrameLayout,
    slots: Seq<SlotPayloadBits>,
    profile: ProfileCfg,
) -> bool {
    let count = frames_for(slots.len(), profile.slots_per_frame as nat);
    &&& bytes.len() == count * l.frame_bytes
    &&& forall|f: int|
        0 <= f < count ==> is_drawn(
            #[trigger] frame_at(bytes, l.frame_bytes as int, f),
            l.width as int,
            phy_layout::drawn_blocks(l),
            frame_art(l, slots, profile, f),
            phy_layout::drawn_blocks(l).len() as int,
        )
}

/// The frames that carry the slots.
pub fn pack_slots_to_yuv420(
    slots: &[SlotPayloadBits],
    width: usize,
    height: usize,
    profile: ProfileCfg,
) -> (r: Result<Vec<u8>, LayoutError>)
    requires
        phy_layout::sizes_fit(width, height, profile),
        phy_layout::layout_fault(width, height, profile) is None ==> {
            let count = frames_for(slots@.len(), profile.slots_per_frame as nat);
            &&& profile.slots_per_frame > 0
            &&& slots_fit(slots@)
            &&& count * phy_layout::frame_size(width as int, height as int) <= usize::MAX
            &&& count * profile.slots_per_frame <= usize::MAX
        },
    ensures
        match r {
            Ok(out) => phy_layout::layout_fault(width, height, profile) is None && exists|
                l: FrameLayout,
            | #[trigger]
                phy_layout::is_layout(l, width, height, profile.slots_per_frame as int) && carries(
                    out@,
                    l,
                    slots@,
                    profile,
                ),
            Err(e) => phy_layout::layout_fault(width, height, profile) == Some(e),
        },
{
    let l: FrameLayout = match phy_layout::frame_layout(width, height, profile) {
        Ok(l) => l,
        Err(e) => {
            return Err(e);
        },
    };
    let spf: usize = profile.slots_per_frame;
    let frame_count: usize = if slots.len() == 0 {
        1
    } else {
        util::div_ceil(slots.len(), spf)
    };
    let ghost fb = l.frame_bytes as int;
    let mut out: Vec<u8> = Vec::new();
    let mut f: usize = 0;
    while f < frame_count
        invariant
            f <= frame_count,
            frame_count == frames_for(slots@.len(), spf as nat),
            frame_count * spf <= usize::MAX,
            spf == profile.slots_per_frame,
            spf > 0,
            fb == l.frame_bytes,
            l.width == width,
            l.height == height,
            slots_fit(slots@),
            phy_layout::layout_fault(width, height, profile) is None,
            phy_layout::is_layout(l, width, height, spf as int),
            out@.len() == f * fb,
            forall|g: int|
                0 <= g < f ==> is_drawn(
                    #[trigger] frame_at(out@, fb, g),
                    width as int,
                    phy_layout::drawn_blocks(l),
                    frame_art(l, slots@, profile, g),
                    phy_layout::drawn_blocks(l).len() as int,
                ),
        decreases frame_count - f,
    {
        assert(f * spf + spf <= frame_count * spf) by (nonlinear_arith)
            requires
                f + 1 <= frame_count,
                spf > 0,
        ;
        let ghost before = out@;
        let frame: Vec<u8> = draw_frame(&l, slots, profile, f);
        util::append_all(&mut out, frame.as_slice());
        proof {
            assert((f + 1) * fb == f * fb + fb) by (nonlinear_arith);
            assert(frame_at(out@, fb, f as int) =~= frame@);
            assert forall|g: int| 0 <= g < f + 1 implies is_drawn(
                #[trigger] frame_at(out@, fb, g),
                width as int,
                phy_layout::drawn_blocks(l),
                frame_art(l, slots@, profile, g),
                phy_layout::drawn_blocks(l).len() as int,
            ) by {
                if g < f {
                    assert(0 <= g * fb && g * fb + fb <= f * fb) by (nonlinear_arith)
                        requires
                            0 <= g,
                            g + 1 <= f,
                            fb >= 0,
                    ;
                    assert(frame_at(out@, fb, g) =~= frame_at(before, fb, g));
                }
            }
        }
        f = f + 1;
    }
    Ok(out)
}

/// A shift of a frame by whole blocks.
#[derive(Clone, Copy, Debug, PartialEq, Eq)]
pub struct BlockOffset {
    pub dx: isize,
    pub dy: isize,
}

impl Default for BlockOffset {
    fn default() -> (r: Self)
        ensures
            r.dx == 0,
            r.dy == 0,
    {
        BlockOffset { dx: 0, dy: 0 }
    }
}

/// Where a block is found under a shift, if it is still in the frame.
pub open spec fn moved(b: (usize, usize), bx_n: int, by_n: int, o: BlockOffset) -> Option<
    (usize, usize),
> {
    let (x, y) = (b.0 + o.dx, b.1 + o.dy);
    if 0 <= x < bx_n && 0 <= y < by_n {
        Some((x as usize, y as usize))
    } else {
        None
    }
}

/// A block's number moved by a shift can still be counted.
pub open spec fn shift_fits(bx: int, by: int, o: BlockOffset) -> bool {
    bx <= isize::MAX && by <= isize::MAX && bx + o.dx <= isize::MAX && by + o.dy <= isize::MAX
}

pub fn apply_block_offset(
    bx: usize,
    by: usize,
    bx_n: usize,
    by_n: usize,
    offset: BlockOffset,
) -> (r: Option<(usize, usize)>)
    requires
        bx_n <= isize::MAX,
        by_n <= isize::MAX,
        shift_fits(bx as int, by as int, offset),
    ensures
        r == moved((bx, by), bx_n as int, by_n as int, offset),
{
    let x: isize = bx as isize + offset.dx;
    let y: isize = by as isize + offset.dy;
    if x < 0 || y < 0 || x >= bx_n as isize || y >= by_n as isize {
        return None;
    }
    Some((x as usize, y as usize))
}

/// The sum of the absolute differences between the first `n` pixels of a block and of a tile.
pub open spec fn difference(
    plane: Seq<u8>,
    width: int,
    b: (usize, usize),
    tile: Seq<u8>,
    n: nat,
) -> nat
    decreases n,
{
    if n == 0 {
        0
    } else {
        let d = plane[pixel(width, b, n - 1)] - tile[n - 1];
        difference(plane, width, b, tile, (n - 1) as nat) + if d < 0 {
            (-d) as nat
        } else {
            d as nat
        }
    }
}

/// A block that shows a tile does not differ from it.
pub proof fn law_shown_tile_has_no_difference(
    plane: Seq<u8>,
    width: int,
    b: (usize, usize),
    tile: Seq<u8>,
    n: nat,
)
    requires
        shows(plane, width, b, tile),
        n <= 1024,
    ensures
        difference(plane, width, b, tile, n) == 0,
    decreases n,
{
    if n > 0 {
        law_shown_tile_has_no_difference(plane, width, b, tile, (n - 1) as nat);
        assert(plane[pixel(width, b, n - 1)] == tile[n - 1]);
    }
}

/// A plane of whole blocks.
pub open spec fn is_plane(plane: Seq<u8>, l: FrameLayout) -> bool {
    &&& l.width == 32 * l.bx_n
    &&& l.height == 32 * l.by_n
    &&& l.width <= isize::MAX
    &&& l.height <= isize::MAX
    &&& l.width * l.height <= plane.len()
}

/// The luma of pixel `i` of a block.
fn block_pixel(
    plane: &[u8],
    width: usize,
    height: usize,
    b: (usize, usize),
    i: usize,
) -> (v: u8)
    requires
        block_in(width as int, height as int, b),
        width * height <= plane.len(),
        i < 1024,
    ensures
        v == plane@[pixel(width as int, b, i as int)],
{
    let y: usize = Y_BLOCK * b.1 + i / Y_BLOCK;
    let x: usize = Y_BLOCK * b.0 + i % Y_BLOCK;
    proof {
        assert(0 <= y * width && y * width + x < width * height) by (nonlinear_arith)
            requires
                y < height,
                x < width,
        ;
    }
    plane[y * width + x]
}

/// How far a block is from a tile.
fn block_difference(
    plane: &[u8],
    width: usize,
    height: usize,
    b: (usize, usize),
    tile: &Vec<u8>,
) -> (sum: u32)
    requires
        block_in(width as int, height as int, b),
        width * height <= plane.len(),
        tile.len() == 1024,
    ensures
        sum == difference(plane@, width as int, b, tile@, 1024),
{
    let mut sum: u32 = 0;
    let mut i: usize = 0;
    while i < BLOCK_PIXELS
        invariant
            i <= 1024,
            block_in(width as int, height as int, b),
            width * height <= plane.len(),
            tile.len() == 1024,
            sum <= 255 * i,
            sum == difference(plane@, width as int, b, tile@, i as nat),
        decreases 1024 - i,
    {
        let got: u8 = block_pixel(plane, width, height, b, i);
        let want: u8 = tile[i];
        let d: u32 = if got >= want {
            (got - want) as u32
        } else {
            (want - got) as u32
        };
        sum = sum + d;
        i = i + 1;
    }
    sum
}

/// How far block `b`, looked for under a shift, is from a tile; nothing where the shift takes the
/// block out of the frame.
pub open spec fn shifted_difference(
    plane: Seq<u8>,
    l: FrameLayout,
    b: (usize, usize),
    o: BlockOffset,
    tile: Seq<u8>,
) -> Option<u32> {
    match moved(b, l.bx_n as int, l.by_n as int, o) {
        None => None,
        Some(at) => Some(difference(plane, l.width as int, at, tile, 1024) as u32),
    }
}

fn block_difference_with_offset(
    plane: &[u8],
    l: &FrameLayout,
    b: (usize, usize),
    offset: BlockOffset,
    tile: &Vec<u8>,
) -> (r: Option<u32>)
    requires
        is_plane(plane@, *l),
        b.0 < l.bx_n,
        b.1 < l.by_n,
        shift_fits(l.bx_n as int, l.by_n as int, offset),
        tile.len() == 1024,
    ensures
        r == shifted_difference(plane@, *l, b, offset, tile@),
{
    match apply_block_offset(b.0, b.1, l.bx_n, l.by_n, offset) {
        None => None,
        Some(at) => {
            let sum: u32 = block_difference(plane, l.width, l.height, at, tile);
            Some(sum)
        },
    }
}

/// The differences of the four locators.
pub open spec fn locator_differences_of(plane: Seq<u8>, l: FrameLayout, o: BlockOffset) -> Seq<
    Option<u32>,
> {
    Seq::new(
        4,
        |c: int|
            shifted_difference(
                plane,
                l,
                phy_layout::locator_block(l.bx_n as int, l.by_n as int, c),
                o,
                locator_tile(c),
            ),
    )
}

/// The differences of the pilots.
pub open spec fn pilot_differences_of(plane: Seq<u8>, l: FrameLayout, o: BlockOffset) -> Seq<
    Option<u32>,
> {
    Seq::new(
        l.pilot_blocks@.len(),
        |p: int| shifted_difference(plane, l, l.pilot_blocks@[p], o, pilot_tile(p)),
    )
}

/// How far each locator is from its tile, of which the quality of a frame is made.
pub fn locator_differences(plane: &[u8], l: &FrameLayout, offset: BlockOffset) -> (r: Vec<
    Option<u32>,
>)
    requires
        is_plane(plane@, *l),
        l.bx_n > 4,
        l.by_n > 4,
        shift_fits(l.bx_n as int, l.by_n as int, offset),
    ensures
        r@ == locator_differences_of(plane@, *l, offset),
{
    let ghost want = locator_differences_of(plane@, *l, offset);
    let corners: [(usize, usize); 4] = phy_layout::locator_coords(l.bx_n, l.by_n);
    let mut r: Vec<Option<u32>> = Vec::with_capacity(LOCATOR_BLOCKS);
    let mut c: usize = 0;
    while c < LOCATOR_BLOCKS
        invariant
            c <= 4,
            is_plane(plane@, *l),
            l.bx_n > 4,
            l.by_n > 4,
            shift_fits(l.bx_n as int, l.by_n as int, offset),
            corners@ == phy_layout::locator_blocks(l.bx_n as int, l.by_n as int),
            want == locator_differences_of(plane@, *l, offset),
            r@ == want.take(c as int),
        decreases 4 - c,
    {
        let tile: Vec<u8> = make_locator_tile(c);
        assert(corners@[c as int] == phy_layout::locator_block(
            l.bx_n as int,
            l.by_n as int,
            c as int,
        ));
        r.push(block_difference_with_offset(plane, l, corners[c], offset, &tile));
        assert(want.take(c + 1) =~= want.take(c as int).push(want[c as int]));
        c = c + 1;
    }
    assert(want.take(4) =~= want);
    r
}

/// How far each pilot is from its tile.
pub fn pilot_differences(plane: &[u8], l: &FrameLayout, offset: BlockOffset) -> (r: Vec<Option<u32>>)
    requires
        is_plane(plane@, *l),
        shift_fits(l.bx_n as int, l.by_n as int, offset),
        forall|p: int|
            0 <= p < l.pilot_blocks@.len() ==> (#[trigger] l.pilot_blocks@[p]).0 < l.bx_n
                && l.pilot_blocks@[p].1 < l.by_n,
    ensures
        r@ == pilot_differences_of(plane@, *l, offset),
{
    let ghost want = pilot_differences_of(plane@, *l, offset);
    let mut r: Vec<Option<u32>> = Vec::with_capacity(l.pilot_blocks.len());
    let mut p: usize = 0;
    while p < l.pilot_blocks.len()
        invariant
            p <= l.pilot_blocks@.len(),
            is_plane(plane@, *l),
            shift_fits(l.bx_n as int, l.by_n as int, offset),
            forall|p: int|
                0 <= p < l.pilot_blocks@.len() ==> (#[trigger] l.pilot_blocks@[p]).0 < l.bx_n
                    && l.pilot_blocks@[p].1 < l.by_n,
            want == pilot_differences_of(plane@, *l, offset),
            r@ == want.take(p as int),
        decreases l.pilot_blocks@.len() - p,
    {
        let tile: Vec<u8> = make_pilot_tile(p);
        r.push(block_difference_with_offset(plane, l, l.pilot_blocks[p], offset, &tile));
        assert(want.take(p + 1) =~= want.take(p as int).push(want[p as int]));
        p = p + 1;
    }
    assert(want.take(p as int) =~= want);
    r
}

/// The shifts that are tried, by rows: shift `k` of nine.
pub open spec fn offset_at(k: int) -> BlockOffset {
    BlockOffset { dx: (k % 3 - 1) as isize, dy: (k / 3 - 1) as isize }
}

/// The shifts that are tried, in order.
pub fn candidate_offsets() -> (r: Vec<BlockOffset>)
    ensures
        r@ == Seq::new(9, |k: int| offset_at(k)),
{
    let mut r: Vec<BlockOffset> = Vec::with_capacity(9);
    let mut k: isize = 0;
    while k < 9
        invariant
            0 <= k <= 9,
            r@ == Seq::new(k as nat, |k: int| offset_at(k)),
        decreases 9 - k,
    {
        r.push(BlockOffset { dx: k % 3 - 1, dy: k / 3 - 1 });
        assert(r@ =~= Seq::new((k + 1) as nat, |k: int| offset_at(k)));
        k = k + 1;
    }
    r
}

/// Score `k` is the first of the greatest scores, and greater than -1.
pub open spec fn is_best_score(scores: Seq<u32>, k: int) -> bool {
    &&& 0 <= k < scores.len()
    &&& float_bits::less(0xBF80_0000, scores[k])
    &&& forall|j: int| 0 <= j < scores.len() ==> !float_bits::less(scores[k], #[trigger] scores[j])
    &&& forall|j: int| 0 <= j < k ==> !float_bits::at_least(#[trigger] scores[j], scores[k])
}

/// The shift of a frame: none unless it is searched for, and else the one of the best score. The
/// scores are bit patterns, one for each shift that is tried.
pub fn find_block_offset(scores: &[u32], heavy_geom: bool) -> (r: BlockOffset)
    requires
        scores.len() <= 9,
    ensures
        !heavy_geom ==> r == (BlockOffset { dx: 0, dy: 0 }),
        heavy_geom ==> ({
            ||| exists|k: int| #[trigger] is_best_score(scores@, k) && r == offset_at(k)
            ||| (forall|k: int|
                0 <= k < scores@.len() ==> !float_bits::less(0xBF80_0000, #[trigger] scores@[k]))
                && r == (BlockOffset { dx: 0, dy: 0 })
        }),
{
    if !heavy_geom {
        return BlockOffset::default();
    }
    let mut best: usize = 9;
    let mut best_score: u32 = 0xBF80_0000;
    let mut k: usize = 0;
    while k < scores.len()
        invariant
            k <= scores@.len() <= 9,
            best == 9 ==> best_score == 0xBF80_0000,
            best == 9 ==> forall|j: int|
                0 <= j < k ==> !float_bits::less(0xBF80_0000, #[trigger] scores@[j]),
            best != 9 ==> best < k && best_score == scores@[best as int] && is_best_score(
                scores@.take(k as int),
                best as int,
            ),
        decreases scores@.len() - k,
    {
        let s: u32 = scores[k];
        if float_bits::is_less(best_score, s) {
            proof {
                let now = scores@.take(k + 1);
                let was = scores@.take(k as int);
                assert forall|j: int| 0 <= j < now.len() implies !float_bits::less(
                    now[k as int],
                    #[trigger] now[j],
                ) by {
                    if j < k {
                        assert(now[j] == scores@[j] && was[j] == scores@[j]);
                        if best != 9 {
                            assert(!float_bits::less(was[best as int], was[j]));
                        }
                    }
                }
                assert forall|j: int| 0 <= j < k implies !float_bits::at_least(
                    #[trigger] now[j],
                    now[k as int],
                ) by {
                    assert(now[j] == scores@[j] && was[j] == scores@[j]);
                    if best != 9 {
                        assert(!float_bits::less(was[best as int], was[j]));
                    }
                }
            }
            best = k;
            best_score = s;
        } else {
            proof {
                if best != 9 {
                    let now = scores@.take(k + 1);
                    let was = scores@.take(k as int);
                    assert forall|j: int| 0 <= j < now.len() implies !float_bits::less(
                        now[best as int],
                        #[trigger] now[j],
                    ) by {
                        if j < k {
                            assert(now[j] == was[j]);
                        }
                    }
                    assert forall|j: int| 0 <= j < best implies !float_bits::at_least(
                        #[trigger] now[j],
                        now[best as int],
                    ) by {
                        assert(now[j] == was[j]);
                    }
                }
            }
        }
        k = k + 1;
    }
    assert(scores@.take(k as int) =~= scores@);
    if best == 9 {
        BlockOffset::default()
    } else {
        let dx: isize = best as isize % 3 - 1;
        let dy: isize = best as isize / 3 - 1;
        assert(is_best_score(scores@, best as int));
        BlockOffset { dx, dy }
    }
}

/// The locator score from which on a frame is read: 0.55 where shifts are searched for, else 0.70.
pub open spec fn sync_threshold(heavy_geom: bool) -> u32 {
    if heavy_geom {
        0x3F0C_CCCD
    } else {
        0x3F33_3333
    }
}

/// What is known of a frame before its slots are read: its shift, the score of its locators, the
/// quality of the reading, and the soft bit that each luma stands for, all as bit patterns.
#[derive(Clone, Debug)]
pub struct FrameReading {
    pub offset: BlockOffset,
    pub locator_score: u32,
    pub q_frame: u32,
    pub llr_by_luma: Vec<u32>,
}

/// A frame is read where its locators score high enough.
pub open spec fn is_synced(r: FrameReading, heavy_geom: bool) -> bool {
    float_bits::at_least(r.locator_score, sync_threshold(heavy_geom))
}

/// A slot that nothing is known of.
pub open spec fn is_erased(s: SlotLlr, profile: ProfileCfg) -> bool {
    &&& s.sys_llr@ == Seq::new(profile.b_sys as nat, |i: int| 0u32)
    &&& s.par_llr@ == Seq::new(profile.b_par as nat, |i: int| 0u32)
    &&& s.q_pilot == 0
}

/// The soft bits of `n` pixels of a block, from pixel `from` on.
pub open spec fn soft_bits(
    plane: Seq<u8>,
    width: int,
    b: (usize, usize),
    llr_by_luma: Seq<u32>,
    from: int,
    n: nat,
) -> Seq<u32> {
    Seq::new(n, |i: int| llr_by_luma[plane[pixel(width, b, from + i)] as int])
}

/// A slot as it is read from a block.
pub open spec fn is_read_from(
    s: SlotLlr,
    plane: Seq<u8>,
    width: int,
    b: (usize, usize),
    r: FrameReading,
    profile: ProfileCfg,
) -> bool {
    &&& s.sys_llr@ == soft_bits(plane, width, b, r.llr_by_luma@, 0, profile.b_sys as nat)
    &&& s.par_llr@ == soft_bits(
        plane,
        width,
        b,
        r.llr_by_luma@,
        profile.b_sys as int,
        profile.b_par as nat,
    )
    &&& s.q_pilot == r.q_frame
}

/// What comes of slot block `b` of a frame.
pub open spec fn is_slot_of(
    s: SlotLlr,
    plane: Seq<u8>,
    l: FrameLayout,
    b: (usize, usize),
    r: FrameReading,
    profile: ProfileCfg,
    heavy_geom: bool,
) -> bool {
    match moved(b, l.bx_n as int, l.by_n as int, r.offset) {
        Some(at) if is_synced(r, heavy_geom) => is_read_from(
            s,
            plane,
            l.width as int,
            at,
            r,
            profile,
        ),
        _ => is_erased(s, profile),
    }
}

fn zero_slot_llr(profile: ProfileCfg) -> (s: SlotLlr)
    ensures
        is_erased(s, profile),
{
    let s: SlotLlr = SlotLlr {
        sys_llr: vec![0u32; profile.b_sys],
        par_llr: vec![0u32; profile.b_par],
        q_pilot: 0,
    };
    assert(s.sys_llr@ =~= Seq::new(profile.b_sys as nat, |i: int| 0u32));
    assert(s.par_llr@ =~= Seq::new(profile.b_par as nat, |i: int| 0u32));
    s
}

fn read_soft_bits(
    plane: &[u8],
    width: usize,
    height: usize,
    b: (usize, usize),
    llr_by_luma: &Vec<u32>,
    from: usize,
    n: usize,
) -> (out: Vec<u32>)
    requires
        block_in(width as int, height as int, b),
        width * height <= plane.len(),
        from + n <= 1024,
        llr_by_luma.len() == 256,
    ensures
        out@ == soft_bits(plane@, width as int, b, llr_by_luma@, from as int, n as nat),
{
    let ghost want = soft_bits(plane@, width as int, b, llr_by_luma@, from as int, n as nat);
    let mut out: Vec<u32> = Vec::with_capacity(n);
    let mut i: usize = 0;
    while i < n
        invariant
            i <= n,
            block_in(width as int, height as int, b),
            width * height <= plane.len(),
            from + n <= 1024,
            llr_by_luma.len() == 256,
            want == soft_bits(plane@, width as int, b, llr_by_luma@, from as int, n as nat),
            out@ == want.take(i as int),
        decreases n - i,
    {
        let v: u8 = block_pixel(plane, width, height, b, from + i);
        out.push(llr_by_luma[v as usize]);
        assert(want.take(i + 1) =~= want.take(i as int).push(want[i as int]));
        i = i + 1;
    }
    assert(want.take(n as int) =~= want);
    out
}

fn extract_slot_llr(
    plane: &[u8],
    width: usize,
    height: usize,
    b: (usize, usize),
    profile: ProfileCfg,
    r: &FrameReading,
) -> (s: SlotLlr)
    requires
        block_in(width as int, height as int, b),
        width * height <= plane.len(),
        profile.b_sys + profile.b_par <= 1024,
        r.llr_by_luma.len() == 256,
    ensures
        is_read_from(s, plane@, width as int, b, *r, profile),
{
    let sys_llr: Vec<u32> = read_soft_bits(
        plane,
        width,
        height,
        b,
        &r.llr_by_luma,
        0,
        profile.b_sys,
    );
    let par_llr: Vec<u32> = read_soft_bits(
        plane,
        width,
        height,
        b,
        &r.llr_by_luma,
        profile.b_sys,
        profile.b_par,
    );
    SlotLlr { sys_llr, par_llr, q_pilot: r.q_frame }
}

#[derive(Clone, Copy, Debug, PartialEq, Eq)]
pub enum UnpackError {
    Layout(LayoutError),
    /// The bytes are not a whole number of frames.
    PartialFrame,
}

/// How many of the first `n` frames are read.
pub open spec fn synced_count(readings: Seq<FrameReading>, heavy_geom: bool, n: nat) -> nat
    decreases n,
{
    if n == 0 {
        0
    } else {
        synced_count(readings, heavy_geom, (n - 1) as nat) + if is_synced(
            readings[n - 1],
            heavy_geom,
        ) {
            1nat
        } else {
            0nat
        }
    }
}

/// The slots of the first `n` frames, each frame's slots one after another.
pub open spec fn slots_of_frames(
    slots: Seq<SlotLlr>,
    bytes: Seq<u8>,
    l: FrameLayout,
    readings: Seq<FrameReading>,
    profile: ProfileCfg,
    heavy_geom: bool,
    n: int,
) -> bool {
    let per = l.slot_blocks@.len();
    &&& slots.len() == n * per
    &&& forall|f: int, k: int|
        #![trigger slots[f * per + k]]
        0 <= f < n && 0 <= k < per ==> is_slot_of(
            slots[f * per + k],
            frame_at(bytes, l.frame_bytes as int, f),
            l,
            l.slot_blocks@[k],
            readings[f],
            profile,
            heavy_geom,
        )
}

/// What is known of each frame is complete.
pub open spec fn readings_fit(readings: Seq<FrameReading>, bx_n: int, by_n: int) -> bool {
    forall|f: int|
        0 <= f < readings.len() ==> (#[trigger] readings[f]).llr_by_luma@.len() == 256
            && shift_fits(bx_n, by_n, readings[f].offset)
}

/// Reads the slots of one frame.
fn read_frame(
    plane: &[u8],
    l: &FrameLayout,
    profile: ProfileCfg,
    reading: &FrameReading,
    heavy_geom: bool,
    slots: &mut Vec<SlotLlr>,
)
    requires
        is_plane(plane@, *l),
        profile.b_sys + profile.b_par <= 1024,
        reading.llr_by_luma@.len() == 256,
        shift_fits(l.bx_n as int, l.by_n as int, reading.offset),
        forall|k: int|
            0 <= k < l.slot_blocks@.len() ==> (#[trigger] l.slot_blocks@[k]).0 < l.bx_n
                && l.slot_blocks@[k].1 < l.by_n,
    ensures
        final(slots)@.len() == old(slots)@.len() + l.slot_blocks@.len(),
        forall|i: int| 0 <= i < old(slots)@.len() ==> final(slots)@[i] == old(slots)@[i],
        forall|k: int|
            0 <= k < l.slot_blocks@.len() ==> is_slot_of(
                #[trigger] final(slots)@[old(slots)@.len() + k],
                plane@,
                *l,
                l.slot_blocks@[k],
                *reading,
                profile,
                heavy_geom,
            ),
{
    let ghost start = slots@;
    let threshold: u32 = if heavy_geom {
        0x3F0C_CCCD
    } else {
        0x3F33_3333
    };
    let synced: bool = float_bits::is_at_least(reading.locator_score, threshold);
    let mut k: usize = 0;
    while k < l.slot_blocks.len()
        invariant
            k <= l.slot_blocks@.len(),
            is_plane(plane@, *l),
            profile.b_sys + profile.b_par <= 1024,
            reading.llr_by_luma@.len() == 256,
            shift_fits(l.bx_n as int, l.by_n as int, reading.offset),
            synced == is_synced(*reading, heavy_geom),
            forall|k: int|
                0 <= k < l.slot_blocks@.len() ==> (#[trigger] l.slot_blocks@[k]).0 < l.bx_n
                    && l.slot_blocks@[k].1 < l.by_n,
            slots@.len() == start.len() + k,
            forall|i: int| 0 <= i < start.len() ==> slots@[i] == start[i],
            forall|j: int|
                0 <= j < k ==> is_slot_of(
                    #[trigger] slots@[start.len() + j],
                    plane@,
                    *l,
                    l.slot_blocks@[j],
                    *reading,
                    profile,
                    heavy_geom,
                ),
        decreases l.slot_blocks@.len() - k,
    {
        let ghost before = slots@;
        let b: (usize, usize) = l.slot_blocks[k];
        let at: Option<(usize, usize)> = apply_block_offset(
            b.0,
            b.1,
            l.bx_n,
            l.by_n,
            reading.offset,
        );
        let s: SlotLlr = match at {
            Some(p) => {
                if synced {
                    extract_slot_llr(plane, l.width, l.height, p, profile, reading)
                } else {
                    zero_slot_llr(profile)
                }
            },
            None => zero_slot_llr(profile),
        };
        slots.push(s);
        proof {
            assert forall|j: int| 0 <= j < k + 1 implies is_slot_of(
                #[trigger] slots@[start.len() + j],
                plane@,
                *l,
                l.slot_blocks@[j],
                *reading,
                profile,
                heavy_geom,
            ) by {
                if j < k {
                    assert(slots@[start.len() + j] == before[start.len() + j]);
                }
            }
        }
        k = k + 1;
    }
}

/// How many frames some bytes hold.
pub open spec fn frames_in(bytes: Seq<u8>, width: int, height: int) -> int {
    bytes.len() as int / phy_layout::frame_size(width, height)
}

/// Reads the slots of all frames, given what is known of each.
pub fn unpack_yuv420_to_slots(
    bytes: &[u8],
    width: usize,
    height: usize,
    profile: ProfileCfg,
    heavy_geom: bool,
    readings: &[FrameReading],
) -> (r: Result<PhyDecodeResult, UnpackError>)
    requires
        phy_layout::sizes_fit(width, height, profile),
        phy_layout::layout_fault(width, height, profile) is None ==> {
            &&& profile.b_sys + profile.b_par <= 1024
            &&& width <= isize::MAX
            &&& height <= isize::MAX
            &&& readings_fit(readings@, (width / 32) as int, (height / 32) as int)
            &&& readings@.len() == frames_in(bytes@, width as int, height as int)
        },
    ensures
        match r {
            Ok(d) => {
                &&& phy_layout::layout_fault(width, height, profile) is None
                &&& bytes@.len() as int % phy_layout::frame_size(width as int, height as int) == 0
                &&& d.frames_total == frames_in(bytes@, width as int, height as int)
                &&& d.frames_synced == synced_count(readings@, heavy_geom, d.frames_total as nat)
                &&& exists|l: FrameLayout| #[trigger]
                    phy_layout::is_layout(l, width, height, profile.slots_per_frame as int)
                        && slots_of_frames(
                        d.slots@,
                        bytes@,
                        l,
                        readings@,
                        profile,
                        heavy_geom,
                        d.frames_total as int,
                    )
            },
            Err(UnpackError::Layout(e)) => phy_layout::layout_fault(width, height, profile) == Some(
                e,
            ),
            Err(UnpackError::PartialFrame) => {
                &&& phy_layout::layout_fault(width, height, profile) is None
                &&& bytes@.len() as int % phy_layout::frame_size(width as int, height as int) != 0
            },
        },
{
    let l: FrameLayout = match phy_layout::frame_layout(width, height, profile) {
        Ok(l) => l,
        Err(e) => {
            return Err(UnpackError::Layout(e));
        },
    };
    let ghost fb = l.frame_bytes as int;
    proof {
        assert(width * height > 0) by (nonlinear_arith)
            requires
                width > 0,
                height > 0,
        ;
    }
    if bytes.len() % l.frame_bytes != 0 {
        return Err(UnpackError::PartialFrame);
    }
    let frame_count: usize = bytes.len() / l.frame_bytes;
    proof {
        vstd::arithmetic::div_mod::lemma_fundamental_div_mod(bytes@.len() as int, fb);
        assert(fb * frame_count == frame_count * fb) by (nonlinear_arith);
        lemma_layout_disjoint(l, width, height, profile);
        let blocks = phy_layout::drawn_blocks(l);
        assert forall|k: int| 0 <= k < l.slot_blocks@.len() implies (
        #[trigger] l.slot_blocks@[k]).0 < l.bx_n && l.slot_blocks@[k].1 < l.by_n by {
            let j = 4 + l.pilot_blocks@.len() + k;
            assert(blocks[j] == l.slot_blocks@[k]);
            assert(block_in(width as int, height as int, blocks[j]));
        }
    }
    let mut slots: Vec<SlotLlr> = Vec::new();
    let mut frames_synced: usize = 0;
    let threshold: u32 = if heavy_geom {
        0x3F0C_CCCD
    } else {
        0x3F33_3333
    };
    let ghost per = l.slot_blocks@.len() as int;
    let mut f: usize = 0;
    while f < frame_count
        invariant
            f <= frame_count,
            fb == l.frame_bytes,
            fb > 0,
            per == l.slot_blocks@.len(),
            fb == phy_layout::frame_size(width as int, height as int),
            bytes.len() == frame_count * fb,
            frame_count == readings@.len(),
            l.width == width,
            l.height == height,
            width == 32 * l.bx_n,
            height == 32 * l.by_n,
            width <= isize::MAX,
            height <= isize::MAX,
            profile.b_sys + profile.b_par <= 1024,
            readings_fit(readings@, l.bx_n as int, l.by_n as int),
            forall|k: int|
                0 <= k < l.slot_blocks@.len() ==> (#[trigger] l.slot_blocks@[k]).0 < l.bx_n
                    && l.slot_blocks@[k].1 < l.by_n,
            threshold == sync_threshold(heavy_geom),
            frames_synced <= f,
            frames_synced == synced_count(readings@, heavy_geom, f as nat),
            slots_of_frames(slots@, bytes@, l, readings@, profile, heavy_geom, f as int),
        decreases frame_count - f,
    {
        proof {
            assert(0 <= f * fb && f * fb + fb <= frame_count * fb) by (nonlinear_arith)
                requires
                    0 <= f,
                    f + 1 <= frame_count,
                    fb >= 0,
            ;
            assert((f + 1) * per == f * per + per) by (nonlinear_arith);
            assert(width * height >= 0) by (nonlinear_arith)
                requires
                    width >= 0,
                    height >= 0,
            ;
        }
        let start: usize = f * l.frame_bytes;
        let frame: &[u8] = &bytes[start..start + l.frame_bytes];
        let ghost before = slots@;
        assert(frame@ =~= frame_at(bytes@, fb, f as int));
        assert(readings@[f as int].llr_by_luma@.len() == 256);
        read_frame(frame, &l, profile, &readings[f], heavy_geom, &mut slots);
        if float_bits::is_at_least(readings[f].locator_score, threshold) {
            frames_synced = frames_synced + 1;
        }
        proof {
            assert forall|g: int, k: int|
                #![trigger slots@[g * per + k]]
                0 <= g < f + 1 && 0 <= k < per implies is_slot_of(
                slots@[g * per + k],
                frame_at(bytes@, fb, g),
                l,
                l.slot_blocks@[k],
                readings@[g],
                profile,
                heavy_geom,
            ) by {
                if g < f {
                    assert(0 <= g * per && g * per + per <= f * per) by (nonlinear_arith)
                        requires
                            0 <= g,
                            g + 1 <= f,
                            per >= 0,
                    ;
                    assert(slots@[g * per + k] == before[g * per + k]);
                } else {
                    assert(slots@[before.len() + k] == slots@[g * per + k]);
                }
            }
        }
        f = f + 1;
    }
    Ok(PhyDecodeResult { slots, frames_total: frame_count, frames_synced })
}

/// A frame that arrives as it was drawn matches its locators and pilots exactly.
pub proof fn law_clean_frame_matches(
    bytes: Seq<u8>,
    l: FrameLayout,
    slots: Seq<SlotPayloadBits>,
    profile: ProfileCfg,
    f: int,
)
    requires
        phy_layout::layout_fault(l.width, l.height, profile) is None,
        phy_layout::is_layout(l, l.width, l.height, profile.slots_per_frame as int),
        carries(bytes, l, slots, profile),
        0 <= f < frames_for(slots.len(), profile.slots_per_frame as nat),
    ensures
        forall|c: int|
            0 <= c < 4 ==> #[trigger] locator_differences_of(
                frame_at(bytes, l.frame_bytes as int, f),
                l,
                BlockOffset { dx: 0, dy: 0 },
            )[c] == Some(0u32),
        forall|p: int|
            0 <= p < l.pilot_blocks@.len() ==> #[trigger] pilot_differences_of(
                frame_at(bytes, l.frame_bytes as int, f),
                l,
                BlockOffset { dx: 0, dy: 0 },
            )[p] == Some(0u32),
{
    let frame = frame_at(bytes, l.frame_bytes as int, f);
    let blocks = phy_layout::drawn_blocks(l);
    let art = frame_art(l, slots, profile, f);
    let w = l.width as int;
    phy_layout::law_blocks_are_distinct(l, l.width, l.height, profile.slots_per_frame as int);
    assert(is_drawn(frame, w, blocks, art, blocks.len() as int));
    assert forall|c: int| 0 <= c < 4 implies #[trigger] locator_differences_of(
        frame,
        l,
        BlockOffset { dx: 0, dy: 0 },
    )[c] == Some(0u32) by {
        assert(blocks[c] == phy_layout::locator_block(l.bx_n as int, l.by_n as int, c));
        assert(shows(frame, w, blocks[c], art[c]));
        law_shown_tile_has_no_difference(frame, w, blocks[c], locator_tile(c), 1024);
        assert(blocks[c].0 < l.bx_n && blocks[c].1 < l.by_n);
    }
    assert forall|p: int| 0 <= p < l.pilot_blocks@.len() implies #[trigger] pilot_differences_of(
        frame,
        l,
        BlockOffset { dx: 0, dy: 0 },
    )[p] == Some(0u32) by {
        let j = 4 + p;
        assert(blocks[j] == l.pilot_blocks@[p]);
        assert(shows(frame, w, blocks[j], art[j]));
        law_shown_tile_has_no_difference(frame, w, blocks[j], pilot_tile(p), 1024);
        assert(blocks[j].0 < l.bx_n && blocks[j].1 < l.by_n);
    }
}

/// The soft bits tell a one from a zero.
pub open spec fn tells_bits_apart(llr_by_luma: Seq<u32>) -> bool {
    &&& llr_by_luma.len() == 256
    &&& bitstream::hard_bit(llr_by_luma[32]) == 1
    &&& bitstream::hard_bit(llr_by_luma[224]) == 0
}

/// A drawn slot is shown by its block.
pub proof fn lemma_slot_is_shown(
    bytes: Seq<u8>,
    l: FrameLayout,
    slots: Seq<SlotPayloadBits>,
    profile: ProfileCfg,
    f: int,
    k: int,
)
    requires
        phy_layout::layout_fault(l.width, l.height, profile) is None,
        phy_layout::is_layout(l, l.width, l.height, profile.slots_per_frame as int),
        carries(bytes, l, slots, profile),
        0 <= f < frames_for(slots.len(), profile.slots_per_frame as nat),
        0 <= k < l.slot_blocks@.len(),
        f * profile.slots_per_frame + k < slots.len(),
    ensures
        ({
            let s = slots[f * profile.slots_per_frame + k];
            let b = l.slot_blocks@[k];
            &&& shows(
                frame_at(bytes, l.frame_bytes as int, f),
                l.width as int,
                b,
                slot_tile(s.sys_bits@, s.par_bits@, profile.coded_bits_per_slot as int),
            )
            &&& moved(b, l.bx_n as int, l.by_n as int, BlockOffset { dx: 0, dy: 0 }) == Some(b)
        }),
{
    let frame = frame_at(bytes, l.frame_bytes as int, f);
    let blocks = phy_layout::drawn_blocks(l);
    let art = frame_art(l, slots, profile, f);
    let w = l.width as int;
    let s = slots[f * profile.slots_per_frame + k];
    let b = l.slot_blocks@[k];
    phy_layout::law_blocks_are_distinct(l, l.width, l.height, profile.slots_per_frame as int);
    assert(is_drawn(frame, w, blocks, art, blocks.len() as int));
    let j = 4 + l.pilot_blocks@.len() + k;
    assert(blocks[j] == b);
    assert(shows(frame, w, blocks[j], art[j]));
    assert(blocks[j].0 < l.bx_n && blocks[j].1 < l.by_n);
    assert(f * profile.slots_per_frame >= 0) by (nonlinear_arith)
        requires
            f >= 0,
            profile.slots_per_frame >= 0,
    ;
    assert(art[j] == slot_tile(s.sys_bits@, s.par_bits@, profile.coded_bits_per_slot as int));
}

/// A profile whose slots have fewer systematic bits reads the first of those that were drawn.
pub proof fn lemma_drawn_prefix_reads_back(
    bytes: Seq<u8>,
    l: FrameLayout,
    slots: Seq<SlotPayloadBits>,
    profile: ProfileCfg,
    reader: ProfileCfg,
    heavy_geom: bool,
    r: FrameReading,
    d: SlotLlr,
    f: int,
    k: int,
)
    requires
        phy_layout::layout_fault(l.width, l.height, profile) is None,
        phy_layout::is_layout(l, l.width, l.height, profile.slots_per_frame as int),
        carries(bytes, l, slots, profile),
        0 <= f < frames_for(slots.len(), profile.slots_per_frame as nat),
        0 <= k < l.slot_blocks@.len(),
        f * profile.slots_per_frame + k < slots.len(),
        slots[f * profile.slots_per_frame + k].sys_bits@.len() == profile.b_sys,
        reader.b_sys <= profile.b_sys <= 1024,
        bitstream::are_bits(slots[f * profile.slots_per_frame + k].sys_bits@),
        is_synced(r, heavy_geom),
        r.offset == (BlockOffset { dx: 0, dy: 0 }),
        tells_bits_apart(r.llr_by_luma@),
        is_slot_of(
            d,
            frame_at(bytes, l.frame_bytes as int, f),
            l,
            l.slot_blocks@[k],
            r,
            reader,
            heavy_geom,
        ),
    ensures
        bitstream::hard_bits(d.sys_llr@) == slots[f * profile.slots_per_frame
            + k].sys_bits@.take(reader.b_sys as int),
        d.q_pilot == r.q_frame,
{
    let frame = frame_at(bytes, l.frame_bytes as int, f);
    let w = l.width as int;
    let s = slots[f * profile.slots_per_frame + k];
    let b = l.slot_blocks@[k];
    let tile = slot_tile(s.sys_bits@, s.par_bits@, profile.coded_bits_per_slot as int);
    lemma_slot_is_shown(bytes, l, slots, profile, f, k);
    lemma_bit_lumas();
    assert forall|i: int| 0 <= i < reader.b_sys implies bitstream::hard_bits(d.sys_llr@)[i]
        == s.sys_bits@[i] by {
        assert(frame[pixel(w, b, 0 + i)] == tile[i]);
        assert(s.sys_bits@[i] == 0 || s.sys_bits@[i] == 1);
    }
    assert(bitstream::hard_bits(d.sys_llr@) =~= s.sys_bits@.take(reader.b_sys as int));
}

pub proof fn lemma_bit_lumas()
    ensures
        1u8 & 1 == 1,
        0u8 & 1 == 0,
{
    assert(1u8 & 1 == 1 && 0u8 & 1 == 0) by (bit_vector);
}

/// The bits of a slot that is drawn and read in place come back.
pub proof fn law_drawn_slot_reads_back(
    bytes: Seq<u8>,
    l: FrameLayout,
    slots: Seq<SlotPayloadBits>,
    profile: ProfileCfg,
    heavy_geom: bool,
    r: FrameReading,
    d: SlotLlr,
    f: int,
    k: int,
)
    requires
        phy_layout::layout_fault(l.width, l.height, profile) is None,
        phy_layout::is_layout(l, l.width, l.height, profile.slots_per_frame as int),
        carries(bytes, l, slots, profile),
        0 <= f < frames_for(slots.len(), profile.slots_per_frame as nat),
        0 <= k < l.slot_blocks@.len(),
        f * profile.slots_per_frame + k < slots.len(),
        slots[f * profile.slots_per_frame + k].sys_bits@.len() == profile.b_sys,
        slots[f * profile.slots_per_frame + k].par_bits@.len() == profile.b_par,
        profile.b_sys + profile.b_par == profile.coded_bits_per_slot,
        bitstream::are_bits(slots[f * profile.slots_per_frame + k].sys_bits@),
        bitstream::are_bits(slots[f * profile.slots_per_frame + k].par_bits@),
        is_synced(r, heavy_geom),
        r.offset == (BlockOffset { dx: 0, dy: 0 }),
        tells_bits_apart(r.llr_by_luma@),
        is_slot_of(
            d,
            frame_at(bytes, l.frame_bytes as int, f),
            l,
            l.slot_blocks@[k],
            r,
            profile,
            heavy_geom,
        ),
    ensures
        bitstream::hard_bits(d.sys_llr@) == slots[f * profile.slots_per_frame + k].sys_bits@,
        bitstream::hard_bits(d.par_llr@) == slots[f * profile.slots_per_frame + k].par_bits@,
        d.q_pilot == r.q_frame,
{
    let frame = frame_at(bytes, l.frame_bytes as int, f);
    let w = l.width as int;
    let s = slots[f * profile.slots_per_frame + k];
    let b = l.slot_blocks@[k];
    let tile = slot_tile(s.sys_bits@, s.par_bits@, profile.coded_bits_per_slot as int);
    lemma_slot_is_shown(bytes, l, slots, profile, f, k);
    lemma_drawn_prefix_reads_back(bytes, l, slots, profile, profile, heavy_geom, r, d, f, k);
    lemma_bit_lumas();
    assert(bitstream::hard_bits(d.sys_llr@) =~= s.sys_bits@);
    assert forall|i: int| 0 <= i < profile.b_par implies bitstream::hard_bits(d.par_llr@)[i]
        == s.par_bits@[i] by {
        assert(frame[pixel(w, b, profile.b_sys + i)] == tile[profile.b_sys + i]);
        assert(s.par_bits@[i] == 0 || s.par_bits@[i] == 1);
    }
    assert(bitstream::hard_bits(d.par_llr@) =~= s.par_bits@);
}

} // verus!
