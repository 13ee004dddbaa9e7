//! Where locators, pilots and slots stand in a frame.
use crate::params::{ProfileCfg, MARGIN_BLOCKS, Y_BLOCK};
use vstd::prelude::*;

verus! {

pub const LOCATOR_BLOCKS: usize = 4;

pub const PILOT_BLOCKS_TARGET: usize = 12;

/// How many pixels a block has, and thus how many bits it can carry.
pub const BLOCK_PIXELS: usize = 1024;

/// Why a frame has no layout.
#[derive(Clone, Copy, Debug, PartialEq, Eq)]
pub enum LayoutError {
    NotBlockAligned,
    FrameTooSmall,
    SlotTooLarge,
    NotEnoughSlotBlocks { need: usize, got: usize },
}

/// The blocks of a frame and their uses.
#[derive(Clone, Debug)]
pub struct FrameLayout {
    pub width: usize,
    pub height: usize,
    pub bx_n: usize,
    pub by_n: usize,
    pub frame_bytes: usize,
    pub pilot_blocks: Vec<(usize, usize)>,
    pub slot_blocks: Vec<(usize, usize)>,
}

/// The block of locator `corner`: upper left, upper right, lower left, lower right, each inside the
/// margin.
pub open spec fn locator_block(bx_n: int, by_n: int, corner: int) -> (usize, usize) {
    (
        if corner == 0 || corner == 2 {
            1usize
        } else {
            (bx_n - 2) as usize
        },
        if corner == 0 || corner == 1 {
            1usize
        } else {
            (by_n - 2) as usize
        },
    )
}

pub open spec fn locator_blocks(bx_n: int, by_n: int) -> Seq<(usize, usize)> {
    Seq::new(4, |c: int| locator_block(bx_n, by_n, c))
}

/// The blocks along the inner border: the top row from the left, the right column downwards, the
/// bottom row from the right, and the left column upwards.
pub open spec fn perimeter(bx_n: int, by_n: int) -> Seq<(usize, usize)> {
    let (x1, y1) = (bx_n - 2, by_n - 2);
    Seq::new(x1 as nat, |i: int| ((1 + i) as usize, 1usize)) + Seq::new(
        (y1 - 1) as nat,
        |i: int| (x1 as usize, (2 + i) as usize),
    ) + (if y1 > 1 {
        Seq::new((x1 - 1) as nat, |i: int| ((x1 - 1 - i) as usize, y1 as usize))
    } else {
        Seq::empty()
    }) + (if x1 > 1 && y1 > 2 {
        Seq::new((y1 - 2) as nat, |i: int| (1usize, (y1 - 1 - i) as usize))
    } else {
        Seq::empty()
    })
}

/// The first `limit` blocks of `blocks[..n]` that are not excluded, each taken once.
pub open spec fn first_free(
    blocks: Seq<(usize, usize)>,
    excluded: Seq<(usize, usize)>,
    limit: nat,
    n: nat,
) -> Seq<(usize, usize)>
    decreases n,
{
    if n == 0 {
        Seq::empty()
    } else {
        let before = first_free(blocks, excluded, limit, (n - 1) as nat);
        let b = blocks[n - 1];
        if before.len() >= limit || excluded.contains(b) || before.contains(b) {
            before
        } else {
            before.push(b)
        }
    }
}

/// The pilots: the first free blocks along the inner border.
pub open spec fn pilots(bx_n: int, by_n: int) -> Seq<(usize, usize)> {
    let p = perimeter(bx_n, by_n);
    first_free(p, locator_blocks(bx_n, by_n), 12, p.len())
}

/// The blocks inside the margin, row by row, of the first `rows` such rows.
pub open spec fn inner_blocks(bx_n: int, rows: int) -> Seq<(usize, usize)> {
    let w = bx_n - 2;
    Seq::new((rows * w) as nat, |i: int| ((1 + i % w) as usize, (1 + i / w) as usize))
}

/// How many inner rows are searched for slots, and for how many. A profile without slots still
/// takes one block where the first row has one.
pub open spec fn slot_rows(by_n: int, slots_per_frame: int) -> int {
    if slots_per_frame == 0 {
        1
    } else {
        by_n - 2
    }
}

pub open spec fn slot_limit(slots_per_frame: int) -> nat {
    if slots_per_frame == 0 {
        1
    } else {
        slots_per_frame as nat
    }
}

/// The slots: the first inner blocks that are neither locators nor pilots.
pub open spec fn slots(bx_n: int, by_n: int, slots_per_frame: int) -> Seq<(usize, usize)> {
    let cells = inner_blocks(bx_n, slot_rows(by_n, slots_per_frame));
    first_free(
        cells,
        locator_blocks(bx_n, by_n) + pilots(bx_n, by_n),
        slot_limit(slots_per_frame),
        cells.len(),
    )
}

/// What stands against a layout, if anything does.
pub open spec fn layout_fault(width: usize, height: usize, profile: ProfileCfg) -> Option<
    LayoutError,
> {
    let (bx_n, by_n) = (width / 32, height / 32);
    if width % 32 != 0 || height % 32 != 0 {
        Some(LayoutError::NotBlockAligned)
    } else if bx_n <= 4 || by_n <= 4 {
        Some(LayoutError::FrameTooSmall)
    } else if profile.coded_bits_per_slot > 1024 {
        Some(LayoutError::SlotTooLarge)
    } else {
        let s = slots(bx_n as int, by_n as int, profile.slots_per_frame as int);
        if s.len() < profile.slots_per_frame {
            Some(
                LayoutError::NotEnoughSlotBlocks {
                    need: profile.slots_per_frame,
                    got: s.len() as usize,
                },
            )
        } else {
            None
        }
    }
}

/// The bytes of a frame: a luma plane and two chroma planes of a quarter each.
pub open spec fn frame_size(width: int, height: int) -> int {
    width * height + width * height / 4 * 2
}

/// The number of blocks, and the size of a frame that has a layout, can be counted.
pub open spec fn sizes_fit(width: usize, height: usize, profile: ProfileCfg) -> bool {
    &&& width % 32 == 0 && height % 32 == 0 ==> (width / 32) * (height / 32) <= usize::MAX
    &&& layout_fault(width, height, profile) is None ==> frame_size(width as int, height as int)
        <= usize::MAX
}

/// A layout is the one of its frame size.
pub open spec fn is_layout(l: FrameLayout, width: usize, height: usize, slots_per_frame: int) -> bool {
    &&& l.width == width
    &&& l.height == height
    &&& l.bx_n == width / 32
    &&& l.by_n == height / 32
    &&& l.frame_bytes == frame_size(width as int, height as int)
    &&& l.pilot_blocks@ == pilots(l.bx_n as int, l.by_n as int)
    &&& l.slot_blocks@ == slots(l.bx_n as int, l.by_n as int, slots_per_frame)
}

pub fn locator_coords(bx_n: usize, by_n: usize) -> (r: [(usize, usize); 4])
    requires
        bx_n >= 2,
        by_n >= 2,
    ensures
        r@ == locator_blocks(bx_n as int, by_n as int),
{
    let m: usize = MARGIN_BLOCKS;
    let r: [(usize, usize); 4] = [
        (m, m),
        (bx_n - 1 - m, m),
        (m, by_n - 1 - m),
        (bx_n - 1 - m, by_n - 1 - m),
    ];
    assert(r@ =~= locator_blocks(bx_n as int, by_n as int));
    r
}

pub fn perimeter_scan_blocks(bx_n: usize, by_n: usize) -> (out: Vec<(usize, usize)>)
    requires
        bx_n >= 3,
        by_n >= 3,
    ensures
        out@ == perimeter(bx_n as int, by_n as int),
{
    let x1: usize = bx_n - 1 - MARGIN_BLOCKS;
    let y1: usize = by_n - 1 - MARGIN_BLOCKS;
    let ghost top = Seq::new(x1 as nat, |i: int| ((1 + i) as usize, 1usize));
    let ghost right = Seq::new((y1 - 1) as nat, |i: int| (x1, (2 + i) as usize));
    let ghost bottom = if y1 > 1 {
        Seq::new((x1 - 1) as nat, |i: int| ((x1 - 1 - i) as usize, y1))
    } else {
        Seq::empty()
    };
    let ghost left = if x1 > 1 && y1 > 2 {
        Seq::new((y1 - 2) as nat, |i: int| (1usize, (y1 - 1 - i) as usize))
    } else {
        Seq::empty()
    };
    let mut out: Vec<(usize, usize)> = Vec::new();
    let mut bx: usize = 1;
    while bx <= x1
        invariant
            1 <= bx <= x1 + 1,
            x1 < usize::MAX,
            top == Seq::new(x1 as nat, |i: int| ((1 + i) as usize, 1usize)),
            out@ == top.take(bx - 1),
        decreases x1 + 1 - bx,
    {
        out.push((bx, 1));
        assert(top.take(bx as int) =~= top.take(bx - 1).push((bx, 1usize)));
        bx = bx + 1;
    }
    assert(out@ =~= top + right.take(0));
    let mut by: usize = 2;
    while by <= y1
        invariant
            2 <= by <= y1 + 1 || (by == 2 && y1 == 1),
            1 <= y1 < usize::MAX,
            right == Seq::new((y1 - 1) as nat, |i: int| (x1, (2 + i) as usize)),
            out@ == top + right.take(by - 2),
        decreases y1 + 1 - by,
    {
        out.push((x1, by));
        assert(right.take(by - 1) =~= right.take(by - 2).push((x1, by)));
        by = by + 1;
    }
    assert(right.take(by - 2) =~= right);
    assert(out@ =~= top + right + bottom.take(0));
    if y1 > 1 {
        let mut bx: usize = x1;
        while bx > 1
            invariant
                1 <= bx <= x1,
                y1 > 1,
                bottom == Seq::new((x1 - 1) as nat, |i: int| ((x1 - 1 - i) as usize, y1)),
                out@ == top + right + bottom.take(x1 - bx),
            decreases bx,
        {
            bx = bx - 1;
            out.push((bx, y1));
            assert(bottom.take(x1 - bx) =~= bottom.take(x1 - bx - 1).push((bx, y1)));
        }
    }
    assert(bottom.take(bottom.len() as int) =~= bottom);
    assert(out@ =~= top + right + bottom);
    assert(out@ =~= top + right + bottom + left.take(0));
    if x1 > 1 && y1 > 2 {
        let mut by: usize = y1;
        while by > 2
            invariant
                2 <= by <= y1,
                x1 > 1,
                y1 > 2,
                left == Seq::new((y1 - 2) as nat, |i: int| (1usize, (y1 - 1 - i) as usize)),
                out@ == top + right + bottom + left.take(y1 - by),
            decreases by,
        {
            by = by - 1;
            out.push((1, by));
            assert(left.take(y1 - by) =~= left.take(y1 - by - 1).push((1usize, by)));
        }
    }
    assert(left.take(left.len() as int) =~= left);
    assert(out@ =~= perimeter(bx_n as int, by_n as int));
    out
}

/// Whether a block is in a list.
pub fn contains_block(list: &Vec<(usize, usize)>, b: (usize, usize)) -> (r: bool)
    ensures
        r == list@.contains(b),
{
    let mut i: usize = 0;
    while i < list.len()
        invariant
            i <= list.len(),
            forall|k: int| 0 <= k < i ==> list@[k] != b,
        decreases list.len() - i,
    {
        if list[i].0 == b.0 && list[i].1 == b.1 {
            assert(list@[i as int] == b);
            return true;
        }
        i = i + 1;
    }
    false
}

/// The first free blocks of a list.
fn take_free(
    blocks: &Vec<(usize, usize)>,
    excluded: &Vec<(usize, usize)>,
    limit: usize,
) -> (out: Vec<(usize, usize)>)
    ensures
        out@ == first_free(blocks@, excluded@, limit as nat, blocks@.len()),
{
    let mut out: Vec<(usize, usize)> = Vec::new();
    let mut i: usize = 0;
    while i < blocks.len()
        invariant
            i <= blocks.len(),
            out@ == first_free(blocks@, excluded@, limit as nat, i as nat),
        decreases blocks.len() - i,
    {
        let b: (usize, usize) = blocks[i];
        if out.len() < limit && !contains_block(excluded, b) && !contains_block(&out, b) {
            out.push(b);
        }
        i = i + 1;
    }
    out
}

fn inner_scan(bx_n: usize, rows: usize) -> (out: Vec<(usize, usize)>)
    requires
        bx_n >= 3,
        rows * (bx_n - 2) <= usize::MAX,
        rows < usize::MAX,
    ensures
        out@ == inner_blocks(bx_n as int, rows as int),
{
    let w: usize = bx_n - 2;
    let ghost want = inner_blocks(bx_n as int, rows as int);
    let mut out: Vec<(usize, usize)> = Vec::new();
    let mut by: usize = 0;
    while by < rows
        invariant
            by <= rows,
            rows < usize::MAX,
            w == bx_n - 2,
            w >= 1,
            want == inner_blocks(bx_n as int, rows as int),
            rows * w <= usize::MAX,
            out@ == want.take(by * w),
        decreases rows - by,
    {
        assert(by * w + w <= rows * w) by (nonlinear_arith)
            requires
                by + 1 <= rows,
                w >= 1,
        ;
        assert((by + 1) * w == by * w + w) by (nonlinear_arith);
        let mut bx: usize = 0;
        while bx < w
            invariant
                bx <= w,
                by < rows,
                rows < usize::MAX,
                w == bx_n - 2,
                w >= 1,
                by * w + w <= rows * w,
                want == inner_blocks(bx_n as int, rows as int),
                out@ == want.take(by * w + bx),
            decreases w - bx,
        {
            out.push((MARGIN_BLOCKS + bx, MARGIN_BLOCKS + by));
            proof {
                let i = by * w + bx;
                vstd::arithmetic::div_mod::lemma_fundamental_div_mod_converse(
                    i,
                    w as int,
                    by as int,
                    bx as int,
                );
                assert(want.take(i + 1) =~= want.take(i).push(want[i]));
            }
            bx = bx + 1;
        }
        by = by + 1;
    }
    assert(want.take(rows * w) =~= want);
    out
}

/// The layout of a frame.
pub fn frame_layout(width: usize, height: usize, profile: ProfileCfg) -> (r: Result<
    FrameLayout,
    LayoutError,
>)
    requires
        sizes_fit(width, height, profile),
    ensures
        match r {
            Ok(l) => layout_fault(width, height, profile) is None && is_layout(
                l,
                width,
                height,
                profile.slots_per_frame as int,
            ),
            Err(e) => layout_fault(width, height, profile) == Some(e),
        },
{
    if width % Y_BLOCK != 0 || height % Y_BLOCK != 0 {
        return Err(LayoutError::NotBlockAligned);
    }
    let bx_n: usize = width / Y_BLOCK;
    let by_n: usize = height / Y_BLOCK;
    if bx_n <= 2 * MARGIN_BLOCKS + 2 || by_n <= 2 * MARGIN_BLOCKS + 2 {
        return Err(LayoutError::FrameTooSmall);
    }
    if profile.coded_bits_per_slot > BLOCK_PIXELS {
        return Err(LayoutError::SlotTooLarge);
    }
    let corners: [(usize, usize); 4] = locator_coords(bx_n, by_n);
    let mut taken: Vec<(usize, usize)> = Vec::new();
    taken.push(corners[0]);
    taken.push(corners[1]);
    taken.push(corners[2]);
    taken.push(corners[3]);
    assert(taken@ =~= locator_blocks(bx_n as int, by_n as int));
    let border: Vec<(usize, usize)> = perimeter_scan_blocks(bx_n, by_n);
    let pilot_blocks: Vec<(usize, usize)> = take_free(&border, &taken, PILOT_BLOCKS_TARGET);
    let mut i: usize = 0;
    let ghost corner_seq = taken@;
    while i < pilot_blocks.len()
        invariant
            i <= pilot_blocks.len(),
            taken@ == corner_seq + pilot_blocks@.take(i as int),
        decreases pilot_blocks.len() - i,
    {
        taken.push(pilot_blocks[i]);
        assert(pilot_blocks@.take(i + 1) =~= pilot_blocks@.take(i as int).push(
            pilot_blocks@[i as int],
        ));
        i = i + 1;
    }
    assert(pilot_blocks@.take(i as int) =~= pilot_blocks@);
    let rows: usize = if profile.slots_per_frame == 0 {
        1
    } else {
        by_n - 2 * MARGIN_BLOCKS
    };
    let limit: usize = if profile.slots_per_frame == 0 {
        1
    } else {
        profile.slots_per_frame
    };
    proof {
        assert(rows * (bx_n - 2) <= bx_n * by_n) by (nonlinear_arith)
            requires
                0 <= rows <= by_n,
                0 <= bx_n - 2 <= bx_n,
        ;
    }
    let cells: Vec<(usize, usize)> = inner_scan(bx_n, rows);
    let slot_blocks: Vec<(usize, usize)> = take_free(&cells, &taken, limit);
    if slot_blocks.len() < profile.slots_per_frame {
        return Err(
            LayoutError::NotEnoughSlotBlocks {
                need: profile.slots_per_frame,
                got: slot_blocks.len(),
            },
        );
    }
    let y_bytes: usize = width * height;
    let uv_bytes: usize = y_bytes / 4;
    Ok(
        FrameLayout {
            width,
            height,
            bx_n,
            by_n,
            frame_bytes: y_bytes + uv_bytes * 2,
            pilot_blocks,
            slot_blocks,
        },
    )
}

/// The free blocks that are taken are blocks of the list, distinct, and not excluded.
pub proof fn lemma_first_free(
    blocks: Seq<(usize, usize)>,
    excluded: Seq<(usize, usize)>,
    limit: nat,
    n: nat,
)
    requires
        n <= blocks.len(),
    ensures
        first_free(blocks, excluded, limit, n).no_duplicates(),
        first_free(blocks, excluded, limit, n).len() <= limit,
        forall|i: int|
            #![trigger first_free(blocks, excluded, limit, n)[i]]
            0 <= i < first_free(blocks, excluded, limit, n).len() ==> {
                let b = first_free(blocks, excluded, limit, n)[i];
                !excluded.contains(b) && blocks.contains(b)
            },
    decreases n,
{
    if n > 0 {
        let m = (n - 1) as nat;
        lemma_first_free(blocks, excluded, limit, m);
        let before = first_free(blocks, excluded, limit, m);
        let after = first_free(blocks, excluded, limit, n);
        let b = blocks[n - 1];
        assert(blocks.contains(b));
        assert forall|i: int|
            #![trigger after[i]]
            0 <= i < after.len() implies !excluded.contains(after[i]) && blocks.contains(after[i]) by {
            if i < before.len() {
                assert(after[i] == before[i]);
            }
        }
        assert(after.no_duplicates()) by {
            assert forall|i: int, j: int| 0 <= i < after.len() && 0 <= j < after.len() && i != j implies after[i]
                != after[j] by {
                if i < before.len() && j < before.len() {
                    assert(after[i] == before[i] && after[j] == before[j]);
                } else if i < before.len() {
                    assert(before.contains(before[i]));
                } else {
                    assert(before.contains(before[j]));
                }
            }
        }
    }
}

/// A frame has no more slot blocks than are asked for.
pub proof fn lemma_slots_len(bx_n: int, by_n: int, slots_per_frame: int)
    requires
        bx_n > 4,
        by_n > 4,
        slots_per_frame >= 0,
    ensures
        slots(bx_n, by_n, slots_per_frame).len() <= slot_limit(slots_per_frame),
{
    let cells = inner_blocks(bx_n, slot_rows(by_n, slots_per_frame));
    lemma_first_free(
        cells,
        locator_blocks(bx_n, by_n) + pilots(bx_n, by_n),
        slot_limit(slots_per_frame),
        cells.len(),
    );
}

/// All the blocks that are drawn on, locators first, then pilots, then slots.
pub open spec fn drawn_blocks(l: FrameLayout) -> Seq<(usize, usize)> {
    locator_blocks(l.bx_n as int, l.by_n as int) + l.pilot_blocks@ + l.slot_blocks@
}

/// In a layout no block has two uses, and every block lies in the frame.
pub proof fn law_blocks_are_distinct(l: FrameLayout, width: usize, height: usize, slots_per_frame: int)
    requires
        is_layout(l, width, height, slots_per_frame),
        l.bx_n > 4,
        l.by_n > 4,
        slots_per_frame >= 0,
    ensures
        drawn_blocks(l).no_duplicates(),
        forall|i: int|
            0 <= i < drawn_blocks(l).len() ==> (#[trigger] drawn_blocks(l)[i]).0 < l.bx_n
                && drawn_blocks(l)[i].1 < l.by_n,
{
    let (bx, by) = (l.bx_n as int, l.by_n as int);
    let loc = locator_blocks(bx, by);
    let border = perimeter(bx, by);
    let pil = l.pilot_blocks@;
    let cells = inner_blocks(bx, slot_rows(by, slots_per_frame));
    let sl = l.slot_blocks@;
    lemma_first_free(border, loc, 12, border.len());
    lemma_first_free(cells, loc + pil, slot_limit(slots_per_frame), cells.len());
    let all = drawn_blocks(l);
    assert forall|i: int| 0 <= i < border.len() implies (#[trigger] border[i]).0 < bx && border[i].1
        < by by {}
    assert forall|i: int| 0 <= i < cells.len() implies (#[trigger] cells[i]).0 < bx && cells[i].1
        < by by {
        let w = bx - 2;
        let rows = slot_rows(by, slots_per_frame);
        assert(0 <= i % w < w);
        assert(i / w < rows) by (nonlinear_arith)
            requires
                0 <= i < rows * w,
                w > 0,
        ;
        assert(i / w >= 0) by (nonlinear_arith)
            requires
                0 <= i,
                w > 0,
        ;
    }
    assert forall|i: int| 0 <= i < all.len() implies (#[trigger] all[i]).0 < bx && all[i].1 < by by {
        if i < 4 {
        } else if i < 4 + pil.len() {
            let b = pil[i - 4];
            assert(border.contains(b));
        } else {
            let b = sl[i - 4 - pil.len()];
            assert(cells.contains(b));
        }
    }
    assert forall|i: int, j: int| 0 <= i < j < all.len() implies all[i] != all[j] by {
        if j < 4 {
        } else if j < 4 + pil.len() {
            let b = pil[j - 4];
            assert(!loc.contains(b));
            if i < 4 {
                assert(loc.contains(loc[i]));
            } else {
                assert(pil[i - 4] != pil[j - 4]);
            }
        } else {
            let b = sl[j - 4 - pil.len()];
            assert(!(loc + pil).contains(b));
            if i < 4 + pil.len() {
                assert((loc + pil)[i] == all[i]);
                assert((loc + pil).contains(all[i]));
            } else {
                assert(sl[i - 4 - pil.len()] != b);
            }
        }
    }
    assert(all.no_duplicates());
}

} // verus!
