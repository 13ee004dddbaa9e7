//! Where the boot message, the calibration strip and the payload stand in a frame.
use crate::interleave::BOOT_CAL_KEYFRAME_INTERVAL;
use crate::link_profile::{LinkParams, LinkProfile};
use crate::params::{MARGIN_BLOCKS, Y_BLOCK};
use crate::payload_tiles;
use crate::payload_tiles::{PAYLOAD_TILE_BX, PAYLOAD_TILE_BY};
use crate::phy_layout;
use crate::util;
use vstd::prelude::*;

verus! {

/// How many frames take turns in carrying payload on a block: every frame uses all of them.
pub const PAYLOAD_TEMPORAL_PHASES: usize = 1;

/// The blocks of each copy of the boot message.
pub struct BootLayout {
    pub copies: Vec<Vec<(usize, usize)>>,
}

pub struct ProfileLayout {
    pub bx_n: usize,
    pub by_n: usize,
    pub header_by_start: usize,
    pub header_by_end: usize,
    pub payload_by_start: usize,
    pub payload_by_end: usize,
    /// The blocks of the calibration strip and the number of the level of each.
    pub cal_pos: Vec<(usize, usize, u8)>,
    pub payload_pos: Vec<(usize, usize)>,
}

/// Why a frame has no layout.
#[derive(Clone, Copy, Debug, PartialEq, Eq)]
pub enum LinkLayoutError {
    InvalidGeometry,
    NoHorizontalBlocks,
    NoVerticalBlocks,
    HeaderTooSmall { need: usize, have: usize },
    NoCalBlocks,
    CalTooLong { need: usize, usable: usize },
    BootOverlap,
    NoTrackingMargins,
}

/// Frames at the start of each group carry a boot message and a calibration strip.
pub fn frame_uses_boot_cal(frame_idx: u32) -> (r: bool)
    ensures
        r == (frame_idx % 8 == 0),
{
    frame_idx % BOOT_CAL_KEYFRAME_INTERVAL == 0
}

/// The blocks of header row `by`, from the right margin to the left, without those that the
/// calibration strip reserves in the first row.
pub open spec fn header_row(bx_n: int, by: int, cal_reserved: int) -> Seq<(usize, usize)> {
    let min = util::lesser(
        1 + if by == 1 {
            cal_reserved
        } else {
            0
        },
        bx_n - 1,
    );
    Seq::new((bx_n - 1 - min) as nat, |i: int| ((bx_n - 2 - i) as usize, by as usize))
}

/// The blocks of the first `rows` header rows.
pub open spec fn header_blocks(bx_n: int, cal_reserved: int, rows: nat) -> Seq<(usize, usize)>
    decreases rows,
{
    if rows == 0 {
        Seq::empty()
    } else {
        header_blocks(bx_n, cal_reserved, (rows - 1) as nat) + header_row(
            bx_n,
            rows as int,
            cal_reserved,
        )
    }
}

/// How many copies of the boot message are placed.
pub open spec fn reserved_copies(p: &LinkParams, boot_copies: int) -> int {
    if boot_copies < 1 {
        1
    } else if boot_copies > p.boot_copies_max {
        p.boot_copies_max as int
    } else {
        boot_copies
    }
}

/// What stands against a layout of the boot message, if anything does.
pub open spec fn boot_fault(
    p: &LinkParams,
    width: int,
    height: int,
    boot_copies: int,
    cal_reserved: int,
) -> Option<LinkLayoutError> {
    let (bx_n, by_n) = (width / 32, height / 32);
    let need = p.boot_len * 8 * reserved_copies(p, boot_copies);
    let have = header_blocks(bx_n, cal_reserved, p.header_rows as nat).len();
    if bx_n == 0 || by_n == 0 {
        Some(LinkLayoutError::InvalidGeometry)
    } else if bx_n <= 2 {
        Some(LinkLayoutError::NoHorizontalBlocks)
    } else if by_n <= 2 + p.header_rows {
        Some(LinkLayoutError::NoVerticalBlocks)
    } else if have < need {
        Some(LinkLayoutError::HeaderTooSmall { need: need as usize, have: have as usize })
    } else {
        None
    }
}

/// The blocks of each copy: the header blocks cut into pieces of one bit to a block.
pub open spec fn is_boot_layout(
    l: BootLayout,
    p: &LinkParams,
    bx_n: int,
    boot_copies: int,
    cal_reserved: int,
) -> bool {
    let bits = p.boot_len * 8;
    &&& l.copies@.len() == reserved_copies(p, boot_copies)
    &&& forall|c: int|
        0 <= c < l.copies@.len() ==> (#[trigger] l.copies@[c])@ == header_blocks(
            bx_n,
            cal_reserved,
            p.header_rows as nat,
        ).subrange(c * bits, c * bits + bits)
}

/// The header can be counted.
pub open spec fn boot_sizes_fit(p: &LinkParams, cal_reserved: int) -> bool {
    &&& p.boot_copies_max >= 1
    &&& p.boot_len * 8 * p.boot_copies_max <= usize::MAX
    &&& p.boot_len * 8 <= usize::MAX
    &&& p.header_rows + 2 <= usize::MAX
    &&& cal_reserved + 1 <= usize::MAX
}

/// Places the copies of the boot message.
pub fn build_boot_layout(
    p: &LinkParams,
    width: usize,
    height: usize,
    boot_copies: usize,
    cal_reserved_blocks: usize,
) -> (r: Result<BootLayout, LinkLayoutError>)
    requires
        boot_sizes_fit(p, cal_reserved_blocks as int),
    ensures
        match r {
            Ok(l) => boot_fault(
                p,
                width as int,
                height as int,
                boot_copies as int,
                cal_reserved_blocks as int,
            ) is None && is_boot_layout(
                l,
                p,
                width as int / 32,
                boot_copies as int,
                cal_reserved_blocks as int,
            ),
            Err(e) => boot_fault(
                p,
                width as int,
                height as int,
                boot_copies as int,
                cal_reserved_blocks as int,
            ) == Some(e),
        },
{
    let bx_n: usize = width / Y_BLOCK;
    let by_n: usize = height / Y_BLOCK;
    if bx_n == 0 || by_n == 0 {
        return Err(LinkLayoutError::InvalidGeometry);
    }
    if bx_n <= 2 * MARGIN_BLOCKS {
        return Err(LinkLayoutError::NoHorizontalBlocks);
    }
    if by_n <= 2 * MARGIN_BLOCKS + p.header_rows {
        return Err(LinkLayoutError::NoVerticalBlocks);
    }
    let bits: usize = p.boot_len * 8;
    let copies_n: usize = if boot_copies < 1 {
        1
    } else if boot_copies > p.boot_copies_max {
        p.boot_copies_max
    } else {
        boot_copies
    };
    assert(0 <= bits * copies_n <= bits * p.boot_copies_max) by (nonlinear_arith)
        requires
            0 <= bits,
            0 <= copies_n <= p.boot_copies_max,
    ;
    let need: usize = bits * copies_n;
    let ghost cal = cal_reserved_blocks as int;
    let mut pool: Vec<(usize, usize)> = Vec::new();
    let mut row: usize = 0;
    while row < p.header_rows
        invariant
            row <= p.header_rows,
            bx_n > 2,
            by_n > 2 + p.header_rows,
            p.header_rows + 2 <= usize::MAX,
            cal == cal_reserved_blocks,
            cal + 1 <= usize::MAX,
            pool@ == header_blocks(bx_n as int, cal, row as nat),
        decreases p.header_rows - row,
    {
        let by: usize = MARGIN_BLOCKS + row;
        let reserved: usize = if by == MARGIN_BLOCKS {
            cal_reserved_blocks
        } else {
            0
        };
        let min: usize = util::min_usize(MARGIN_BLOCKS + reserved, bx_n - MARGIN_BLOCKS);
        let ghost want = header_row(bx_n as int, by as int, cal);
        let ghost before = pool@;
        let mut bx: usize = bx_n - 1;
        assert(want.take(0) =~= Seq::<(usize, usize)>::empty());
        assert(pool@ =~= before + want.take(0));
        while bx > min
            invariant
                min <= bx <= bx_n - 1,
                bx_n > 2,
                min == util::lesser(
                    1 + if by == 1 {
                        cal
                    } else {
                        0
                    },
                    bx_n - 1,
                ),
                want == header_row(bx_n as int, by as int, cal),
                pool@ == before + want.take(bx_n - 1 - bx),
            decreases bx,
        {
            bx = bx - 1;
            pool.push((bx, by));
            assert(want.take(bx_n - 1 - bx) =~= want.take(bx_n - 2 - bx).push((bx, by)));
        }
        assert(want.take(bx_n - 1 - bx) =~= want);
        row = row + 1;
    }
    if pool.len() < need {
        return Err(LinkLayoutError::HeaderTooSmall { need, have: pool.len() });
    }
    let mut copies: Vec<Vec<(usize, usize)>> = Vec::with_capacity(copies_n);
    let mut c: usize = 0;
    while c < copies_n
        invariant
            c <= copies_n,
            need == bits * copies_n,
            need <= pool.len(),
            copies@.len() == c,
            forall|d: int|
                0 <= d < c ==> (#[trigger] copies@[d])@ == pool@.subrange(d * bits, d * bits + bits),
        decreases copies_n - c,
    {
        assert(0 <= c * bits && c * bits + bits <= bits * copies_n) by (nonlinear_arith)
            requires
                0 <= c,
                c + 1 <= copies_n,
                0 <= bits,
        ;
        let start: usize = c * bits;
        let mut copy: Vec<(usize, usize)> = Vec::with_capacity(bits);
        let mut i: usize = 0;
        while i < bits
            invariant
                i <= bits,
                start == c * bits,
                start + bits <= pool.len(),
                copy@ == pool@.subrange(start as int, start + i),
            decreases bits - i,
        {
            copy.push(pool[start + i]);
            assert(pool@.subrange(start as int, start + i + 1) =~= pool@.subrange(
                start as int,
                start + i,
            ).push(pool@[start + i]));
            i = i + 1;
        }
        copies.push(copy);
        c = c + 1;
    }
    Ok(BootLayout { copies })
}

/// The calibration strip: from the left margin of the first header row, each level as often as the
/// profile says.
pub open spec fn cal_strip(cal_blocks: nat, repeats: int) -> Seq<(usize, usize, u8)> {
    Seq::new(cal_blocks, |i: int| ((1 + i) as usize, 1usize, (i / repeats) as usize as u8))
}

/// The blocks of the first `n` copies of the boot message.
pub open spec fn boot_blocks(copies: Seq<Vec<(usize, usize)>>, n: nat) -> Seq<(usize, usize)>
    decreases n,
{
    if n == 0 {
        Seq::empty()
    } else {
        boot_blocks(copies, (n - 1) as nat) + copies[n - 1]@
    }
}

/// A block is one of the calibration strip.
pub open spec fn in_cal_strip(b: (usize, usize), cal_blocks: int) -> bool {
    b.1 == 1 && 1 <= b.0 < 1 + cal_blocks
}

/// The blocks of the boot message are used once, and not by the calibration strip.
pub open spec fn are_free(blocks: Seq<(usize, usize)>, cal_blocks: int) -> bool {
    &&& blocks.no_duplicates()
    &&& forall|i: int| 0 <= i < blocks.len() ==> !in_cal_strip(#[trigger] blocks[i], cal_blocks)
}

/// What stands against the layout of a key frame, if anything does.
pub open spec fn profile_fault(
    p: &LinkParams,
    width: int,
    height: int,
    boot: BootLayout,
    pcfg: &LinkProfile,
) -> Option<LinkLayoutError> {
    let (bx_n, by_n) = (width / 32, height / 32);
    let cal = pcfg.pam_m * pcfg.cal_repeats;
    if bx_n <= 2 {
        Some(LinkLayoutError::NoHorizontalBlocks)
    } else if by_n <= 2 + p.header_rows {
        Some(LinkLayoutError::NoVerticalBlocks)
    } else if cal == 0 {
        Some(LinkLayoutError::NoCalBlocks)
    } else if cal > bx_n - 2 {
        Some(LinkLayoutError::CalTooLong { need: cal as usize, usable: (bx_n - 2) as usize })
    } else if !are_free(boot_blocks(boot.copies@, boot.copies@.len()), cal) {
        Some(LinkLayoutError::BootOverlap)
    } else {
        None
    }
}

/// The layout of a key frame.
pub open spec fn is_key_layout(
    l: ProfileLayout,
    p: &LinkParams,
    width: int,
    height: int,
    pcfg: &LinkProfile,
) -> bool {
    &&& l.bx_n == width / 32
    &&& l.by_n == height / 32
    &&& l.header_by_start == 1
    &&& l.header_by_end == 1 + p.header_rows
    &&& l.payload_by_start == 1 + p.header_rows
    &&& l.payload_by_end == l.by_n - 1
    &&& l.cal_pos@ == cal_strip(
        (pcfg.pam_m * pcfg.cal_repeats) as nat,
        pcfg.cal_repeats as int,
    )
    &&& l.payload_pos@ == payload_tiles::payload_positions(
        l.bx_n,
        l.payload_by_start,
        l.payload_by_end,
    )
}

/// Whether a list of blocks is free, given those before it.
fn check_free(blocks: &Vec<(usize, usize)>, used: &mut Vec<(usize, usize)>, cal_blocks: usize) -> (ok:
    bool)
    requires
        are_free(old(used)@, cal_blocks as int),
        cal_blocks < usize::MAX,
    ensures
        ok == are_free(old(used)@ + blocks@, cal_blocks as int),
        ok ==> final(used)@ == old(used)@ + blocks@,
{
    let ghost start = used@;
    let ghost all = start + blocks@;
    let mut i: usize = 0;
    assert(start + blocks@.take(0) =~= start);
    while i < blocks.len()
        invariant
            i <= blocks@.len(),
            cal_blocks < usize::MAX,
            start == old(used)@,
            all == start + blocks@,
            used@ == start + blocks@.take(i as int),
            are_free(used@, cal_blocks as int),
        decreases blocks@.len() - i,
    {
        let b: (usize, usize) = blocks[i];
        let in_cal: bool = b.1 == 1 && b.0 >= 1 && b.0 < 1 + cal_blocks;
        let at: Ghost<int> = Ghost(start.len() + i);
        assert(all[at@] == b);
        if in_cal {
            return false;
        }
        if phy_layout::contains_block(used, b) {
            proof {
                let k = choose|k: int| 0 <= k < used@.len() && used@[k] == b;
                assert(all[k] == b);
            }
            return false;
        }
        let ghost before = used@;
        used.push(b);
        proof {
            assert(blocks@.take(i + 1) =~= blocks@.take(i as int).push(b));
            assert(used@ =~= start + blocks@.take(i + 1));
            assert forall|x: int, y: int| 0 <= x < used@.len() && 0 <= y < used@.len() && x != y implies used@[x]
                != used@[y] by {
                if x < before.len() && y < before.len() {
                    assert(before[x] != before[y]);
                } else if x < before.len() {
                    assert(before.contains(before[x]));
                } else {
                    assert(before.contains(before[y]));
                }
            }
        }
        i = i + 1;
    }
    assert(blocks@.take(i as int) =~= blocks@);
    true
}

proof fn lemma_free_prefix(a: Seq<(usize, usize)>, b: Seq<(usize, usize)>, cal: int)
    requires
        are_free(a + b, cal),
    ensures
        are_free(a, cal),
{
    let all = a + b;
    assert forall|x: int, y: int| 0 <= x < a.len() && 0 <= y < a.len() && x != y implies a[x]
        != a[y] by {
        assert(all[x] == a[x] && all[y] == a[y]);
    }
    assert forall|i: int| 0 <= i < a.len() implies !in_cal_strip(#[trigger] a[i], cal) by {
        assert(all[i] == a[i]);
    }
}

proof fn lemma_boot_prefix_free(copies: Seq<Vec<(usize, usize)>>, i: nat, n: nat, cal: int)
    requires
        i <= n <= copies.len(),
        are_free(boot_blocks(copies, n), cal),
    ensures
        are_free(boot_blocks(copies, i), cal),
    decreases n - i,
{
    if i < n {
        lemma_free_prefix(boot_blocks(copies, (n - 1) as nat), copies[n - 1]@, cal);
        lemma_boot_prefix_free(copies, i, (n - 1) as nat, cal);
    }
}

/// Lays out a key frame.
pub fn build_profile_layout(
    p: &LinkParams,
    width: usize,
    height: usize,
    boot: &BootLayout,
    pcfg: &LinkProfile,
) -> (r: Result<ProfileLayout, LinkLayoutError>)
    requires
        p.header_rows + 2 <= usize::MAX,
        pcfg.pam_m * pcfg.cal_repeats <= usize::MAX,
        (width / 32) * (height / 32) <= usize::MAX,
    ensures
        match r {
            Ok(l) => profile_fault(p, width as int, height as int, *boot, pcfg) is None
                && is_key_layout(l, p, width as int, height as int, pcfg),
            Err(e) => profile_fault(p, width as int, height as int, *boot, pcfg) == Some(e),
        },
{
    let bx_n: usize = width / Y_BLOCK;
    let by_n: usize = height / Y_BLOCK;
    if bx_n <= 2 * MARGIN_BLOCKS {
        return Err(LinkLayoutError::NoHorizontalBlocks);
    }
    if by_n <= 2 * MARGIN_BLOCKS + p.header_rows {
        return Err(LinkLayoutError::NoVerticalBlocks);
    }
    let usable: usize = bx_n - 2 * MARGIN_BLOCKS;
    let start: usize = MARGIN_BLOCKS + p.header_rows;
    let end: usize = by_n - MARGIN_BLOCKS;
    let cal: usize = pcfg.pam_m * pcfg.cal_repeats;
    if cal == 0 {
        return Err(LinkLayoutError::NoCalBlocks);
    }
    if cal > usable {
        return Err(LinkLayoutError::CalTooLong { need: cal, usable });
    }
    let repeats: usize = pcfg.cal_repeats;
    assert(repeats > 0) by (nonlinear_arith)
        requires
            pcfg.pam_m * repeats > 0,
            pcfg.pam_m >= 0,
            repeats >= 0,
    ;
    let ghost strip = cal_strip(cal as nat, repeats as int);
    let mut cal_pos: Vec<(usize, usize, u8)> = Vec::with_capacity(cal);
    let mut i: usize = 0;
    while i < cal
        invariant
            i <= cal,
            cal < usize::MAX,
            repeats > 0,
            strip == cal_strip(cal as nat, repeats as int),
            cal_pos@ == strip.take(i as int),
        decreases cal - i,
    {
        let lvl: usize = i / repeats;
        cal_pos.push((MARGIN_BLOCKS + i, MARGIN_BLOCKS, lvl as u8));
        assert(strip.take(i + 1) =~= strip.take(i as int).push(strip[i as int]));
        i = i + 1;
    }
    assert(strip.take(i as int) =~= strip);
    let mut used: Vec<(usize, usize)> = Vec::new();
    let mut c: usize = 0;
    let ghost copies = boot.copies@;
    assert(used@ =~= boot_blocks(copies, 0));
    while c < boot.copies.len()
        invariant
            c <= boot.copies@.len(),
            copies == boot.copies@,
            bx_n == width / 32,
            by_n == height / 32,
            bx_n > 2,
            by_n > 2 + p.header_rows,
            cal == pcfg.pam_m * pcfg.cal_repeats,
            0 < cal <= bx_n - 2,
            used@ == boot_blocks(copies, c as nat),
            are_free(used@, cal as int),
        decreases boot.copies@.len() - c,
    {
        let ok: bool = check_free(&boot.copies[c], &mut used, cal);
        if !ok {
            proof {
                if are_free(boot_blocks(copies, copies.len()), cal as int) {
                    lemma_boot_prefix_free(copies, (c + 1) as nat, copies.len(), cal as int);
                }
            }
            return Err(LinkLayoutError::BootOverlap);
        }
        c = c + 1;
    }
    proof {
        assert((bx_n - 2) * (end - start) <= bx_n * by_n) by (nonlinear_arith)
            requires
                0 <= bx_n - 2 <= bx_n,
                0 <= end - start <= by_n,
        ;
    }
    let payload_pos: Vec<(usize, usize)> = payload_tiles::build_payload_positions_vec(
        bx_n,
        start,
        end,
    );
    Ok(
        ProfileLayout {
            bx_n,
            by_n,
            header_by_start: MARGIN_BLOCKS,
            header_by_end: MARGIN_BLOCKS + p.header_rows,
            payload_by_start: start,
            payload_by_end: end,
            cal_pos,
            payload_pos,
        },
    )
}

/// What stands against the layout of a frame without boot message and calibration.
pub open spec fn tracking_fault(width: int, height: int) -> Option<LinkLayoutError> {
    let (bx_n, by_n) = (width / 32, height / 32);
    if bx_n == 0 || by_n == 0 {
        Some(LinkLayoutError::InvalidGeometry)
    } else if bx_n <= 2 || by_n <= 2 {
        Some(LinkLayoutError::NoTrackingMargins)
    } else {
        None
    }
}

/// The layout of such a frame: all blocks inside the margins carry payload.
pub open spec fn is_tracking_layout(l: ProfileLayout, width: int, height: int) -> bool {
    &&& l.bx_n == width / 32
    &&& l.by_n == height / 32
    &&& l.header_by_start == 1
    &&& l.header_by_end == 1
    &&& l.payload_by_start == 1
    &&& l.payload_by_end == l.by_n - 1
    &&& l.cal_pos@.len() == 0
    &&& l.payload_pos@ == payload_tiles::payload_positions(l.bx_n, 1, l.payload_by_end)
}

pub fn build_tracking_layout(width: usize, height: usize) -> (r: Result<
    ProfileLayout,
    LinkLayoutError,
>)
    requires
        (width / 32) * (height / 32) <= usize::MAX,
    ensures
        match r {
            Ok(l) => tracking_fault(width as int, height as int) is None && is_tracking_layout(
                l,
                width as int,
                height as int,
            ),
            Err(e) => tracking_fault(width as int, height as int) == Some(e),
        },
{
    let bx_n: usize = width / Y_BLOCK;
    let by_n: usize = height / Y_BLOCK;
    if bx_n == 0 || by_n == 0 {
        return Err(LinkLayoutError::InvalidGeometry);
    }
    if bx_n <= 2 * MARGIN_BLOCKS || by_n <= 2 * MARGIN_BLOCKS {
        return Err(LinkLayoutError::NoTrackingMargins);
    }
    proof {
        assert((bx_n - 2) * (by_n - 2) <= bx_n * by_n) by (nonlinear_arith)
            requires
                0 <= bx_n - 2,
                0 <= by_n - 2,
        ;
    }
    let end: usize = by_n - MARGIN_BLOCKS;
    let payload_pos: Vec<(usize, usize)> = payload_tiles::build_payload_positions_vec(
        bx_n,
        MARGIN_BLOCKS,
        end,
    );
    Ok(
        ProfileLayout {
            bx_n,
            by_n,
            header_by_start: MARGIN_BLOCKS,
            header_by_end: MARGIN_BLOCKS,
            payload_by_start: MARGIN_BLOCKS,
            payload_by_end: end,
            cal_pos: Vec::new(),
            payload_pos,
        },
    )
}

/// The side of the locators: at least one block, and no more than the frame has.
pub open spec fn locator_side(bx_n: int, by_n: int, locator_size: int) -> int {
    let most = util::lesser(bx_n, by_n);
    if locator_size < 1 {
        1
    } else if locator_size > most {
        most
    } else {
        locator_size
    }
}

/// The first blocks of the four locators.
pub fn locator_corner_positions(bx_n: usize, by_n: usize, locator_size: usize) -> (r: [(
    usize,
    usize,
); 4])
    requires
        bx_n >= 1,
        by_n >= 1,
    ensures
        ({
            let s = locator_side(bx_n as int, by_n as int, locator_size as int);
            let (x, y) = ((bx_n - s) as usize, (by_n - s) as usize);
            r@ == seq![(0usize, 0usize), (x, 0usize), (0usize, y), (x, y)]
        }),
{
    let most: usize = util::min_usize(bx_n, by_n);
    let s: usize = if locator_size < 1 {
        1
    } else if locator_size > most {
        most
    } else {
        locator_size
    };
    let x: usize = bx_n - s;
    let y: usize = by_n - s;
    let r: [(usize, usize); 4] = [(0, 0), (x, 0), (0, y), (x, y)];
    assert(r@ =~= seq![(0usize, 0usize), (x, 0usize), (0usize, y), (x, y)]);
    r
}

/// The turn of a frame.
pub fn payload_phase(frame_idx: u32) -> (r: usize)
    ensures
        r == frame_idx as int % 1,
{
    (frame_idx as usize) % PAYLOAD_TEMPORAL_PHASES
}

/// A product, but not above the machine's range.
pub open spec fn capped_product(a: int, b: int) -> int {
    if a * b > usize::MAX {
        usize::MAX as int
    } else {
        a * b
    }
}

fn mul_capped(a: usize, b: usize) -> (r: usize)
    ensures
        r == capped_product(a as int, b as int),
{
    match a.checked_mul(b) {
        Some(x) => x,
        None => usize::MAX,
    }
}

/// The number of the tile that a block is counted in.
pub open spec fn tile_index_of(bx_n: int, start: int, bx: int, by: int) -> int {
    let w = if bx_n <= 2 {
        1
    } else {
        bx_n - 2
    };
    let tw = util::lesser(8, w);
    let cols = util::ceil_div(w as nat, tw as nat) as int;
    let x = util::lesser(payload_tiles::monus(bx, 1) / tw, cols - 1);
    let y = payload_tiles::monus(by, start) / 8;
    let row = capped_product(y, cols);
    if row + x > usize::MAX {
        usize::MAX as int
    } else {
        row + x
    }
}

pub fn payload_tile_index(layout: &ProfileLayout, bx: usize, by: usize) -> (r: usize)
    ensures
        r == tile_index_of(
            layout.bx_n as int,
            layout.payload_by_start as int,
            bx as int,
            by as int,
        ),
{
    let inner_w: usize = if layout.bx_n <= 2 * MARGIN_BLOCKS {
        1
    } else {
        layout.bx_n - 2 * MARGIN_BLOCKS
    };
    let tile_w: usize = util::min_usize(PAYLOAD_TILE_BX, inner_w);
    let cols: usize = util::div_ceil(inner_w, tile_w);
    proof {
        vstd::arithmetic::div_mod::lemma_fundamental_div_mod(inner_w as int, tile_w as int);
        assert(cols >= 1) by {
            if inner_w as int / tile_w as int == 0 {
                assert(tile_w * (inner_w as int / tile_w as int) == 0) by (nonlinear_arith)
                    requires
                        inner_w as int / tile_w as int == 0,
                ;
            }
        }
    }
    let local_x: usize = if bx >= MARGIN_BLOCKS {
        bx - MARGIN_BLOCKS
    } else {
        0
    };
    let local_y: usize = if by >= layout.payload_by_start {
        by - layout.payload_by_start
    } else {
        0
    };
    let tile_x: usize = util::min_usize(local_x / tile_w, cols - 1);
    let tile_y: usize = local_y / PAYLOAD_TILE_BY;
    let row: usize = mul_capped(tile_y, cols);
    match row.checked_add(tile_x) {
        Some(s) => s,
        None => usize::MAX,
    }
}

/// Whether a block carries payload in a frame: as frames do not take turns, each always does.
pub fn payload_block_is_active(layout: &ProfileLayout, bx: usize, by: usize, frame_idx: u32) -> (r:
    bool)
    ensures
        r,
{
    if PAYLOAD_TEMPORAL_PHASES <= 1 {
        return true;
    }
    payload_tile_index(layout, bx, by) % PAYLOAD_TEMPORAL_PHASES == payload_phase(frame_idx)
}

/// How many blocks carry payload in a frame.
pub fn payload_active_positions_count(layout: &ProfileLayout, frame_idx: u32) -> (n: usize)
    ensures
        n == layout.payload_pos@.len(),
{
    let mut n: usize = 0;
    let mut i: usize = 0;
    while i < layout.payload_pos.len()
        invariant
            i <= layout.payload_pos@.len(),
            n == i,
        decreases layout.payload_pos@.len() - i,
    {
        let (bx, by): (usize, usize) = layout.payload_pos[i];
        if payload_block_is_active(layout, bx, by, frame_idx) {
            n = n + 1;
        }
        i = i + 1;
    }
    n
}

/// How many payload bits a frame carries.
pub open spec fn capacity_bits(layout: &ProfileLayout, pcfg: &LinkProfile) -> int {
    capped_product(layout.payload_pos@.len() as int, pcfg.bits_per_plane as int)
}

pub fn payload_capacity_bits_for_frame(
    layout: &ProfileLayout,
    pcfg: &LinkProfile,
    frame_idx: u32,
) -> (n: usize)
    ensures
        n == capacity_bits(layout, pcfg),
{
    mul_capped(payload_active_positions_count(layout, frame_idx), pcfg.bits_per_block())
}

pub fn payload_capacity_bits(layout: &ProfileLayout, pcfg: &LinkProfile) -> (n: usize)
    ensures
        n == capacity_bits(layout, pcfg),
{
    payload_capacity_bits_for_frame(layout, pcfg, 0)
}

proof fn lemma_header_blocks(bx_n: int, cal: int, rows: nat)
    requires
        2 < bx_n <= usize::MAX,
        0 <= cal <= bx_n - 2,
        rows < usize::MAX,
    ensures
        are_free(header_blocks(bx_n, cal, rows), cal),
        forall|i: int|
            0 <= i < header_blocks(bx_n, cal, rows).len() ==> 1 <= (#[trigger] header_blocks(
                bx_n,
                cal,
                rows,
            )[i]).1 <= rows && 1 <= header_blocks(bx_n, cal, rows)[i].0 < bx_n - 1,
    decreases rows,
{
    if rows > 0 {
        let m = (rows - 1) as nat;
        lemma_header_blocks(bx_n, cal, m);
        let before = header_blocks(bx_n, cal, m);
        let row = header_row(bx_n, rows as int, cal);
        let all = header_blocks(bx_n, cal, rows);
        assert forall|i: int| 0 <= i < all.len() implies 1 <= (#[trigger] all[i]).1 <= rows && 1
            <= all[i].0 < bx_n - 1 && !in_cal_strip(all[i], cal) by {
            if i < before.len() {
                assert(all[i] == before[i]);
            } else {
                assert(all[i] == row[i - before.len()]);
            }
        }
        assert forall|i: int, j: int| 0 <= i < all.len() && 0 <= j < all.len() && i != j implies all[i]
            != all[j] by {
            if i < before.len() && j < before.len() {
                assert(all[i] == before[i] && all[j] == before[j]);
            } else if i < before.len() {
                assert(all[i] == before[i] && all[j] == row[j - before.len()]);
                assert(before[i].1 <= m);
            } else if j < before.len() {
                assert(all[j] == before[j] && all[i] == row[i - before.len()]);
                assert(before[j].1 <= m);
            } else {
                assert(all[i] == row[i - before.len()] && all[j] == row[j - before.len()]);
            }
        }
    }
}

/// The blocks of the first copies come first.
pub proof fn lemma_boot_blocks_prefix(copies: Seq<Vec<(usize, usize)>>, i: nat, n: nat)
    requires
        i <= n,
    ensures
        boot_blocks(copies, i).len() <= boot_blocks(copies, n).len(),
        forall|k: int|
            0 <= k < boot_blocks(copies, i).len() ==> #[trigger] boot_blocks(copies, i)[k]
                == boot_blocks(copies, n)[k],
    decreases n - i,
{
    if i < n {
        lemma_boot_blocks_prefix(copies, i, (n - 1) as nat);
    }
}

/// The blocks of each copy are among those of all copies.
pub proof fn lemma_in_boot_blocks(copies: Seq<Vec<(usize, usize)>>, n: nat, c: int, i: int)
    requires
        0 <= c < n <= copies.len(),
        0 <= i < copies[c]@.len(),
    ensures
        exists|k: int|
            0 <= k < boot_blocks(copies, n).len() && #[trigger] boot_blocks(copies, n)[k]
                == copies[c]@[i],
    decreases n,
{
    let before = boot_blocks(copies, (n - 1) as nat);
    let all = boot_blocks(copies, n);
    if c == n - 1 {
        assert(all[before.len() + i] == copies[c]@[i]);
    } else {
        lemma_in_boot_blocks(copies, (n - 1) as nat, c, i);
        let k = choose|k: int|
            0 <= k < before.len() && #[trigger] before[k] == copies[c]@[i];
        assert(all[k] == before[k]);
    }
}

proof fn lemma_copies_join(
    copies: Seq<Vec<(usize, usize)>>,
    pool: Seq<(usize, usize)>,
    bits: int,
    n: nat,
)
    requires
        0 <= bits,
        n <= copies.len(),
        n * bits <= pool.len(),
        forall|c: int|
            0 <= c < copies.len() ==> (#[trigger] copies[c])@ == pool.subrange(
                c * bits,
                c * bits + bits,
            ),
    ensures
        boot_blocks(copies, n) == pool.take(n * bits),
    decreases n,
{
    if n == 0 {
        assert(0 * bits == 0) by (nonlinear_arith);
        assert(pool.take(0 * bits) =~= Seq::<(usize, usize)>::empty());
    } else {
        let m = (n - 1) as nat;
        assert(n * bits == m * bits + bits && 0 <= m * bits) by (nonlinear_arith)
            requires
                n == m + 1,
                0 <= bits,
                0 <= m,
        ;
        lemma_copies_join(copies, pool, bits, m);
        assert(copies[m as int]@ == pool.subrange(m * bits, m * bits + bits));
        assert(pool.take(m * bits) + pool.subrange(m * bits, m * bits + bits) =~= pool.take(
            n * bits,
        ));
    }
}

/// A boot message that keeps clear of a calibration strip of the profile's length never gets in its
/// way, nor in its own, and stands in the header rows, where no payload goes.
pub proof fn law_boot_keeps_clear(
    p: &LinkParams,
    l: BootLayout,
    width: int,
    height: int,
    boot_copies: int,
    cal: int,
)
    requires
        0 < cal <= width / 32 - 2,
        width <= usize::MAX,
        p.header_rows < usize::MAX,
        p.boot_copies_max >= 1,
        boot_fault(p, width, height, boot_copies, cal) is None,
        is_boot_layout(l, p, width / 32, boot_copies, cal),
    ensures
        are_free(boot_blocks(l.copies@, l.copies@.len()), cal),
        forall|i: int|
            0 <= i < boot_blocks(l.copies@, l.copies@.len()).len() ==> 1 <= (#[trigger] boot_blocks(
                l.copies@,
                l.copies@.len(),
            )[i]).1 < 1 + p.header_rows && 1 <= boot_blocks(l.copies@, l.copies@.len())[i].0 < width
                / 32 - 1,
{
    let bx_n = width / 32;
    let bits = p.boot_len * 8;
    let pool = header_blocks(bx_n, cal, p.header_rows as nat);
    let n = l.copies@.len();
    lemma_header_blocks(bx_n, cal, p.header_rows as nat);
    assert(n * bits == bits * n) by (nonlinear_arith);
    lemma_copies_join(l.copies@, pool, bits, n);
    let used = boot_blocks(l.copies@, n);
    assert(0 <= n * bits) by (nonlinear_arith)
        requires
            0 <= n,
            0 <= bits,
    ;
    assert(pool =~= used + pool.skip(n * bits));
    lemma_free_prefix(used, pool.skip(n * bits), cal);
    assert forall|i: int| 0 <= i < used.len() implies 1 <= (#[trigger] used[i]).1 < 1 + p.header_rows
        && 1 <= used[i].0 < bx_n - 1 by {
        assert(used[i] == pool[i]);
    }
}

} // verus!
