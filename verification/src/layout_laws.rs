//! What holds of the places that the parts of a frame are given.
use crate::encoder;
use crate::envelope;
use crate::ldpc::LdpcCode;
use crate::link_decoder;
use crate::link_draw;
use crate::link_layout;
use crate::link_plan;
use crate::link_plan::LinkLayouts;
use crate::link_profile::{LinkParams, LinkProfile};
use crate::params::ProfileCfg;
use crate::payload_tiles;
use crate::phy_layout;
use crate::util;
use vstd::prelude::*;

verus! {

/// The first free blocks are blocks of the list that are not excluded, each once and no more than
/// the limit; and where a block of the list is neither excluded nor taken, the limit was reached
/// with blocks that come before it.
pub proof fn law_first_free(
    blocks: Seq<(usize, usize)>,
    excluded: Seq<(usize, usize)>,
    limit: nat,
    n: nat,
    i: int,
)
    requires
        0 <= i < n <= blocks.len(),
    ensures
        ({
            let taken = phy_layout::first_free(blocks, excluded, limit, n);
            &&& taken.len() <= limit
            &&& taken.no_duplicates()
            &&& forall|k: int|
                0 <= k < taken.len() ==> !excluded.contains(#[trigger] taken[k]) && blocks.take(
                    n as int,
                ).contains(taken[k])
            &&& !excluded.contains(blocks[i]) && !taken.contains(blocks[i]) ==> taken.len() == limit
                && forall|k: int|
                0 <= k < taken.len() ==> blocks.take(i).contains(#[trigger] taken[k])
        }),
    decreases n,
{
    lemma_taken(blocks, excluded, limit, n);
    let m = (n - 1) as nat;
    let before = phy_layout::first_free(blocks, excluded, limit, m);
    let taken = phy_layout::first_free(blocks, excluded, limit, n);
    let b = blocks[i];
    lemma_taken(blocks, excluded, limit, m);
    if !excluded.contains(b) && !taken.contains(b) {
        if i == m {
            assert(taken == before) by {
                if taken != before {
                    assert(taken.last() == b);
                    assert(taken.contains(taken[taken.len() - 1]));
                }
            }
            assert(blocks.take(i) == blocks.take(m as int));
        } else {
            if before.contains(b) {
                let k = choose|k: int| 0 <= k < before.len() && before[k] == b;
                assert(taken[k] == b);
            }
            law_first_free(blocks, excluded, limit, m, i);
            assert(taken == before);
        }
    }
}

proof fn lemma_taken(
    blocks: Seq<(usize, usize)>,
    excluded: Seq<(usize, usize)>,
    limit: nat,
    n: nat,
)
    requires
        n <= blocks.len(),
    ensures
        ({
            let taken = phy_layout::first_free(blocks, excluded, limit, n);
            &&& taken.len() <= limit
            &&& taken.no_duplicates()
            &&& forall|k: int|
                0 <= k < taken.len() ==> !excluded.contains(#[trigger] taken[k]) && blocks.take(
                    n as int,
                ).contains(taken[k])
        }),
    decreases n,
{
    if n > 0 {
        let m = (n - 1) as nat;
        lemma_taken(blocks, excluded, limit, m);
        let before = phy_layout::first_free(blocks, excluded, limit, m);
        let taken = phy_layout::first_free(blocks, excluded, limit, n);
        let all = blocks.take(n as int);
        assert forall|k: int| 0 <= k < taken.len() implies !excluded.contains(#[trigger] taken[k])
            && all.contains(taken[k]) by {
            if k < before.len() {
                assert(taken[k] == before[k]);
                let head = blocks.take(m as int);
                let j = choose|j: int| 0 <= j < head.len() && head[j] == before[k];
                assert(all[j] == taken[k]);
            } else {
                assert(all[m as int] == taken[k]);
            }
        }
        assert forall|x: int, y: int| 0 <= x < y < taken.len() implies taken[x] != taken[y] by {
            assert(taken[x] == before[x]);
            if y < before.len() {
                assert(taken[y] == before[y]);
            } else if taken[x] == taken[y] {
                assert(before.contains(before[x]));
            }
        }
    }
}

/// A block is in the rectangle between two corners, both of which are part of it.
pub open spec fn is_between(b: (usize, usize), x0: int, y0: int, x1: int, y1: int) -> bool {
    x0 <= b.0 <= x1 && y0 <= b.1 <= y1
}

/// The inner border is the edge of what is left within a margin of one block.
pub proof fn law_perimeter_is_the_inner_border(bx_n: int, by_n: int, b: (usize, usize))
    requires
        4 < bx_n <= usize::MAX,
        4 < by_n <= usize::MAX,
    ensures
        phy_layout::perimeter(bx_n, by_n).contains(b) <==> is_between(b, 1, 1, bx_n - 2, by_n - 2)
            && !is_between(b, 2, 2, bx_n - 3, by_n - 3),
        phy_layout::perimeter(bx_n, by_n).len() == 2 * (bx_n - 2) + 2 * (by_n - 2) - 4,
        phy_layout::perimeter(bx_n, by_n)[0] == (1usize, 1usize),
        phy_layout::perimeter(bx_n, by_n)[1] == (2usize, 1usize),
{
    let (x1, y1) = (bx_n - 2, by_n - 2);
    let all = phy_layout::perimeter(bx_n, by_n);
    let (x, y) = (b.0 as int, b.1 as int);
    let top = Seq::new(x1 as nat, |i: int| ((1 + i) as usize, 1usize));
    let right = Seq::new((y1 - 1) as nat, |i: int| (x1 as usize, (2 + i) as usize));
    let bottom = Seq::new((x1 - 1) as nat, |i: int| ((x1 - 1 - i) as usize, y1 as usize));
    let left = Seq::new((y1 - 2) as nat, |i: int| (1usize, (y1 - 1 - i) as usize));
    assert(all == top + right + bottom + left);
    let k: int = if y == 1 {
        x - 1
    } else if x == x1 {
        x1 + y - 2
    } else if y == y1 {
        x1 + y1 - 1 + x1 - 1 - x
    } else {
        x1 + y1 - 1 + x1 - 1 + y1 - 1 - y
    };
    if is_between(b, 1, 1, x1, y1) && !is_between(b, 2, 2, bx_n - 3, by_n - 3) {
        if y == 1 {
            assert(all[k] == top[x - 1]);
        } else if x == x1 {
            assert(all[k] == right[y - 2]);
        } else if y == y1 {
            assert(all[k] == bottom[x1 - 1 - x]);
        } else {
            assert(all[k] == left[y1 - 1 - y]);
        }
        assert(all[k] == b);
    }
    if all.contains(b) {
        let i = choose|i: int| 0 <= i < all.len() && all[i] == b;
        if i < x1 {
            assert(all[i] == top[i]);
        } else if i < x1 + y1 - 1 {
            assert(all[i] == right[i - x1]);
        } else if i < x1 + y1 - 1 + x1 - 1 {
            assert(all[i] == bottom[i - x1 - y1 + 1]);
        } else {
            assert(all[i] == left[i - x1 - y1 + 1 - x1 + 1]);
        }
    }
    assert(all[0] == top[0] && all[1] == top[1]);
}

/// The blocks inside the margin come row by row from the left, each once.
pub proof fn law_inner_blocks_are_row_by_row(bx_n: int, rows: int, b: (usize, usize), i: int, j: int)
    requires
        2 < bx_n <= usize::MAX,
        0 <= rows < usize::MAX,
    ensures
        phy_layout::inner_blocks(bx_n, rows).contains(b) <==> is_between(b, 1, 1, bx_n - 2, rows),
        ({
            let all = phy_layout::inner_blocks(bx_n, rows);
            0 <= i < j < all.len() ==> all[i].1 < all[j].1 || (all[i].1 == all[j].1 && all[i].0
                < all[j].0)
        }),
{
    let w = bx_n - 2;
    let all = phy_layout::inner_blocks(bx_n, rows);
    assert(0 <= rows * w) by (nonlinear_arith)
        requires
            0 <= rows,
            0 < w,
    ;
    let (x, y) = (b.0 as int, b.1 as int);
    if is_between(b, 1, 1, bx_n - 2, rows) {
        let k = (y - 1) * w + x - 1;
        assert(0 <= k < rows * w) by (nonlinear_arith)
            requires
                0 <= y - 1 < rows,
                0 <= x - 1 < w,
                k == (y - 1) * w + x - 1,
        ;
        vstd::arithmetic::div_mod::lemma_fundamental_div_mod_converse(k, w, y - 1, x - 1);
        assert(all[k] == b);
    }
    if all.contains(b) {
        let k = choose|k: int| 0 <= k < all.len() && all[k] == b;
        lemma_row_of(k, w, rows);
    }
    if 0 <= i < j < all.len() {
        lemma_row_of(i, w, rows);
        lemma_row_of(j, w, rows);
        if i / w > j / w {
            assert(false) by (nonlinear_arith)
                requires
                    i == w * (i / w) + i % w,
                    j == w * (j / w) + j % w,
                    0 <= i % w,
                    j % w < w,
                    i / w >= j / w + 1,
                    i < j,
                    0 < w,
            ;
        }
    }
}

proof fn lemma_row_of(k: int, w: int, rows: int)
    requires
        0 <= k < rows * w,
        0 < w,
    ensures
        0 <= k / w < rows,
        0 <= k % w < w,
        k == w * (k / w) + k % w,
{
    vstd::arithmetic::div_mod::lemma_fundamental_div_mod(k, w);
    vstd::arithmetic::div_mod::lemma_mod_bound(k, w);
    assert(0 <= k / w < rows) by (nonlinear_arith)
        requires
            k == w * (k / w) + k % w,
            0 <= k % w < w,
            0 <= k < rows * w,
    ;
}

/// The locators stand in the four corners inside the margin.
pub proof fn law_locators_stand_in_the_corners(bx_n: int, by_n: int)
    requires
        4 < bx_n <= usize::MAX,
        4 < by_n <= usize::MAX,
    ensures
        phy_layout::locator_blocks(bx_n, by_n) == seq![
            (1usize, 1usize),
            ((bx_n - 2) as usize, 1usize),
            (1usize, (by_n - 2) as usize),
            ((bx_n - 2) as usize, (by_n - 2) as usize),
        ],
{
    assert(phy_layout::locator_blocks(bx_n, by_n) =~= seq![
        (1usize, 1usize),
        ((bx_n - 2) as usize, 1usize),
        (1usize, (by_n - 2) as usize),
        ((bx_n - 2) as usize, (by_n - 2) as usize),
    ]);
}

/// The pilots stand on the inner border and not on a locator, at most twelve of them; where they are
/// fewer, every block of the border is a pilot or a locator.
pub proof fn law_pilots_stand_on_the_border(bx_n: int, by_n: int, b: (usize, usize))
    requires
        4 < bx_n <= usize::MAX,
        4 < by_n <= usize::MAX,
    ensures
        ({
            let pilots = phy_layout::pilots(bx_n, by_n);
            let locators = phy_layout::locator_blocks(bx_n, by_n);
            let on_border = is_between(b, 1, 1, bx_n - 2, by_n - 2) && !is_between(
                b,
                2,
                2,
                bx_n - 3,
                by_n - 3,
            );
            &&& pilots.len() <= 12
            &&& pilots.no_duplicates()
            &&& pilots.contains(b) ==> on_border && !locators.contains(b)
            &&& on_border && !locators.contains(b) && !pilots.contains(b) ==> pilots.len() == 12
        }),
{
    let border = phy_layout::perimeter(bx_n, by_n);
    let locators = phy_layout::locator_blocks(bx_n, by_n);
    let pilots = phy_layout::pilots(bx_n, by_n);
    law_perimeter_is_the_inner_border(bx_n, by_n, b);
    lemma_taken(border, locators, 12, border.len());
    assert(border.take(border.len() as int) =~= border);
    if pilots.contains(b) {
        let k = choose|k: int| 0 <= k < pilots.len() && pilots[k] == b;
        assert(border.contains(pilots[k]));
    }
    if border.contains(b) && !locators.contains(b) && !pilots.contains(b) {
        let i = choose|i: int| 0 <= i < border.len() && border[i] == b;
        law_first_free(border, locators, 12, border.len(), i);
    }
}

/// The slots are inner blocks that are neither locators nor pilots, each once and no more than
/// asked for. A block that is passed over comes behind all of them, by rows and from the left.
pub proof fn law_slots_are_the_first_free_blocks(
    bx_n: int,
    by_n: int,
    slots_per_frame: int,
    b: (usize, usize),
    k: int,
)
    requires
        4 < bx_n <= usize::MAX,
        4 < by_n <= usize::MAX,
        0 < slots_per_frame,
    ensures
        ({
            let slots = phy_layout::slots(bx_n, by_n, slots_per_frame);
            let used = phy_layout::locator_blocks(bx_n, by_n) + phy_layout::pilots(bx_n, by_n);
            &&& slots.len() <= slots_per_frame
            &&& slots.no_duplicates()
            &&& slots.contains(b) ==> is_between(b, 1, 1, bx_n - 2, by_n - 2) && !used.contains(b)
            &&& is_between(b, 1, 1, bx_n - 2, by_n - 2) && !used.contains(b) && !slots.contains(b)
                ==> slots.len() == slots_per_frame && (0 <= k < slots.len() ==> slots[k].1 < b.1 || (
            slots[k].1 == b.1 && slots[k].0 < b.0))
        }),
{
    let cells = phy_layout::inner_blocks(bx_n, by_n - 2);
    let used = phy_layout::locator_blocks(bx_n, by_n) + phy_layout::pilots(bx_n, by_n);
    let slots = phy_layout::slots(bx_n, by_n, slots_per_frame);
    law_inner_blocks_are_row_by_row(bx_n, by_n - 2, b, 0, 0);
    lemma_taken(cells, used, slots_per_frame as nat, cells.len());
    assert(cells.take(cells.len() as int) =~= cells);
    if slots.contains(b) {
        let j = choose|j: int| 0 <= j < slots.len() && slots[j] == b;
        assert(cells.contains(slots[j]));
    }
    if cells.contains(b) && !used.contains(b) && !slots.contains(b) {
        let i = choose|i: int| 0 <= i < cells.len() && cells[i] == b;
        law_first_free(cells, used, slots_per_frame as nat, cells.len(), i);
        if 0 <= k < slots.len() {
            let head = cells.take(i);
            assert(head.contains(slots[k]));
            let j = choose|j: int| 0 <= j < head.len() && head[j] == slots[k];
            law_inner_blocks_are_row_by_row(bx_n, by_n - 2, b, j, i);
        }
    }
}

/// The header is all blocks of its rows within the margins but those of the calibration strip, row
/// by row.
pub proof fn law_header_fills_its_rows(bx_n: int, cal_reserved: int, rows: nat, b: (usize, usize))
    requires
        2 < bx_n <= usize::MAX,
        0 <= cal_reserved,
        rows < usize::MAX,
    ensures
        link_layout::header_blocks(bx_n, cal_reserved, rows).contains(b) <==> is_between(
            b,
            1,
            1,
            bx_n - 2,
            rows as int,
        ) && !link_layout::in_cal_strip(b, cal_reserved),
    decreases rows,
{
    let all = link_layout::header_blocks(bx_n, cal_reserved, rows);
    if rows == 0 {
        assert(all.len() == 0);
    } else {
        let m = (rows - 1) as nat;
        law_header_fills_its_rows(bx_n, cal_reserved, m, b);
        let before = link_layout::header_blocks(bx_n, cal_reserved, m);
        let row = link_layout::header_row(bx_n, rows as int, cal_reserved);
        assert(all == before + row);
        if before.contains(b) {
            let i = choose|i: int| 0 <= i < before.len() && before[i] == b;
            assert(all[i] == b);
        }
        if b.1 == rows && is_between(b, 1, 1, bx_n - 2, rows as int) && !link_layout::in_cal_strip(
            b,
            cal_reserved,
        ) {
            let i = bx_n - 2 - b.0;
            assert(row[i] == b);
            assert(all[before.len() + i] == b);
        }
        if all.contains(b) {
            let i = choose|i: int| 0 <= i < all.len() && all[i] == b;
            if i < before.len() {
                assert(before[i] == b);
                assert(before.contains(b));
            } else {
                assert(row[i - before.len()] == b);
            }
        }
    }
}

/// The calibration strip shows each level in as many neighbouring blocks as it is repeated, in the
/// first row inside the margin from the left.
pub proof fn law_strip_repeats_each_level(levels: int, repeats: int, lvl: int, t: int)
    requires
        0 <= lvl < levels <= 256,
        0 <= t < repeats,
        levels * repeats < usize::MAX,
    ensures
        link_layout::cal_strip((levels * repeats) as nat, repeats).len() == levels * repeats,
        lvl * repeats + t < levels * repeats,
        link_layout::cal_strip((levels * repeats) as nat, repeats)[lvl * repeats + t] == (
            (1 + lvl * repeats + t) as usize,
            1usize,
            lvl as u8,
        ),
{
    assert(0 <= lvl * repeats && lvl * repeats + repeats <= levels * repeats && 0 <= levels
        * repeats) by (nonlinear_arith)
        requires
            0 <= lvl,
            lvl + 1 <= levels,
            0 < repeats,
    ;
    vstd::arithmetic::div_mod::lemma_fundamental_div_mod_converse(
        lvl * repeats + t,
        repeats,
        lvl,
        t,
    );
}

/// The boot message is placed as often as asked for, within the limits of one and the greatest
/// number of copies.
pub proof fn law_copies_are_clamped(p: &LinkParams, copies: int)
    requires
        p.boot_copies_max >= 1,
    ensures
        1 <= link_layout::reserved_copies(p, copies) <= p.boot_copies_max,
        1 <= copies <= p.boot_copies_max ==> link_layout::reserved_copies(p, copies) == copies,
        copies > p.boot_copies_max ==> link_layout::reserved_copies(p, copies)
            == p.boot_copies_max,
{
}

/// Locators have the size that is asked for, as long as it is at least one block and fits into the
/// frame.
pub proof fn law_locator_side_is_clamped(bx_n: int, by_n: int, size: int)
    requires
        1 <= bx_n,
        1 <= by_n,
    ensures
        ({
            let s = link_layout::locator_side(bx_n, by_n, size);
            &&& 1 <= s <= bx_n && s <= by_n
            &&& 1 <= size <= bx_n && size <= by_n ==> s == size
            &&& size > bx_n || size > by_n ==> s == bx_n || s == by_n
        }),
{
}

/// Eight frames carry what one key frame and seven others do, wherever in the transmission a key
/// frame starts them.
pub proof fn law_eight_frames_carry(l: LinkLayouts, q: nat)
    ensures
        l.capacity_before(8 * q + 8) == l.capacity_before(8 * q) + l.key_bits + 7
            * l.tracking_bits,
{
    reveal_with_fuel(LinkLayouts::capacity_before, 9);
    let n = 8 * q;
    assert(n % 8 == 0 && (n + 1) % 8 == 1 && (n + 2) % 8 == 2 && (n + 3) % 8 == 3 && (n + 4) % 8
        == 4 && (n + 5) % 8 == 5 && (n + 6) % 8 == 6 && (n + 7) % 8 == 7);
}

/// More frames carry more, as long as a frame carries anything.
pub proof fn law_more_frames_carry_more(l: LinkLayouts, m: nat, n: nat)
    requires
        m < n,
        l.key_bits > 0,
        l.tracking_bits > 0,
    ensures
        l.capacity_before(m) < l.capacity_before(n),
    decreases n,
{
    if m < n - 1 {
        law_more_frames_carry_more(l, m, (n - 1) as nat);
    }
}

/// The locator that is looked for where no profile is known is as large as the largest of any, and
/// the strip that is kept free is as long as the longest.
pub proof fn law_largest_of_all_profiles(profiles: Seq<LinkProfile>, n: nat, i: int)
    requires
        0 <= i < n <= profiles.len(),
    ensures
        link_decoder::largest_locator(profiles, n) >= profiles[i].locator_size,
        exists|j: int|
            0 <= j < n && link_decoder::largest_locator(profiles, n) == (
            #[trigger] profiles[j]).locator_size,
        link_decoder::longest_strip(profiles, n) >= profiles[i].pam_m * profiles[i].cal_repeats,
        exists|j: int|
            0 <= j < n && link_decoder::longest_strip(profiles, n) == link_plan::cal_blocks(
                #[trigger] &profiles[j],
            ),
    decreases n,
{
    let m = (n - 1) as nat;
    assert(link_plan::cal_blocks(&profiles[n - 1]) >= 0) by (nonlinear_arith);
    assert(profiles[n - 1] == profiles[n - 1]);
    if n == 1 {
        assert(link_decoder::largest_locator(profiles, 0) == 0);
        assert(link_decoder::longest_strip(profiles, 0) == 0);
    } else {
        law_largest_of_all_profiles(profiles, m, if i < m {
            i
        } else {
            0
        });
        let a = choose|j: int|
            0 <= j < m && link_decoder::largest_locator(profiles, m) == (
            #[trigger] profiles[j]).locator_size;
        let b = choose|j: int|
            0 <= j < m && link_decoder::longest_strip(profiles, m) == link_plan::cal_blocks(
                #[trigger] &profiles[j],
            );
        assert(profiles[a] == profiles[a] && profiles[b] == profiles[b]);
    }
}

/// The boot message is written as often as is asked for, allowed and has room, but at least once.
pub proof fn law_copies_that_are_written(p: &LinkParams, copies: int, room: int)
    ensures
        ({
            let n = link_draw::copies_written(p, copies, room);
            &&& n >= 1
            &&& n > 1 ==> n <= copies && n <= p.boot_copies_max && n <= room
            &&& n < copies ==> n >= p.boot_copies_max || n >= room
        }),
{
}

/// How many blocks the header has: those of its rows within the margins without the strip.
proof fn lemma_header_len(bx_n: int, cal: int, rows: nat)
    requires
        2 < bx_n,
        0 <= cal,
    ensures
        link_layout::header_blocks(bx_n, cal, rows).len() == if rows == 0 {
            0
        } else if cal <= bx_n - 2 {
            rows * (bx_n - 2) - cal
        } else {
            (rows - 1) * (bx_n - 2)
        },
    decreases rows,
{
    if rows > 0 {
        lemma_header_len(bx_n, cal, (rows - 1) as nat);
        let w = bx_n - 2;
        assert(rows * w == (rows - 1) * w + w) by (nonlinear_arith);
        assert(rows == 1 ==> (rows - 1) * w == 0) by (nonlinear_arith);
        assert((rows - 1) * w == (rows - 2) * w + w) by (nonlinear_arith);
    }
}

/// The boot message has a layout exactly where the frame has blocks within its margins and below
/// the header, and the header has a block for each bit of each copy beside the strip.
pub proof fn law_boot_layout_exists(
    p: &LinkParams,
    width: int,
    height: int,
    copies: int,
    cal: int,
)
    requires
        0 <= width,
        0 <= height,
        p.header_rows >= 1,
        0 <= cal <= width / 32 - 2,
    ensures
        link_layout::boot_fault(p, width, height, copies, cal) is None <==> {
            &&& width >= 96
            &&& height >= 32 * (3 + p.header_rows)
            &&& p.boot_len * 8 * link_layout::reserved_copies(p, copies) <= p.header_rows * (width
                / 32 - 2) - cal
        },
{
    if width / 32 > 2 {
        lemma_header_len(width / 32, cal, p.header_rows as nat);
    }
}

/// Frames without header have a layout exactly where they have blocks within their margins.
pub proof fn law_tracking_layout_exists(width: int, height: int)
    requires
        0 <= width,
        0 <= height,
    ensures
        link_layout::tracking_fault(width, height) is None <==> width >= 96 && height >= 96,
{
}

/// A request is refused unless the profile exists, the sizes are whole blocks and can be written in
/// 16 bits, as can the frame rate, and there is a layout.
pub proof fn law_requests_that_are_granted(
    p: &LinkParams,
    profiles: Seq<LinkProfile>,
    profile: u8,
    width: int,
    height: int,
    fps: u32,
)
    requires
        0 <= width,
        0 <= height,
    ensures
        link_plan::request_fault(p, profiles, profile, width, height, fps) is None <==> {
            &&& profile < profiles.len()
            &&& width % 32 == 0 && height % 32 == 0
            &&& width < 0x1_0000 && height < 0x1_0000 && fps < 0x1_0000
            &&& link_plan::layouts_fault(p, &profiles[profile as int], width, height) is None
        },
{
}

/// The capacity of a frame is that of its payload blocks, and every block within the margins, below
/// the header where there is one, is a payload block.
pub proof fn law_capacity_is_that_of_the_payload_blocks(
    p: &LinkParams,
    pcfg: &LinkProfile,
    l: LinkLayouts,
    width: int,
    height: int,
    b: (usize, usize),
)
    requires
        l.are_for(p, pcfg, width, height),
        0 <= width <= usize::MAX,
        0 <= height <= usize::MAX,
        (width / 32) * (height / 32) <= usize::MAX,
    ensures
        l.key_bits == link_layout::capacity_bits(&l.key, pcfg),
        l.tracking_bits == link_layout::capacity_bits(&l.tracking, pcfg),
        l.key.payload_pos@.contains(b) <==> is_between(
            b,
            1,
            1 + p.header_rows,
            width / 32 - 2,
            height / 32 - 2,
        ),
        l.tracking.payload_pos@.contains(b) <==> is_between(
            b,
            1,
            1,
            width / 32 - 2,
            height / 32 - 2,
        ),
{
    let (bx_n, by_n) = (width / 32, height / 32);
    let rows = p.header_rows as int;
    assert((bx_n - 2) * (by_n - 2 - rows) <= bx_n * by_n && (bx_n - 2) * (by_n - 2) <= bx_n * by_n)
        by (nonlinear_arith)
        requires
            2 <= bx_n,
            2 + rows <= by_n,
            0 <= rows,
    ;
    payload_tiles::law_payload_covers_area(
        l.key.bx_n,
        l.key.payload_by_start,
        l.key.payload_by_end,
    );
    payload_tiles::law_payload_covers_area(l.tracking.bx_n, 1, l.tracking.payload_by_end);
    let a = payload_tiles::payload_area(bx_n, 1 + rows, by_n - 1);
    let c = payload_tiles::payload_area(bx_n, 1, by_n - 1);
    assert(l.key.payload_pos@.contains(b) <==> payload_tiles::in_area(a, b));
    assert(l.tracking.payload_pos@.contains(b) <==> payload_tiles::in_area(c, b));
}

/// The number of a tile that is told for a block of the payload is that of the tile it is sent with.
pub proof fn law_told_tile_is_the_blocks(bx_n: int, start: int, end: int, b: (usize, usize))
    requires
        2 < bx_n <= usize::MAX,
        0 <= start,
        start + 8 <= end <= usize::MAX,
        payload_tiles::in_area(payload_tiles::payload_area(bx_n, start, end), b),
        payload_tiles::tile_of(payload_tiles::payload_area(bx_n, start, end), b) <= usize::MAX,
    ensures
        link_layout::tile_index_of(bx_n, start, b.0 as int, b.1 as int) == payload_tiles::tile_of(
            payload_tiles::payload_area(bx_n, start, end),
            b,
        ),
{
    let a = payload_tiles::payload_area(bx_n, start, end);
    let tw = util::lesser(8, bx_n - 2);
    let cols = payload_tiles::tile_cols(a);
    let (x, y) = ((b.0 - 1) / tw, (b.1 - start) / 8);
    util::law_groups_suffice(a.w, tw as nat);
    vstd::arithmetic::div_mod::lemma_fundamental_div_mod(b.0 - 1, tw);
    vstd::arithmetic::div_mod::lemma_mod_bound(b.0 - 1, tw);
    assert(x <= cols - 1) by (nonlinear_arith)
        requires
            b.0 - 1 == tw * x + (b.0 - 1) % tw,
            0 <= (b.0 - 1) % tw,
            b.0 - 1 < a.w,
            a.w <= cols * tw,
            0 < tw,
    ;
    assert(0 <= x) by (nonlinear_arith)
        requires
            b.0 - 1 == tw * x + (b.0 - 1) % tw,
            (b.0 - 1) % tw < tw,
            0 <= b.0 - 1,
            0 < tw,
    ;
}

/// The number of a frame is what its boot message says, without one the number that is expected, and
/// at the start the count.
pub proof fn law_number_of_a_frame(profile: u8, said: u32, expected: u32, count: u32, e: Option<u32>)
    requires
        count <= usize::MAX,
    ensures
        link_decoder::frame_number(Some((profile, said)), e, count as usize) == said,
        link_decoder::frame_number(None, Some(expected), count as usize) == expected,
        link_decoder::frame_number(None, None, count as usize) == count,
{
}

/// A file can be sent, given frames enough, exactly where it is neither empty nor too long and the
/// code carries whole bytes, as long as its codewords can be counted.
pub proof fn law_files_that_can_be_sent(p: &LinkParams, code: &LdpcCode, file_len: u64)
    requires
        file_len + 24 <= usize::MAX,
        code.k > 0 ==> util::ceil_div((file_len + 24) as nat, (code.k / 8) as nat) * code.n
            <= usize::MAX,
    ensures
        link_plan::file_fault(p, code, file_len) is None <==> 1 <= file_len <= p.max_file_len
            && code.k >= 8 && code.k % 8 == 0,
{
    envelope::law_codeword_is_filled(code.k);
}

/// A request for frames of whole blocks, a profile that exists and a share of repetition from 0 to 2
/// is granted, and no other.
pub proof fn law_encoding_requests_that_are_granted(
    width: usize,
    height: usize,
    profile_id: u8,
    max_overhead: u32,
)
    ensures
        encoder::request_fault(width, height, profile_id, max_overhead) is None <==> width % 32 == 0
            && height % 32 == 0 && profile_id <= 2 && (max_overhead <= 0x4000_0000 || max_overhead
            == 0x8000_0000),
{
}

/// A frame has a layout exactly where it is whole blocks, more than four either way, a slot fits
/// into a block, and there are blocks enough for the slots.
pub proof fn law_layouts_that_exist(width: usize, height: usize, profile: ProfileCfg)
    ensures
        phy_layout::layout_fault(width, height, profile) is None <==> {
            &&& width % 32 == 0 && height % 32 == 0
            &&& width >= 160 && height >= 160
            &&& profile.coded_bits_per_slot <= 32 * 32
            &&& phy_layout::slots(
                width as int / 32,
                height as int / 32,
                profile.slots_per_frame as int,
            ).len() >= profile.slots_per_frame
        },
{
}

} // verus!
