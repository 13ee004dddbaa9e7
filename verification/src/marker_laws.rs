//! What holds of the locators of a drawn key frame.
use crate::boot;
use crate::link_draw;
use crate::link_encoder;
use crate::link_frame;
use crate::link_frame::Paint;
use crate::link_layout;
use crate::link_laws;
use crate::link_plan::LinkLayouts;
use crate::link_profile::{LinkParams, LinkProfile};
use vstd::prelude::*;

verus! {

/// A block belongs to the locator of a corner: 0 top left, 1 top right, 2 bottom left, 3 bottom
/// right.
pub open spec fn in_locator(bx_n: int, by_n: int, side: int, corner: int, bx: int, by: int) -> bool {
    &&& if corner == 0 || corner == 2 {
        0 <= bx < side
    } else {
        bx_n - side <= bx < bx_n
    }
    &&& if corner == 0 || corner == 1 {
        0 <= by < side
    } else {
        by_n - side <= by < by_n
    }
}

/// Neither the boot message nor the calibration strip nor the payload is drawn on a block.
pub open spec fn is_bare(p: &LinkParams, pcfg: &LinkProfile, l: LinkLayouts, b: (usize, usize)) -> bool {
    let copies = link_draw::copies_written(
        p,
        pcfg.boot_copies as int,
        l.boot.copies@.len() as int,
    ) as nat;
    let boot = link_layout::boot_blocks(l.boot.copies@, copies);
    &&& forall|i: int| 0 <= i < boot.len() ==> #[trigger] boot[i] != b
    &&& forall|i: int|
        0 <= i < l.key.cal_pos@.len() ==> (#[trigger] l.key.cal_pos@[i]).0 != b.0
            || l.key.cal_pos@[i].1 != b.1
    &&& forall|i: int| 0 <= i < l.key.payload_pos@.len() ==> #[trigger] l.key.payload_pos@[i] != b
}

spec fn corner_x(bx_n: int, side: int, corner: int) -> nat {
    if corner == 0 || corner == 2 {
        0
    } else {
        (bx_n - side) as nat
    }
}

spec fn corner_y(by_n: int, side: int, corner: int) -> nat {
    if corner == 0 || corner == 1 {
        0
    } else {
        (by_n - side) as nat
    }
}

proof fn lemma_square(side: int, i: int)
    requires
        0 <= i < side * side,
        1 <= side,
    ensures
        0 <= i / side < side,
        0 <= i % side < side,
        i == side * (i / side) + i % side,
{
    vstd::arithmetic::div_mod::lemma_fundamental_div_mod(i, side);
    vstd::arithmetic::div_mod::lemma_mod_bound(i, side);
    assert(0 <= i / side < side) by (nonlinear_arith)
        requires
            i == side * (i / side) + i % side,
            0 <= i % side < side,
            0 <= i < side * side,
    ;
}

/// The paint at place `i` of the locator of a corner.
proof fn lemma_locator_paint(p: &LinkParams, bx_n: int, by_n: int, side: int, corner: int, i: int)
    requires
        0 <= corner < 4,
        1 <= side,
        0 <= i < side * side,
    ensures
        link_draw::locator_paints(p, bx_n, by_n, side as nat).len() == 4 * (side * side),
        link_draw::locator_paints(p, bx_n, by_n, side as nat)[corner * (side * side) + i]
            == link_draw::marker_paint(
            p,
            (corner_x(bx_n, side, corner) + i % side) as nat,
            (corner_y(by_n, side, corner) + i / side) as nat,
            corner == 1 || corner == 3,
            corner == 2 || corner == 3,
            corner == 1 || corner == 2,
        ),
{
    let q = side * side;
    let (x, y) = ((bx_n - side) as nat, (by_n - side) as nat);
    let all = link_draw::locator_paints(p, bx_n, by_n, side as nat);
    let a = link_draw::locator_paints_at(p, 0, 0, side as nat, false, false, false);
    let b = link_draw::locator_paints_at(p, x, 0, side as nat, true, false, true);
    let c = link_draw::locator_paints_at(p, 0, y, side as nat, false, true, true);
    let d = link_draw::locator_paints_at(p, x, y, side as nat, true, true, false);
    assert(a.len() == q && b.len() == q && c.len() == q && d.len() == q);
    lemma_square(side, i);
    if corner == 0 {
        assert(all[i] == a[i]);
    } else if corner == 1 {
        assert(all[q + i] == b[i]);
    } else if corner == 2 {
        assert(all[2 * q + i] == c[i]);
    } else {
        assert(all[3 * q + i] == d[i]);
    }
}

/// On a drawn key frame every block of a locator on which nothing is drawn later shows the
/// locator's colour: its luma tells left from right, its first chroma top from bottom, and its
/// second one diagonal from the other.
pub proof fn law_locator_is_shown(
    p: &LinkParams,
    pcfg: &LinkProfile,
    l: LinkLayouts,
    width: int,
    height: int,
    profile: u8,
    frame_idx: u32,
    bits: Seq<u8>,
    corner: int,
    b: (usize, usize),
)
    requires
        link_laws::can_send(p, pcfg, l, width, height),
        frame_idx % 8 == 0,
        0 <= corner < 4,
        in_locator(
            l.key.bx_n as int,
            l.key.by_n as int,
            link_layout::locator_side(
                l.key.bx_n as int,
                l.key.by_n as int,
                pcfg.locator_size as int,
            ),
            corner,
            b.0 as int,
            b.1 as int,
        ),
        forall|d: int|
            corner < d < 4 ==> !#[trigger] in_locator(
                l.key.bx_n as int,
                l.key.by_n as int,
                link_layout::locator_side(
                    l.key.bx_n as int,
                    l.key.by_n as int,
                    pcfg.locator_size as int,
                ),
                d,
                b.0 as int,
                b.1 as int,
            ),
        is_bare(p, pcfg, l, b),
    ensures
        ({
            let f = link_laws::drawn_frame(
                p,
                pcfg,
                l,
                width,
                height,
                profile,
                frame_idx,
                bits,
            );
            &&& corner == 0 ==> link_laws::shows_colour(f, width, b, p.loc_y0, p.loc_u0, p.loc_v0)
            &&& corner == 1 ==> link_laws::shows_colour(f, width, b, p.loc_y1, p.loc_u0, p.loc_v1)
            &&& corner == 2 ==> link_laws::shows_colour(f, width, b, p.loc_y0, p.loc_u1, p.loc_v1)
            &&& corner == 3 ==> link_laws::shows_colour(f, width, b, p.loc_y1, p.loc_u1, p.loc_v0)
        }),
{
    let (bx_n, by_n) = (l.key.bx_n as int, l.key.by_n as int);
    let side = link_layout::locator_side(bx_n, by_n, pcfg.locator_size as int);
    let copies = link_draw::copies_written(
        p,
        pcfg.boot_copies as int,
        l.boot.copies@.len() as int,
    ) as nat;
    let record = boot::boot_record(p, profile, frame_idx);
    let list = link_encoder::frame_paints(p, pcfg, l, profile, frame_idx, bits);
    let a = link_draw::locator_paints(p, bx_n, by_n, side as nat);
    let m = link_draw::boot_paints(p, record, l.boot.copies@, copies);
    let s = link_draw::cal_paints(pcfg, l.key.cal_pos@);
    let payload = link_draw::payload_paints(
        pcfg,
        l.key.payload_pos@,
        bits,
        link_draw::frame_order(&l.key, pcfg, frame_idx),
    );
    assert(list == a + m + s + payload);
    link_encoder::lemma_layouts_fit(p, pcfg, l, width, height);
    assert(1 <= side <= bx_n && side <= by_n);
    link_laws::lemma_boot_paints(p, record, l.boot.copies@, copies);
    let blocks = link_layout::boot_blocks(l.boot.copies@, copies);
    let q = side * side;
    let (lx, ly) = (b.0 - corner_x(bx_n, side, corner), b.1 - corner_y(by_n, side, corner));
    let i0 = ly * side + lx;
    assert(0 <= i0 < q && 0 <= ly * side) by (nonlinear_arith)
        requires
            0 <= lx < side,
            0 <= ly < side,
            i0 == ly * side + lx,
            q == side * side,
    ;
    vstd::arithmetic::div_mod::lemma_fundamental_div_mod_converse(i0, side, ly, lx);
    lemma_locator_paint(p, bx_n, by_n, side, corner, i0);
    let at = corner * q + i0;
    assert(0 <= corner * q <= 3 * q && corner * q + q <= 4 * q) by (nonlinear_arith)
        requires
            0 <= corner <= 3,
            q >= 0,
    ;
    assert(list[at] == a[at]);
    assert forall|j: int| at < j < list.len() implies (#[trigger] list[j]).bx != list[at].bx
        || list[j].by != list[at].by by {
        if j < a.len() {
            assert(list[j] == a[j]);
            lemma_later_locator_paint(p, bx_n, by_n, side, corner, i0, b, j);
        } else if j < a.len() + m.len() {
            let x = j - a.len();
            assert(list[j] == m[x]);
            assert(m[x].bx == blocks[x].0 && m[x].by == blocks[x].1);
            assert(blocks[x] != b);
        } else if j < a.len() + m.len() + s.len() {
            let x = j - a.len() - m.len();
            assert(list[j] == s[x]);
            assert(l.key.cal_pos@[x].0 != b.0 || l.key.cal_pos@[x].1 != b.1);
        } else {
            let x = j - a.len() - m.len() - s.len();
            assert(list[j] == payload[x]);
            assert(l.key.payload_pos@[x] != b);
        }
    }
    link_laws::lemma_last_paint_in_frame(
        p,
        pcfg,
        l,
        width,
        height,
        profile,
        frame_idx,
        bits,
        at,
        b,
    );
}

/// No later paint of the locators goes to a block of one locator that no later one covers.
proof fn lemma_later_locator_paint(
    p: &LinkParams,
    bx_n: int,
    by_n: int,
    side: int,
    corner: int,
    i0: int,
    b: (usize, usize),
    j: int,
)
    requires
        0 <= corner < 4,
        1 <= side <= bx_n,
        side <= by_n,
        0 <= i0 < side * side,
        b.0 == corner_x(bx_n, side, corner) + i0 % side,
        b.1 == corner_y(by_n, side, corner) + i0 / side,
        forall|d: int|
            corner < d < 4 ==> !#[trigger] in_locator(
                bx_n,
                by_n,
                side,
                d,
                b.0 as int,
                b.1 as int,
            ),
        corner * (side * side) + i0 < j < 4 * (side * side),
    ensures
        ({
            let paint = link_draw::locator_paints(p, bx_n, by_n, side as nat)[j];
            paint.bx != b.0 || paint.by != b.1
        }),
{
    let q = side * side;
    assert(0 < q) by (nonlinear_arith)
        requires
            1 <= side,
            q == side * side,
    ;
    let d: int = if j < q {
        0
    } else if j < 2 * q {
        1
    } else if j < 3 * q {
        2
    } else {
        3
    };
    assert(0 <= corner * q) by (nonlinear_arith)
        requires
            0 <= corner,
            0 < q,
    ;
    let i = j - d * q;
    assert(0 * q == 0 && 1 * q == q && d * q <= j < d * q + q) by (nonlinear_arith)
        requires
            (d == 0 && 0 <= j < q) || (d == 1 && q <= j < 2 * q) || (d == 2 && 2 * q <= j < 3 * q)
                || (d == 3 && 3 * q <= j < 4 * q),
    ;
    assert(d >= corner) by (nonlinear_arith)
        requires
            corner * q + i0 < j,
            j < d * q + q,
            0 <= i0,
            q > 0,
    ;
    lemma_locator_paint(p, bx_n, by_n, side, d, i);
    lemma_square(side, i);
    lemma_square(side, i0);
    if d == corner {
        if i / side == i0 / side && i % side == i0 % side {
            assert(i == i0);
        }
    } else {
        assert(!in_locator(bx_n, by_n, side, d, b.0 as int, b.1 as int));
    }
}

/// Where the two lumas of the locators differ, a locator on the left cannot be taken for one on
/// the right.
pub proof fn law_left_and_right_locators_differ(
    p: &LinkParams,
    f: link_frame::Planes,
    width: int,
    a: (usize, usize),
    b: (usize, usize),
)
    requires
        p.loc_y0 != p.loc_y1,
        link_laws::shows_colour(f, width, a, p.loc_y0, p.loc_u0, p.loc_v0)
            || link_laws::shows_colour(f, width, a, p.loc_y0, p.loc_u1, p.loc_v1),
        link_laws::shows_colour(f, width, b, p.loc_y1, p.loc_u0, p.loc_v1)
            || link_laws::shows_colour(f, width, b, p.loc_y1, p.loc_u1, p.loc_v0),
    ensures
        f.y[link_frame::luma_pixel(width, a.0 as int, a.1 as int, 0, 0)]
            != f.y[link_frame::luma_pixel(width, b.0 as int, b.1 as int, 0, 0)],
{
}

proof fn lemma_untouched(
    f: link_frame::Planes,
    width: int,
    height: int,
    list: Seq<Paint>,
    n: nat,
    b: (usize, usize),
    y: u8,
    u: u8,
    v: u8,
)
    requires
        f.y.len() == width * height,
        f.u.len() == (width / 2) * (height / 2),
        f.v.len() == (width / 2) * (height / 2),
        link_draw::paints_fit(list, width, height),
        link_frame::fits(width, height, b.0 as int, b.1 as int),
        n <= list.len(),
        forall|j: int| 0 <= j < n ==> (#[trigger] list[j]).bx != b.0 || list[j].by != b.1,
        link_laws::shows_colour(f, width, b, y, u, v),
    ensures
        ({
            let g = link_frame::painted(f, width, height, list, n);
            &&& g.y.len() == f.y.len() && g.u.len() == f.u.len() && g.v.len() == f.v.len()
            &&& link_laws::shows_colour(g, width, b, y, u, v)
        }),
    decreases n,
{
    if n > 0 {
        let m = (n - 1) as nat;
        lemma_untouched(f, width, height, list, m, b, y, u, v);
        let g = link_frame::painted(f, width, height, list, m);
        let p = list[m as int];
        let (bx, by) = (b.0 as int, b.1 as int);
        let (cx, cy) = (p.bx as int, p.by as int);
        link_frame::law_paint_is_local(g, width, height, p, bx, by, y);
        link_frame::law_chroma_paint_is_local(g.u, width, height, cx, cy, p.u, bx, by, u);
        link_frame::law_chroma_paint_is_local(g.v, width, height, cx, cy, p.v, bx, by, v);
    }
}

/// A block on which nothing is drawn is grey: on a key frame one outside the locators without boot
/// message, calibration strip and payload, and on any other frame one without payload.
pub proof fn law_free_block_is_grey(
    p: &LinkParams,
    pcfg: &LinkProfile,
    l: LinkLayouts,
    width: int,
    height: int,
    profile: u8,
    frame_idx: u32,
    bits: Seq<u8>,
    b: (usize, usize),
)
    requires
        link_laws::can_send(p, pcfg, l, width, height),
        link_frame::fits(width, height, b.0 as int, b.1 as int),
        frame_idx % 8 == 0 ==> is_bare(p, pcfg, l, b) && forall|c: int|
            0 <= c < 4 ==> !#[trigger] in_locator(
                l.key.bx_n as int,
                l.key.by_n as int,
                link_layout::locator_side(
                    l.key.bx_n as int,
                    l.key.by_n as int,
                    pcfg.locator_size as int,
                ),
                c,
                b.0 as int,
                b.1 as int,
            ),
        frame_idx % 8 != 0 ==> !l.tracking.payload_pos@.contains(b),
    ensures
        link_laws::shows_colour(
            link_laws::drawn_frame(p, pcfg, l, width, height, profile, frame_idx, bits),
            width,
            b,
            128,
            128,
            128,
        ),
{
    let f = link_encoder::blank(width, height);
    let list = link_encoder::frame_paints(p, pcfg, l, profile, frame_idx, bits);
    link_laws::lemma_frame_paints_fit(p, pcfg, l, width, height, profile, frame_idx, bits);
    assert(0 <= (width / 2) * (height / 2)) by (nonlinear_arith)
        requires
            0 <= width,
            0 <= height,
    ;
    link_frame::lemma_uniform_blocks(f, width, height, b.0 as int, b.1 as int, 128);
    assert forall|j: int| 0 <= j < list.len() implies (#[trigger] list[j]).bx != b.0 || list[j].by
        != b.1 by {
        if frame_idx % 8 == 0 {
            lemma_no_paint_on_free_block(p, pcfg, l, width, height, profile, frame_idx, bits, b, j);
        } else {
            assert(l.tracking.payload_pos@.contains(l.tracking.payload_pos@[j]));
        }
    }
    lemma_untouched(f, width, height, list, list.len(), b, 128, 128, 128);
}

proof fn lemma_no_paint_on_free_block(
    p: &LinkParams,
    pcfg: &LinkProfile,
    l: LinkLayouts,
    width: int,
    height: int,
    profile: u8,
    frame_idx: u32,
    bits: Seq<u8>,
    b: (usize, usize),
    j: int,
)
    requires
        link_laws::can_send(p, pcfg, l, width, height),
        frame_idx % 8 == 0,
        is_bare(p, pcfg, l, b),
        forall|c: int|
            0 <= c < 4 ==> !#[trigger] in_locator(
                l.key.bx_n as int,
                l.key.by_n as int,
                link_layout::locator_side(
                    l.key.bx_n as int,
                    l.key.by_n as int,
                    pcfg.locator_size as int,
                ),
                c,
                b.0 as int,
                b.1 as int,
            ),
        0 <= j < link_encoder::frame_paints(p, pcfg, l, profile, frame_idx, bits).len(),
    ensures
        ({
            let paint = link_encoder::frame_paints(p, pcfg, l, profile, frame_idx, bits)[j];
            paint.bx != b.0 || paint.by != b.1
        }),
{
    let (bx_n, by_n) = (l.key.bx_n as int, l.key.by_n as int);
    let side = link_layout::locator_side(bx_n, by_n, pcfg.locator_size as int);
    let copies = link_draw::copies_written(
        p,
        pcfg.boot_copies as int,
        l.boot.copies@.len() as int,
    ) as nat;
    let record = boot::boot_record(p, profile, frame_idx);
    let list = link_encoder::frame_paints(p, pcfg, l, profile, frame_idx, bits);
    let a = link_draw::locator_paints(p, bx_n, by_n, side as nat);
    let m = link_draw::boot_paints(p, record, l.boot.copies@, copies);
    let s = link_draw::cal_paints(pcfg, l.key.cal_pos@);
    let payload = link_draw::payload_paints(
        pcfg,
        l.key.payload_pos@,
        bits,
        link_draw::frame_order(&l.key, pcfg, frame_idx),
    );
    assert(list == a + m + s + payload);
    link_encoder::lemma_layouts_fit(p, pcfg, l, width, height);
    assert(1 <= side <= bx_n && side <= by_n);
    link_laws::lemma_boot_paints(p, record, l.boot.copies@, copies);
    let blocks = link_layout::boot_blocks(l.boot.copies@, copies);
    let q = side * side;
    assert(0 < q) by (nonlinear_arith)
        requires
            1 <= side,
            q == side * side,
    ;
    lemma_locator_paint(p, bx_n, by_n, side, 0, 0);
    if j < a.len() {
        assert(list[j] == a[j]);
        let d: int = if j < q {
            0
        } else if j < 2 * q {
            1
        } else if j < 3 * q {
            2
        } else {
            3
        };
        assert(d * q <= j < d * q + q) by (nonlinear_arith)
            requires
                (d == 0 && 0 <= j < q) || (d == 1 && q <= j < 2 * q) || (d == 2 && 2 * q <= j < 3
                    * q) || (d == 3 && 3 * q <= j < 4 * q),
        ;
        lemma_locator_paint(p, bx_n, by_n, side, d, j - d * q);
        lemma_square(side, j - d * q);
        assert(!in_locator(bx_n, by_n, side, d, b.0 as int, b.1 as int));
    } else if j < a.len() + m.len() {
        let x = j - a.len();
        assert(list[j] == m[x]);
        assert(m[x].bx == blocks[x].0 && m[x].by == blocks[x].1);
        assert(blocks[x] != b);
    } else if j < a.len() + m.len() + s.len() {
        let x = j - a.len() - m.len();
        assert(list[j] == s[x]);
        assert(l.key.cal_pos@[x].0 != b.0 || l.key.cal_pos@[x].1 != b.1);
    } else {
        let x = j - a.len() - m.len() - s.len();
        assert(list[j] == payload[x]);
        assert(l.key.payload_pos@[x] != b);
    }
}

} // verus!
