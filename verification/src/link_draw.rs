//! Locators, boot messages, calibration strips and payload drawn into frames.
use crate::gray;
use crate::interleave;
use crate::link_frame;
use crate::link_frame::{Paint, Yuv420Frame};
use crate::link_layout;
use crate::link_layout::{BootLayout, ProfileLayout};
use crate::link_profile::{LinkParams, LinkProfile};
use crate::bitstream;
use crate::util;
use vstd::prelude::*;

verus! {

/// The paint of one of the two colours of locators and boot bits, chosen plane by plane.
pub open spec fn marker_paint(p: &LinkParams, bx: nat, by: nat, y: bool, u: bool, v: bool) -> Paint {
    Paint {
        bx,
        by,
        y: if y {
            p.loc_y1
        } else {
            p.loc_y0
        },
        u: if u {
            p.loc_u1
        } else {
            p.loc_u0
        },
        v: if v {
            p.loc_v1
        } else {
            p.loc_v0
        },
    }
}

/// The paints of one locator, row by row.
pub open spec fn locator_paints_at(
    p: &LinkParams,
    x0: nat,
    y0: nat,
    side: nat,
    y: bool,
    u: bool,
    v: bool,
) -> Seq<Paint> {
    Seq::new(
        side * side,
        |i: int|
            marker_paint(
                p,
                (x0 + i % (side as int)) as nat,
                (y0 + i / (side as int)) as nat,
                y,
                u,
                v,
            ),
    )
}

/// The paints of the four locators, each of another combination of colours.
pub open spec fn locator_paints(p: &LinkParams, bx_n: int, by_n: int, side: nat) -> Seq<Paint> {
    let (x, y) = ((bx_n - side) as nat, (by_n - side) as nat);
    locator_paints_at(p, 0, 0, side, false, false, false) + locator_paints_at(
        p,
        x,
        0,
        side,
        true,
        false,
        true,
    ) + locator_paints_at(p, 0, y, side, false, true, true) + locator_paints_at(
        p,
        x,
        y,
        side,
        true,
        true,
        false,
    )
}

/// Every block that is painted lies in the frame.
pub open spec fn paints_fit(list: Seq<Paint>, width: int, height: int) -> bool {
    forall|i: int|
        0 <= i < list.len() ==> link_frame::fits(
            width,
            height,
            (#[trigger] list[i]).bx as int,
            list[i].by as int,
        )
}

pub proof fn lemma_painted_concat(
    f: link_frame::Planes,
    width: int,
    height: int,
    a: Seq<Paint>,
    b: Seq<Paint>,
    n: nat,
)
    requires
        n <= b.len(),
    ensures
        link_frame::painted(f, width, height, a + b, a.len() + n) == link_frame::painted(
            link_frame::painted(f, width, height, a, a.len()),
            width,
            height,
            b,
            n,
        ),
    decreases n,
{
    if n == 0 {
        lemma_painted_prefix(f, width, height, a, b, a.len());
    } else {
        lemma_painted_concat(f, width, height, a, b, (n - 1) as nat);
        assert((a + b)[a.len() + n - 1] == b[n - 1]);
    }
}

proof fn lemma_painted_prefix(
    f: link_frame::Planes,
    width: int,
    height: int,
    a: Seq<Paint>,
    b: Seq<Paint>,
    n: nat,
)
    requires
        n <= a.len(),
    ensures
        link_frame::painted(f, width, height, a + b, n) == link_frame::painted(
            f,
            width,
            height,
            a,
            n,
        ),
    decreases n,
{
    if n > 0 {
        lemma_painted_prefix(f, width, height, a, b, (n - 1) as nat);
        assert((a + b)[n - 1] == a[n - 1]);
    }
}

/// Paints one block with the colours that three bits choose.
fn paint_marker(
    frame: &mut Yuv420Frame,
    p: &LinkParams,
    bx: usize,
    by: usize,
    y: bool,
    u: bool,
    v: bool,
)
    requires
        old(frame).wf(),
        link_frame::fits(old(frame).width as int, old(frame).height as int, bx as int, by as int),
    ensures
        final(frame).wf(),
        final(frame).width == old(frame).width,
        final(frame).height == old(frame).height,
        final(frame).planes() == link_frame::with_paint(
            old(frame).planes(),
            old(frame).width as int,
            old(frame).height as int,
            marker_paint(p, bx as nat, by as nat, y, u, v),
        ),
{
    let yv: u8 = if y {
        p.loc_y1
    } else {
        p.loc_y0
    };
    let uv: u8 = if u {
        p.loc_u1
    } else {
        p.loc_u0
    };
    let vv: u8 = if v {
        p.loc_v1
    } else {
        p.loc_v0
    };
    link_frame::paint_block(frame, bx, by, yv, uv, vv);
}

fn draw_locator(
    frame: &mut Yuv420Frame,
    p: &LinkParams,
    x0: usize,
    y0: usize,
    side: usize,
    y: bool,
    u: bool,
    v: bool,
)
    requires
        old(frame).wf(),
        (x0 + side) * 32 <= old(frame).width,
        (y0 + side) * 32 <= old(frame).height,
        side > 0,
    ensures
        final(frame).wf(),
        final(frame).width == old(frame).width,
        final(frame).height == old(frame).height,
        final(frame).planes() == link_frame::painted(
            old(frame).planes(),
            old(frame).width as int,
            old(frame).height as int,
            locator_paints_at(p, x0 as nat, y0 as nat, side as nat, y, u, v),
            (side * side) as nat,
        ),
{
    let ghost f0 = frame.planes();
    let ghost w = frame.width as int;
    let ghost h = frame.height as int;
    let ghost list = locator_paints_at(p, x0 as nat, y0 as nat, side as nat, y, u, v);
    let mut dy: usize = 0;
    assert(0 * side == 0) by (nonlinear_arith);
    while dy < side
        invariant
            dy <= side,
            side > 0,
            (x0 + side) * 32 <= w,
            (y0 + side) * 32 <= h,
            frame.wf(),
            frame.width == w,
            frame.height == h,
            list == locator_paints_at(p, x0 as nat, y0 as nat, side as nat, y, u, v),
            frame.planes() == link_frame::painted(f0, w, h, list, (dy * side) as nat),
        decreases side - dy,
    {
        assert(0 <= dy * side && dy * side + side <= side * side && (dy + 1) * side == dy * side
            + side) by (nonlinear_arith)
            requires
                0 <= dy,
                dy + 1 <= side,
        ;
        let mut dx: usize = 0;
        while dx < side
            invariant
                dx <= side,
                dy < side,
                (x0 + side) * 32 <= w,
                (y0 + side) * 32 <= h,
                0 <= dy * side,
                dy * side + side <= side * side,
                frame.wf(),
                frame.width == w,
                frame.height == h,
                list == locator_paints_at(p, x0 as nat, y0 as nat, side as nat, y, u, v),
                frame.planes() == link_frame::painted(f0, w, h, list, (dy * side + dx) as nat),
            decreases side - dx,
        {
            paint_marker(frame, p, x0 + dx, y0 + dy, y, u, v);
            proof {
                let i = dy * side + dx;
                vstd::arithmetic::div_mod::lemma_fundamental_div_mod_converse(
                    i,
                    side as int,
                    dy as int,
                    dx as int,
                );
                assert(list[i] == marker_paint(
                    p,
                    (x0 + dx) as nat,
                    (y0 + dy) as nat,
                    y,
                    u,
                    v,
                ));
            }
            dx = dx + 1;
        }
        dy = dy + 1;
    }
}

/// Draws the four locators.
pub fn draw_locators(
    frame: &mut Yuv420Frame,
    p: &LinkParams,
    bx_n: usize,
    by_n: usize,
    locator_size: usize,
)
    requires
        old(frame).wf(),
        1 <= bx_n,
        1 <= by_n,
        bx_n * 32 <= old(frame).width,
        by_n * 32 <= old(frame).height,
    ensures
        final(frame).wf(),
        final(frame).width == old(frame).width,
        final(frame).height == old(frame).height,
        ({
            let side = link_layout::locator_side(bx_n as int, by_n as int, locator_size as int);
            let list = locator_paints(p, bx_n as int, by_n as int, side as nat);
            final(frame).planes() == link_frame::painted(
                old(frame).planes(),
                old(frame).width as int,
                old(frame).height as int,
                list,
                list.len(),
            )
        }),
{
    let most: usize = util::min_usize(bx_n, by_n);
    let side: usize = if locator_size < 1 {
        1
    } else if locator_size > most {
        most
    } else {
        locator_size
    };
    let x: usize = bx_n - side;
    let y: usize = by_n - side;
    let ghost f0 = frame.planes();
    let ghost w = frame.width as int;
    let ghost h = frame.height as int;
    let ghost s = side as nat;
    let ghost a = locator_paints_at(p, 0, 0, s, false, false, false);
    let ghost b = locator_paints_at(p, x as nat, 0, s, true, false, true);
    let ghost c = locator_paints_at(p, 0, y as nat, s, false, true, true);
    let ghost d = locator_paints_at(p, x as nat, y as nat, s, true, true, false);
    draw_locator(frame, p, 0, 0, side, false, false, false);
    draw_locator(frame, p, x, 0, side, true, false, true);
    draw_locator(frame, p, 0, y, side, false, true, true);
    draw_locator(frame, p, x, y, side, true, true, false);
    proof {
        lemma_painted_concat(f0, w, h, a, b, b.len());
        lemma_painted_concat(f0, w, h, a + b, c, c.len());
        lemma_painted_concat(f0, w, h, a + b + c, d, d.len());
    }
}

/// The paints of one copy of a boot record: one bit to a block, zeros behind its end.
pub open spec fn boot_copy_paints(p: &LinkParams, record: Seq<u8>, blocks: Seq<(usize, usize)>) -> Seq<
    Paint,
> {
    let bits = bitstream::unpacked(record);
    Seq::new(
        blocks.len(),
        |i: int|
            {
                let one = i < bits.len() && bits[i] != 0;
                marker_paint(p, blocks[i].0 as nat, blocks[i].1 as nat, one, one, one)
            },
    )
}

/// The paints of the first `n` copies.
pub open spec fn boot_paints(
    p: &LinkParams,
    record: Seq<u8>,
    copies: Seq<Vec<(usize, usize)>>,
    n: nat,
) -> Seq<Paint>
    decreases n,
{
    if n == 0 {
        Seq::empty()
    } else {
        boot_paints(p, record, copies, (n - 1) as nat) + boot_copy_paints(
            p,
            record,
            copies[n - 1]@,
        )
    }
}

/// How many copies are written: as many as are asked for and there is room for, at least one.
pub open spec fn copies_written(p: &LinkParams, copies: int, room: int) -> int {
    let n = util::lesser(util::lesser(copies, p.boot_copies_max as int), room);
    if n < 1 {
        1
    } else {
        n
    }
}

/// All blocks of a layout of the boot message lie in the frame.
pub open spec fn boot_layout_fits(l: BootLayout, width: int, height: int) -> bool {
    forall|c: int, i: int|
        0 <= c < l.copies@.len() && 0 <= i < l.copies@[c]@.len() ==> link_frame::fits(
            width,
            height,
            (#[trigger] l.copies@[c]@[i]).0 as int,
            l.copies@[c]@[i].1 as int,
        )
}

/// Paints a block with the colours of a bit.
pub fn draw_boot_bit(frame: &mut Yuv420Frame, p: &LinkParams, bx: usize, by: usize, bit: u8)
    requires
        old(frame).wf(),
        link_frame::fits(old(frame).width as int, old(frame).height as int, bx as int, by as int),
    ensures
        final(frame).wf(),
        final(frame).width == old(frame).width,
        final(frame).height == old(frame).height,
        final(frame).planes() == link_frame::with_paint(
            old(frame).planes(),
            old(frame).width as int,
            old(frame).height as int,
            marker_paint(p, bx as nat, by as nat, bit != 0, bit != 0, bit != 0),
        ),
{
    let one: bool = bit != 0;
    paint_marker(frame, p, bx, by, one, one, one);
}

/// Writes the copies of a boot record.
pub fn write_boot(
    frame: &mut Yuv420Frame,
    p: &LinkParams,
    layout: &BootLayout,
    record: &[u8],
    copies: usize,
)
    requires
        old(frame).wf(),
        layout.copies@.len() > 0,
        record@.len() * 8 <= usize::MAX,
        boot_layout_fits(*layout, old(frame).width as int, old(frame).height as int),
    ensures
        final(frame).wf(),
        final(frame).width == old(frame).width,
        final(frame).height == old(frame).height,
        ({
            let n = copies_written(p, copies as int, layout.copies@.len() as int) as nat;
            let list = boot_paints(p, record@, layout.copies@, n);
            final(frame).planes() == link_frame::painted(
                old(frame).planes(),
                old(frame).width as int,
                old(frame).height as int,
                list,
                list.len(),
            )
        }),
{
    let bits: Vec<u8> = bitstream::bytes_to_bits_msb(record);
    let asked: usize = util::min_usize(
        util::min_usize(copies, p.boot_copies_max),
        layout.copies.len(),
    );
    let n: usize = if asked < 1 {
        1
    } else {
        asked
    };
    let ghost f0 = frame.planes();
    let ghost w = frame.width as int;
    let ghost h = frame.height as int;
    let mut c: usize = 0;
    while c < n
        invariant
            c <= n <= layout.copies@.len(),
            bits@ == bitstream::unpacked(record@),
            boot_layout_fits(*layout, w, h),
            frame.wf(),
            frame.width == w,
            frame.height == h,
            frame.planes() == link_frame::painted(
                f0,
                w,
                h,
                boot_paints(p, record@, layout.copies@, c as nat),
                boot_paints(p, record@, layout.copies@, c as nat).len(),
            ),
        decreases n - c,
    {
        let ghost blocks = layout.copies@[c as int]@;
        let ghost list = boot_copy_paints(p, record@, blocks);
        let ghost f1 = frame.planes();
        let mut i: usize = 0;
        while i < layout.copies[c].len()
            invariant
                c < layout.copies@.len(),
                blocks == layout.copies@[c as int]@,
                i <= blocks.len(),
                bits@ == bitstream::unpacked(record@),
                boot_layout_fits(*layout, w, h),
                list == boot_copy_paints(p, record@, blocks),
                frame.wf(),
                frame.width == w,
                frame.height == h,
                frame.planes() == link_frame::painted(f1, w, h, list, i as nat),
            decreases blocks.len() - i,
        {
            let (bx, by): (usize, usize) = layout.copies[c][i];
            assert(layout.copies@[c as int]@[i as int] == (bx, by));
            let bit: u8 = if i < bits.len() {
                bits[i]
            } else {
                0
            };
            draw_boot_bit(frame, p, bx, by, bit);
            i = i + 1;
        }
        proof {
            lemma_painted_concat(
                f0,
                w,
                h,
                boot_paints(p, record@, layout.copies@, c as nat),
                list,
                list.len(),
            );
        }
        c = c + 1;
    }
}

/// The paints of a calibration strip: the colours of each level.
pub open spec fn cal_paints(pcfg: &LinkProfile, cal: Seq<(usize, usize, u8)>) -> Seq<Paint> {
    Seq::new(
        cal.len(),
        |i: int|
            Paint {
                bx: cal[i].0 as nat,
                by: cal[i].1 as nat,
                y: pcfg.y_levels@[cal[i].2 as int],
                u: pcfg.u_levels@[cal[i].2 as int],
                v: pcfg.v_levels@[cal[i].2 as int],
            },
    )
}

/// Draws the calibration strip.
pub fn draw_cal_strip(frame: &mut Yuv420Frame, pcfg: &LinkProfile, layout: &ProfileLayout)
    requires
        old(frame).wf(),
        forall|i: int|
            #![trigger layout.cal_pos@[i]]
            0 <= i < layout.cal_pos@.len() ==> {
                let c = layout.cal_pos@[i];
                &&& link_frame::fits(
                    old(frame).width as int,
                    old(frame).height as int,
                    c.0 as int,
                    c.1 as int,
                )
                &&& c.2 < pcfg.y_levels@.len()
                &&& c.2 < pcfg.u_levels@.len()
                &&& c.2 < pcfg.v_levels@.len()
            },
    ensures
        final(frame).wf(),
        final(frame).width == old(frame).width,
        final(frame).height == old(frame).height,
        final(frame).planes() == link_frame::painted(
            old(frame).planes(),
            old(frame).width as int,
            old(frame).height as int,
            cal_paints(pcfg, layout.cal_pos@),
            layout.cal_pos@.len(),
        ),
{
    let ghost f0 = frame.planes();
    let ghost w = frame.width as int;
    let ghost h = frame.height as int;
    let ghost list = cal_paints(pcfg, layout.cal_pos@);
    let mut i: usize = 0;
    while i < layout.cal_pos.len()
        invariant
            i <= layout.cal_pos@.len(),
            list == cal_paints(pcfg, layout.cal_pos@),
            frame.wf(),
            frame.width == w,
            frame.height == h,
            forall|i: int|
                #![trigger layout.cal_pos@[i]]
                0 <= i < layout.cal_pos@.len() ==> {
                    let c = layout.cal_pos@[i];
                    &&& link_frame::fits(w, h, c.0 as int, c.1 as int)
                    &&& c.2 < pcfg.y_levels@.len()
                    &&& c.2 < pcfg.u_levels@.len()
                    &&& c.2 < pcfg.v_levels@.len()
                },
            frame.planes() == link_frame::painted(f0, w, h, list, i as nat),
        decreases layout.cal_pos@.len() - i,
    {
        let (bx, by, lvl): (usize, usize, u8) = layout.cal_pos[i];
        assert(layout.cal_pos@[i as int] == (bx, by, lvl));
        let l: usize = lvl as usize;
        link_frame::paint_block(
            frame,
            bx,
            by,
            pcfg.y_levels[l],
            pcfg.u_levels[l],
            pcfg.v_levels[l],
        );
        i = i + 1;
    }
}

/// Where payload bits come from: straight, or permuted over a frame.
#[derive(Clone, Copy)]
pub struct BitOrder {
    pub permute: bool,
    pub len: usize,
    pub a: usize,
    pub b: usize,
}

/// The place of the bit that is sent as number `i`.
pub open spec fn source_of(o: BitOrder, i: int) -> int {
    if o.permute {
        interleave::permuted(i as usize, o.len, o.a, o.b) as int
    } else {
        i
    }
}

/// The Gray code that bits `first .. first + n` of a frame spell.
pub open spec fn symbol_code(bits: Seq<u8>, o: BitOrder, first: int, n: nat) -> u8
    decreases n,
{
    if n == 0 {
        0
    } else {
        (symbol_code(bits, o, first, (n - 1) as nat) << 1u8) | bitstream::padded_bit(
            bits,
            source_of(o, first + n - 1),
        )
    }
}

/// The level of a Gray code, the highest for codes that there is no level for.
pub open spec fn level_of(code: u8, pam_m: int) -> int {
    util::lesser(gray::ungray(code) as int, pam_m - 1)
}

/// The paints of payload blocks: each carries `n` bits on its luma, and no colour.
pub open spec fn payload_paints(
    pcfg: &LinkProfile,
    pos: Seq<(usize, usize)>,
    bits: Seq<u8>,
    o: BitOrder,
) -> Seq<Paint> {
    let n = pcfg.bits_per_plane as nat;
    Seq::new(
        pos.len(),
        |k: int|
            Paint {
                bx: pos[k].0 as nat,
                by: pos[k].1 as nat,
                y: pcfg.y_levels@[level_of(
                    symbol_code(bits, o, k * n, n),
                    pcfg.pam_m as int,
                )],
                u: 128,
                v: 128,
            },
    )
}

fn read_symbol(bits: &[u8], o: BitOrder, first: usize, n: usize) -> (code: u8)
    requires
        first + n <= usize::MAX,
    ensures
        code == symbol_code(bits@, o, first as int, n as nat),
{
    let mut code: u8 = 0;
    let mut t: usize = 0;
    while t < n
        invariant
            t <= n,
            first + n <= usize::MAX,
            code == symbol_code(bits@, o, first as int, t as nat),
        decreases n - t,
    {
        let i: usize = first + t;
        let at: usize = if o.permute {
            interleave::affine_prp_map(i, o.len, o.a, o.b)
        } else {
            i
        };
        let bit: u8 = if at < bits.len() {
            bits[at] & 1
        } else {
            0
        };
        code = (code << 1u8) | bit;
        t = t + 1;
    }
    code
}

/// A frame can carry payload at these blocks with this profile.
pub open spec fn payload_fits(
    pcfg: &LinkProfile,
    pos: Seq<(usize, usize)>,
    width: int,
    height: int,
) -> bool {
    &&& 0 < pcfg.pam_m <= pcfg.y_levels@.len()
    &&& pos.len() * pcfg.bits_per_plane <= usize::MAX
    &&& forall|k: int|
        0 <= k < pos.len() ==> link_frame::fits(
            width,
            height,
            (#[trigger] pos[k]).0 as int,
            pos[k].1 as int,
        )
}

fn draw_payload(
    frame: &mut Yuv420Frame,
    pcfg: &LinkProfile,
    pos: &[(usize, usize)],
    bits: &[u8],
    o: BitOrder,
)
    requires
        old(frame).wf(),
        payload_fits(pcfg, pos@, old(frame).width as int, old(frame).height as int),
    ensures
        final(frame).wf(),
        final(frame).width == old(frame).width,
        final(frame).height == old(frame).height,
        final(frame).planes() == link_frame::painted(
            old(frame).planes(),
            old(frame).width as int,
            old(frame).height as int,
            payload_paints(pcfg, pos@, bits@, o),
            pos@.len(),
        ),
{
    let n: usize = pcfg.bits_per_plane;
    let ghost f0 = frame.planes();
    let ghost w = frame.width as int;
    let ghost h = frame.height as int;
    let ghost list = payload_paints(pcfg, pos@, bits@, o);
    let mut k: usize = 0;
    while k < pos.len()
        invariant
            k <= pos@.len(),
            n == pcfg.bits_per_plane,
            payload_fits(pcfg, pos@, w, h),
            list == payload_paints(pcfg, pos@, bits@, o),
            frame.wf(),
            frame.width == w,
            frame.height == h,
            frame.planes() == link_frame::painted(f0, w, h, list, k as nat),
        decreases pos@.len() - k,
    {
        assert(0 <= k * n && k * n + n <= pos@.len() * n) by (nonlinear_arith)
            requires
                0 <= k,
                k + 1 <= pos@.len(),
                0 <= n,
        ;
        let code: u8 = read_symbol(bits, o, k * n, n);
        let level: usize = util::min_usize(
            gray::gray_to_binary_u8(code) as usize,
            pcfg.pam_m - 1,
        );
        let (bx, by): (usize, usize) = pos[k];
        assert(pos@[k as int] == (bx, by));
        link_frame::paint_block(frame, bx, by, pcfg.y_levels[level], 128, 128);
        k = k + 1;
    }
}

/// Draws payload bits in their order.
pub fn encode_bits_pam_yuv(
    frame: &mut Yuv420Frame,
    pcfg: &LinkProfile,
    pos: &[(usize, usize)],
    bits: &[u8],
)
    requires
        old(frame).wf(),
        payload_fits(pcfg, pos@, old(frame).width as int, old(frame).height as int),
    ensures
        final(frame).wf(),
        final(frame).width == old(frame).width,
        final(frame).height == old(frame).height,
        final(frame).planes() == link_frame::painted(
            old(frame).planes(),
            old(frame).width as int,
            old(frame).height as int,
            payload_paints(
                pcfg,
                pos@,
                bits@,
                BitOrder { permute: false, len: 0, a: 0, b: 0 },
            ),
            pos@.len(),
        ),
{
    draw_payload(frame, pcfg, pos, bits, BitOrder { permute: false, len: 0, a: 0, b: 0 });
}

/// The order in which a frame carries its bits.
pub open spec fn frame_order(layout: &ProfileLayout, pcfg: &LinkProfile, frame_idx: u32) -> BitOrder {
    let len = link_layout::capacity_bits(layout, pcfg) as usize;
    let (a, b) = interleave::permutation_params(
        len as nat,
        interleave::frame_seed(pcfg.profile, frame_idx),
    );
    BitOrder { permute: true, len, a: a as usize, b: b as usize }
}

/// Draws the payload bits of a frame, spread over it.
pub fn write_payload_interleaved_bits(
    frame: &mut Yuv420Frame,
    layout: &ProfileLayout,
    pcfg: &LinkProfile,
    bits: &[u8],
    frame_idx: u32,
)
    requires
        old(frame).wf(),
        payload_fits(
            pcfg,
            layout.payload_pos@,
            old(frame).width as int,
            old(frame).height as int,
        ),
    ensures
        final(frame).wf(),
        final(frame).width == old(frame).width,
        final(frame).height == old(frame).height,
        final(frame).planes() == link_frame::painted(
            old(frame).planes(),
            old(frame).width as int,
            old(frame).height as int,
            payload_paints(
                pcfg,
                layout.payload_pos@,
                bits@,
                frame_order(layout, pcfg, frame_idx),
            ),
            layout.payload_pos@.len(),
        ),
{
    let len: usize = link_layout::payload_capacity_bits_for_frame(layout, pcfg, frame_idx);
    let (a, b): (usize, usize) = interleave::affine_prp_params(
        len,
        interleave::frame_bit_permute_seed(pcfg.profile, frame_idx),
    );
    draw_payload(
        frame,
        pcfg,
        layout.payload_pos.as_slice(),
        bits,
        BitOrder { permute: true, len, a, b },
    );
}

pub proof fn lemma_painted_len(
    f: link_frame::Planes,
    width: int,
    height: int,
    list: Seq<Paint>,
    n: nat,
)
    ensures
        link_frame::painted(f, width, height, list, n).y.len() == f.y.len(),
    decreases n,
{
    if n > 0 {
        lemma_painted_len(f, width, height, list, (n - 1) as nat);
    }
}

proof fn lemma_code_bound(bits: Seq<u8>, o: BitOrder, first: int, n: nat)
    requires
        n < 8,
    ensures
        symbol_code(bits, o, first, n) < (1u8 << (n as u8)),
    decreases n,
{
    if n == 0 {
        assert(0u8 < (1u8 << 0u8)) by (bit_vector);
    } else {
        lemma_code_bound(bits, o, first, (n - 1) as nat);
        let c = symbol_code(bits, o, first, (n - 1) as nat);
        let at = source_of(o, first + n - 1);
        let b = bitstream::padded_bit(bits, at);
        let m = (n - 1) as u8;
        let x = bits[at];
        assert(x & 1 <= 1) by (bit_vector);
        assert(m < 7 && c < (1u8 << m) && b <= 1 ==> ((c << 1u8) | b) < (1u8 << ((m + 1) as u8)))
            by (bit_vector);
    }
}

/// Where there is a level for every code, the level tells the bits: its Gray code is the code.
pub proof fn law_level_tells_code(bits: Seq<u8>, o: BitOrder, first: int, n: nat, pam_m: int)
    requires
        n < 8,
        pam_m == 1u8 << (n as u8),
    ensures
        ({
            let code = symbol_code(bits, o, first, n);
            let level = level_of(code, pam_m);
            &&& 0 <= level < pam_m
            &&& gray::gray(level as u8) == code
        }),
{
    let code = symbol_code(bits, o, first, n);
    lemma_code_bound(bits, o, first, n);
    gray::law_gray_codes_keep_bits(code, n as u8);
    gray::law_gray_codes_are_inverse(code);
}

/// Codes above the highest level show the highest one, and all others the level whose code they are.
pub proof fn law_codes_without_level_show_the_highest(code: u8, pam_m: int)
    requires
        1 <= pam_m <= 256,
    ensures
        gray::ungray(code) < pam_m ==> gray::gray(level_of(code, pam_m) as u8) == code,
        gray::ungray(code) >= pam_m ==> level_of(code, pam_m) == pam_m - 1,
{
    gray::law_gray_codes_are_inverse(code);
}

} // verus!
