//! Frames of the framed link as planes of pixels that blocks are painted on.
use crate::params::Y_BLOCK;
use crate::util;
use vstd::prelude::*;

verus! {

/// A frame with a luma plane and two chroma planes of half its width and height.
pub struct Yuv420Frame {
    pub y: Vec<u8>,
    pub u: Vec<u8>,
    pub v: Vec<u8>,
    pub width: usize,
    pub height: usize,
}

/// The planes of a frame.
pub struct Planes {
    pub y: Seq<u8>,
    pub u: Seq<u8>,
    pub v: Seq<u8>,
}

/// A block of luma with the chroma that belongs to it.
pub struct Paint {
    pub bx: nat,
    pub by: nat,
    pub y: u8,
    pub u: u8,
    pub v: u8,
}

/// Place `k` of a plane is in the rectangle of `w` by `h` pixels at `(x0, y0)`.
pub open spec fn in_rect(k: int, width: int, x0: int, y0: int, w: int, h: int) -> bool {
    exists|r: int| 0 <= r < h && #[trigger] row_start(width, x0, y0 + r) <= k < row_start(width, x0, y0 + r) + w
}

/// Where row `row` of a rectangle starts.
pub open spec fn row_start(width: int, x0: int, row: int) -> int {
    row * width + x0
}

/// A plane with a rectangle filled with one value.
pub open spec fn with_rect(
    plane: Seq<u8>,
    width: int,
    x0: int,
    y0: int,
    w: int,
    h: int,
    val: u8,
) -> Seq<u8> {
    Seq::new(
        plane.len(),
        |k: int|
            if in_rect(k, width, x0, y0, w, h) {
                val
            } else {
                plane[k]
            },
    )
}

/// A luma plane with a block filled.
pub open spec fn with_luma_block(
    plane: Seq<u8>,
    width: int,
    block: int,
    bx: int,
    by: int,
    val: u8,
) -> Seq<u8> {
    with_rect(plane, width, bx * block, by * block, block, block, val)
}

/// A chroma plane with the part of a luma block filled; a part that does not fit is left out.
pub open spec fn with_chroma_block(
    plane: Seq<u8>,
    width: int,
    height: int,
    bx: int,
    by: int,
    block: int,
    val: u8,
) -> Seq<u8> {
    let (x0, y0, c) = (bx * block / 2, by * block / 2, block / 2);
    if x0 + c > width / 2 || y0 + c > height / 2 {
        plane
    } else {
        with_rect(plane, width / 2, x0, y0, c, c, val)
    }
}

/// The planes with one block painted.
pub open spec fn with_paint(f: Planes, width: int, height: int, p: Paint) -> Planes {
    Planes {
        y: with_luma_block(f.y, width, 32, p.bx as int, p.by as int, p.y),
        u: with_chroma_block(f.u, width, height, p.bx as int, p.by as int, 32, p.u),
        v: with_chroma_block(f.v, width, height, p.bx as int, p.by as int, 32, p.v),
    }
}

/// The planes with the first `n` blocks of a list painted, in their order.
pub open spec fn painted(f: Planes, width: int, height: int, list: Seq<Paint>, n: nat) -> Planes
    decreases n,
{
    if n == 0 {
        f
    } else {
        with_paint(painted(f, width, height, list, (n - 1) as nat), width, height, list[n - 1])
    }
}

/// A block lies in the frame.
pub open spec fn fits(width: int, height: int, bx: int, by: int) -> bool {
    (bx + 1) * 32 <= width && (by + 1) * 32 <= height
}

impl Yuv420Frame {
    pub open spec fn planes(&self) -> Planes {
        Planes { y: self.y@, u: self.u@, v: self.v@ }
    }

    pub open spec fn wf(&self) -> bool {
        &&& self.y@.len() == self.width * self.height
        &&& self.u@.len() == (self.width / 2) * (self.height / 2)
        &&& self.v@.len() == (self.width / 2) * (self.height / 2)
    }

    /// A black frame.
    pub fn new(width: usize, height: usize) -> (f: Self)
        requires
            width * height <= usize::MAX,
        ensures
            f.wf(),
            f.width == width,
            f.height == height,
            f.y@ == util::constant((width * height) as nat, 0),
            f.u@ == util::constant(((width / 2) * (height / 2)) as nat, 128),
            f.v@ == util::constant(((width / 2) * (height / 2)) as nat, 128),
    {
        assert((width / 2) * (height / 2) <= width * height) by (nonlinear_arith)
            requires
                width >= 0,
                height >= 0,
        ;
        Yuv420Frame {
            y: util::filled(width * height, 0),
            u: util::filled((width / 2) * (height / 2), 128),
            v: util::filled((width / 2) * (height / 2), 128),
            width,
            height,
        }
    }

    /// Makes the whole frame one colour.
    pub fn clear(&mut self, y_val: u8, uv_val: u8)
        ensures
            final(self).width == old(self).width,
            final(self).height == old(self).height,
            final(self).y@ == util::constant(old(self).y@.len(), y_val),
            final(self).u@ == util::constant(old(self).u@.len(), uv_val),
            final(self).v@ == util::constant(old(self).v@.len(), uv_val),
    {
        self.y = util::filled(self.y.len(), y_val);
        self.u = util::filled(self.u.len(), uv_val);
        self.v = util::filled(self.v.len(), uv_val);
    }
}

/// Fills a rectangle.
fn fill_rect(plane: &mut Vec<u8>, width: usize, x0: usize, y0: usize, w: usize, h: usize, val: u8)
    requires
        h > 0 ==> row_start(width as int, x0 as int, y0 + h - 1) + w <= old(plane).len(),
        y0 + h <= usize::MAX,
    ensures
        final(plane)@ == with_rect(
            old(plane)@,
            width as int,
            x0 as int,
            y0 as int,
            w as int,
            h as int,
            val,
        ),
{
    let ghost before = plane@;
    let mut r: usize = 0;
    proof {
        assert forall|k: int| 0 <= k < before.len() implies !in_rect(
            k,
            width as int,
            x0 as int,
            y0 as int,
            w as int,
            0,
        ) by {}
    }
    while r < h
        invariant
            r <= h,
            y0 + h <= usize::MAX,
            plane@.len() == before.len(),
            h > 0 ==> row_start(width as int, x0 as int, y0 + h - 1) + w <= plane.len(),
            forall|k: int|
                0 <= k < before.len() ==> #[trigger] plane@[k] == if in_rect(
                    k,
                    width as int,
                    x0 as int,
                    y0 as int,
                    w as int,
                    r as int,
                ) {
                    val
                } else {
                    before[k]
                },
        decreases h - r,
    {
        proof {
            assert(0 <= (y0 + r) * width && (y0 + r) * width <= (y0 + h - 1) * width)
                by (nonlinear_arith)
                requires
                    0 <= y0 + r <= y0 + h - 1,
                    width >= 0,
            ;
        }
        let start: usize = (y0 + r) * width + x0;
        let ghost here = plane@;
        let mut c: usize = 0;
        while c < w
            invariant
                c <= w,
                start + w <= plane.len(),
                plane@.len() == here.len(),
                forall|k: int|
                    0 <= k < here.len() ==> #[trigger] plane@[k] == if start <= k < start + c {
                        val
                    } else {
                        here[k]
                    },
            decreases w - c,
        {
            plane.set(start + c, val);
            c = c + 1;
        }
        proof {
            assert forall|k: int| 0 <= k < before.len() implies #[trigger] plane@[k] == if in_rect(
                k,
                width as int,
                x0 as int,
                y0 as int,
                w as int,
                r + 1,
            ) {
                val
            } else {
                before[k]
            } by {
                assert(here[k] == if in_rect(
                    k,
                    width as int,
                    x0 as int,
                    y0 as int,
                    w as int,
                    r as int,
                ) {
                    val
                } else {
                    before[k]
                });
                let now = in_rect(k, width as int, x0 as int, y0 as int, w as int, r + 1);
                let was = in_rect(k, width as int, x0 as int, y0 as int, w as int, r as int);
                if start <= k < start + w {
                    assert(row_start(width as int, x0 as int, y0 + r) == start);
                    assert(now);
                }
                if was {
                    let q = choose|q: int|
                        0 <= q < r && #[trigger] row_start(width as int, x0 as int, y0 + q) <= k
                            < row_start(width as int, x0 as int, y0 + q) + w;
                    assert(0 <= q < r + 1);
                    assert(now);
                }
                if now && !was {
                    let q = choose|q: int|
                        0 <= q < r + 1 && #[trigger] row_start(width as int, x0 as int, y0 + q)
                            <= k < row_start(width as int, x0 as int, y0 + q) + w;
                    assert(q == r);
                }
            }
        }
        r = r + 1;
    }
    assert(plane@ =~= with_rect(
        before,
        width as int,
        x0 as int,
        y0 as int,
        w as int,
        h as int,
        val,
    ));
}

/// Fills a block of the luma plane.
pub fn fill_y_block(y: &mut Vec<u8>, width: usize, block: usize, bx: usize, by: usize, val: u8)
    requires
        bx * block <= usize::MAX,
        by * block + block <= usize::MAX,
        block > 0 ==> row_start(width as int, bx * block, by * block + block - 1) + block <= old(
            y,
        ).len(),
    ensures
        final(y)@ == with_luma_block(
            old(y)@,
            width as int,
            block as int,
            bx as int,
            by as int,
            val,
        ),
{
    assert(bx * block >= 0 && by * block >= 0) by (nonlinear_arith)
        requires
            bx >= 0,
            by >= 0,
            block >= 0,
    ;
    fill_rect(y, width, bx * block, by * block, block, block, val);
}

/// Fills the part of a chroma plane that belongs to a luma block.
pub fn fill_uv_block_420(
    plane: &mut Vec<u8>,
    width: usize,
    height: usize,
    bx: usize,
    by: usize,
    y_block: usize,
    val: u8,
)
    requires
        bx * y_block + y_block <= usize::MAX,
        by * y_block + y_block <= usize::MAX,
        old(plane)@.len() >= (width / 2) * (height / 2),
    ensures
        final(plane)@ == with_chroma_block(
            old(plane)@,
            width as int,
            height as int,
            bx as int,
            by as int,
            y_block as int,
            val,
        ),
{
    assert(bx * y_block >= 0 && by * y_block >= 0) by (nonlinear_arith)
        requires
            bx >= 0,
            by >= 0,
            y_block >= 0,
    ;
    let uv_w: usize = width / 2;
    let uv_h: usize = height / 2;
    let x0: usize = (bx * y_block) / 2;
    let y0: usize = (by * y_block) / 2;
    let c_block: usize = y_block / 2;
    if x0 + c_block > uv_w || y0 + c_block > uv_h {
        return;
    }
    proof {
        if c_block > 0 {
            let last = y0 + c_block - 1;
            assert(last * uv_w + uv_w <= uv_h * uv_w) by (nonlinear_arith)
                requires
                    last + 1 <= uv_h,
                    uv_w >= 0,
            ;
            assert(uv_h * uv_w == uv_w * uv_h) by (nonlinear_arith);
        }
    }
    fill_rect(plane, uv_w, x0, y0, c_block, c_block, val);
}

/// Paints one block of a frame.
pub fn paint_block(frame: &mut Yuv420Frame, bx: usize, by: usize, y_val: u8, u_val: u8, v_val: u8)
    requires
        old(frame).wf(),
        fits(old(frame).width as int, old(frame).height as int, bx as int, by as int),
    ensures
        final(frame).wf(),
        final(frame).width == old(frame).width,
        final(frame).height == old(frame).height,
        final(frame).planes() == with_paint(
            old(frame).planes(),
            old(frame).width as int,
            old(frame).height as int,
            Paint { bx: bx as nat, by: by as nat, y: y_val, u: u_val, v: v_val },
        ),
{
    let width: usize = frame.width;
    let height: usize = frame.height;
    proof {
        let last = by * 32 + 31;
        assert(last * width + width <= height * width) by (nonlinear_arith)
            requires
                last + 1 <= height,
                width >= 0,
        ;
        assert(height * width == width * height) by (nonlinear_arith);
    }
    fill_y_block(&mut frame.y, width, Y_BLOCK, bx, by, y_val);
    fill_uv_block_420(&mut frame.u, width, height, bx, by, Y_BLOCK, u_val);
    fill_uv_block_420(&mut frame.v, width, height, bx, by, Y_BLOCK, v_val);
}

/// A luma pixel of a block.
pub open spec fn luma_pixel(width: int, bx: int, by: int, lx: int, ly: int) -> int {
    (by * 32 + ly) * width + bx * 32 + lx
}

/// Every luma pixel of a block has one value.
pub open spec fn block_is(y: Seq<u8>, width: int, bx: int, by: int, val: u8) -> bool {
    forall|lx: int, ly: int|
        0 <= lx < 32 && 0 <= ly < 32 ==> y[#[trigger] luma_pixel(width, bx, by, lx, ly)] == val
}

proof fn lemma_pixel_in_rect(
    width: int,
    height: int,
    bx: int,
    by: int,
    lx: int,
    ly: int,
    cx: int,
    cy: int,
)
    requires
        0 <= bx,
        0 <= by,
        0 <= cx,
        0 <= cy,
        fits(width, height, bx, by),
        fits(width, height, cx, cy),
        0 <= lx < 32,
        0 <= ly < 32,
    ensures
        in_rect(luma_pixel(width, bx, by, lx, ly), width, cx * 32, cy * 32, 32, 32) <==> (bx == cx
            && by == cy),
        0 <= luma_pixel(width, bx, by, lx, ly) < width * height,
{
    let k = luma_pixel(width, bx, by, lx, ly);
    let (x, y) = (bx * 32 + lx, by * 32 + ly);
    assert(0 <= y * width && y * width + x < width * height) by (nonlinear_arith)
        requires
            0 <= y < height,
            0 <= x < width,
    ;
    if bx == cx && by == cy {
        assert(row_start(width, cx * 32, cy * 32 + ly) <= k < row_start(
            width,
            cx * 32,
            cy * 32 + ly,
        ) + 32);
    }
    if in_rect(k, width, cx * 32, cy * 32, 32, 32) {
        let r = choose|r: int|
            0 <= r < 32 && #[trigger] row_start(width, cx * 32, cy * 32 + r) <= k < row_start(
                width,
                cx * 32,
                cy * 32 + r,
            ) + 32;
        let d = k - row_start(width, cx * 32, cy * 32 + r);
        let (x2, y2) = (cx * 32 + d, cy * 32 + r);
        assert(y * width + x == y2 * width + x2);
        vstd::arithmetic::div_mod::lemma_fundamental_div_mod_converse(k, width, y, x);
        vstd::arithmetic::div_mod::lemma_fundamental_div_mod_converse(k, width, y2, x2);
    }
}

/// A painted block shows its luma, and the other blocks of the frame keep theirs.
pub proof fn law_paint_is_local(f: Planes, width: int, height: int, p: Paint, bx: int, by: int, val: u8)
    requires
        f.y.len() == width * height,
        fits(width, height, p.bx as int, p.by as int),
        0 <= bx,
        0 <= by,
        fits(width, height, bx, by),
    ensures
        block_is(with_paint(f, width, height, p).y, width, p.bx as int, p.by as int, p.y),
        (bx != p.bx || by != p.by) && block_is(f.y, width, bx, by, val) ==> block_is(
            with_paint(f, width, height, p).y,
            width,
            bx,
            by,
            val,
        ),
{
    let after = with_paint(f, width, height, p).y;
    assert forall|lx: int, ly: int| 0 <= lx < 32 && 0 <= ly < 32 implies after[#[trigger] luma_pixel(
        width,
        p.bx as int,
        p.by as int,
        lx,
        ly,
    )] == p.y by {
        lemma_pixel_in_rect(
            width,
            height,
            p.bx as int,
            p.by as int,
            lx,
            ly,
            p.bx as int,
            p.by as int,
        );
    }
    if (bx != p.bx || by != p.by) && block_is(f.y, width, bx, by, val) {
        assert forall|lx: int, ly: int| 0 <= lx < 32 && 0 <= ly < 32 implies after[#[trigger] luma_pixel(
            width,
            bx,
            by,
            lx,
            ly,
        )] == val by {
            lemma_pixel_in_rect(width, height, bx, by, lx, ly, p.bx as int, p.by as int);
        }
    }
}

/// A chroma pixel of a block, in a plane of half the frame's width.
pub open spec fn chroma_pixel(width: int, bx: int, by: int, lx: int, ly: int) -> int {
    (by * 16 + ly) * (width / 2) + bx * 16 + lx
}

/// Every pixel that a block has in a chroma plane has one value.
pub open spec fn chroma_block_is(plane: Seq<u8>, width: int, bx: int, by: int, val: u8) -> bool {
    forall|lx: int, ly: int|
        0 <= lx < 16 && 0 <= ly < 16 ==> plane[#[trigger] chroma_pixel(width, bx, by, lx, ly)]
            == val
}

proof fn lemma_chroma_in_rect(
    width: int,
    height: int,
    bx: int,
    by: int,
    lx: int,
    ly: int,
    cx: int,
    cy: int,
)
    requires
        0 <= bx,
        0 <= by,
        0 <= cx,
        0 <= cy,
        fits(width, height, bx, by),
        fits(width, height, cx, cy),
        0 <= lx < 16,
        0 <= ly < 16,
    ensures
        in_rect(chroma_pixel(width, bx, by, lx, ly), width / 2, cx * 16, cy * 16, 16, 16) <==> (bx
            == cx && by == cy),
        0 <= chroma_pixel(width, bx, by, lx, ly) < (width / 2) * (height / 2),
{
    let k = chroma_pixel(width, bx, by, lx, ly);
    let (w, h) = (width / 2, height / 2);
    let (x, y) = (bx * 16 + lx, by * 16 + ly);
    assert(0 <= y * w && y * w + x < w * h) by (nonlinear_arith)
        requires
            0 <= y < h,
            0 <= x < w,
    ;
    if bx == cx && by == cy {
        assert(row_start(w, cx * 16, cy * 16 + ly) <= k < row_start(w, cx * 16, cy * 16 + ly) + 16);
    }
    if in_rect(k, w, cx * 16, cy * 16, 16, 16) {
        let r = choose|r: int|
            0 <= r < 16 && #[trigger] row_start(w, cx * 16, cy * 16 + r) <= k < row_start(
                w,
                cx * 16,
                cy * 16 + r,
            ) + 16;
        let d = k - row_start(w, cx * 16, cy * 16 + r);
        let (x2, y2) = (cx * 16 + d, cy * 16 + r);
        assert(y * w + x == y2 * w + x2);
        vstd::arithmetic::div_mod::lemma_fundamental_div_mod_converse(k, w, y, x);
        vstd::arithmetic::div_mod::lemma_fundamental_div_mod_converse(k, w, y2, x2);
    }
}

/// A block that is filled in a chroma plane shows its value, and the other blocks keep theirs.
pub proof fn law_chroma_paint_is_local(
    plane: Seq<u8>,
    width: int,
    height: int,
    cx: int,
    cy: int,
    paint: u8,
    bx: int,
    by: int,
    val: u8,
)
    requires
        plane.len() == (width / 2) * (height / 2),
        0 <= cx,
        0 <= cy,
        fits(width, height, cx, cy),
        0 <= bx,
        0 <= by,
        fits(width, height, bx, by),
    ensures
        with_chroma_block(plane, width, height, cx, cy, 32, paint).len() == plane.len(),
        chroma_block_is(
            with_chroma_block(plane, width, height, cx, cy, 32, paint),
            width,
            cx,
            cy,
            paint,
        ),
        (bx != cx || by != cy) && chroma_block_is(plane, width, bx, by, val) ==> chroma_block_is(
            with_chroma_block(plane, width, height, cx, cy, 32, paint),
            width,
            bx,
            by,
            val,
        ),
{
    let after = with_chroma_block(plane, width, height, cx, cy, 32, paint);
    assert(after == with_rect(plane, width / 2, cx * 16, cy * 16, 16, 16, paint));
    assert forall|lx: int, ly: int| 0 <= lx < 16 && 0 <= ly < 16 implies after[#[trigger] chroma_pixel(
        width,
        cx,
        cy,
        lx,
        ly,
    )] == paint by {
        lemma_chroma_in_rect(width, height, cx, cy, lx, ly, cx, cy);
    }
    if (bx != cx || by != cy) && chroma_block_is(plane, width, bx, by, val) {
        assert forall|lx: int, ly: int|
            0 <= lx < 16 && 0 <= ly < 16 implies after[#[trigger] chroma_pixel(
            width,
            bx,
            by,
            lx,
            ly,
        )] == val by {
            lemma_chroma_in_rect(width, height, bx, by, lx, ly, cx, cy);
        }
    }
}

/// The blocks of planes that hold one value show it.
pub proof fn lemma_uniform_blocks(f: Planes, width: int, height: int, bx: int, by: int, val: u8)
    requires
        f.y == util::constant((width * height) as nat, val),
        f.u == util::constant(((width / 2) * (height / 2)) as nat, val),
        f.v == util::constant(((width / 2) * (height / 2)) as nat, val),
        0 <= bx,
        0 <= by,
        fits(width, height, bx, by),
    ensures
        block_is(f.y, width, bx, by, val),
        chroma_block_is(f.u, width, bx, by, val),
        chroma_block_is(f.v, width, bx, by, val),
{
    assert forall|lx: int, ly: int| 0 <= lx < 32 && 0 <= ly < 32 implies f.y[#[trigger] luma_pixel(
        width,
        bx,
        by,
        lx,
        ly,
    )] == val by {
        lemma_pixel_in_rect(width, height, bx, by, lx, ly, bx, by);
    }
    assert forall|lx: int, ly: int| 0 <= lx < 16 && 0 <= ly < 16 implies 0 <= #[trigger] chroma_pixel(
        width,
        bx,
        by,
        lx,
        ly,
    ) < (width / 2) * (height / 2) by {
        lemma_chroma_in_rect(width, height, bx, by, lx, ly, bx, by);
    }
}

} // verus!
