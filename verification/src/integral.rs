//! Rectangles cut to an image whose sums are tabled.
use crate::util;
use vstd::prelude::*;

verus! {

/// A rectangle from one corner to the other, the second not part of it.
#[derive(Clone, Copy, Debug, PartialEq, Eq)]
pub struct Rect {
    pub x0: usize,
    pub y0: usize,
    pub x1: usize,
    pub y1: usize,
}

/// A pixel is in a rectangle.
pub open spec fn has_pixel(x0: int, y0: int, x1: int, y1: int, x: int, y: int) -> bool {
    x0 <= x < x1 && y0 <= y < y1
}

/// The sum of the pixels of row `y` from column `x0` up to `x1`.
pub open spec fn row_sum(image: spec_fn(int, int) -> int, y: int, x0: int, x1: int) -> int
    decreases x1 - x0,
{
    if x1 <= x0 {
        0
    } else {
        row_sum(image, y, x0, x1 - 1) + image(x1 - 1, y)
    }
}

/// The sum of the pixels of a rectangle.
pub open spec fn rect_sum(
    image: spec_fn(int, int) -> int,
    x0: int,
    x1: int,
    y0: int,
    y1: int,
) -> int
    decreases y1 - y0,
{
    if y1 <= y0 {
        0
    } else {
        rect_sum(image, x0, x1, y0, y1 - 1) + row_sum(image, y1 - 1, x0, x1)
    }
}

/// A table holds, row by row, the sums of all that lies above and to the left of each corner.
pub open spec fn is_table_of(
    table: Seq<int>,
    image: spec_fn(int, int) -> int,
    width: int,
    height: int,
) -> bool {
    forall|x: int, y: int|
        0 <= x <= width && 0 <= y <= height ==> #[trigger] corner(table, width, x, y) == rect_sum(
            image,
            0,
            x,
            0,
            y,
        )
}

/// The entry of a table for a corner.
pub open spec fn corner(table: Seq<int>, width: int, x: int, y: int) -> int {
    table[y * (width + 1) + x]
}

proof fn lemma_row_sum(image: spec_fn(int, int) -> int, y: int, x0: int, x1: int)
    requires
        0 <= x0 <= x1,
    ensures
        row_sum(image, y, x0, x1) == row_sum(image, y, 0, x1) - row_sum(image, y, 0, x0),
    decreases x1 - x0,
{
    if x0 < x1 {
        lemma_row_sum(image, y, x0, x1 - 1);
    }
}

proof fn lemma_rect_sum(image: spec_fn(int, int) -> int, x0: int, x1: int, y0: int, y1: int)
    requires
        0 <= x0 <= x1,
        0 <= y0 <= y1,
    ensures
        rect_sum(image, x0, x1, y0, y1) == rect_sum(image, 0, x1, 0, y1) - rect_sum(
            image,
            0,
            x1,
            0,
            y0,
        ) - rect_sum(image, 0, x0, 0, y1) + rect_sum(image, 0, x0, 0, y0),
    decreases y1 - y0,
{
    if y0 < y1 {
        lemma_rect_sum(image, x0, x1, y0, y1 - 1);
        lemma_row_sum(image, y1 - 1, x0, x1);
    }
}

/// The pixels of a rectangle that lie in an image: nothing where none do.
pub fn clip_rect(width: usize, height: usize, x0: usize, y0: usize, w: usize, h: usize) -> (r: Option<
    Rect,
>)
    ensures
        ({
            let x1 = util::lesser(x0 + w, width as int);
            let y1 = util::lesser(y0 + h, height as int);
            match r {
                Some(c) => x0 < x1 && y0 < y1 && c.x0 == x0 && c.y0 == y0 && c.x1 == x1 && c.y1
                    == y1,
                None => x0 >= x1 || y0 >= y1,
            }
        }),
        forall|x: int, y: int|
            (#[trigger] has_pixel(x0 as int, y0 as int, x0 + w, y0 + h, x, y) && x < width && y
                < height) <==> (r matches Some(c) && has_pixel(
                c.x0 as int,
                c.y0 as int,
                c.x1 as int,
                c.y1 as int,
                x,
                y,
            )),
{
    if x0 >= width || y0 >= height || w == 0 || h == 0 {
        return None;
    }
    let x1: usize = if w > width - x0 {
        width
    } else {
        x0 + w
    };
    let y1: usize = if h > height - y0 {
        height
    } else {
        y0 + h
    };
    Some(Rect { x0, y0, x1, y1 })
}

/// The places in the table of sums, whose rows have one entry more than the image is wide, that the
/// sum of a rectangle is made of: those at its lower right, upper right, lower left and upper left.
pub fn sum_places(width: usize, height: usize, c: Rect) -> (r: [usize; 4])
    requires
        c.x0 <= c.x1 <= width,
        c.y0 <= c.y1 <= height,
        (height + 1) * (width + 1) <= usize::MAX,
    ensures
        ({
            let s = width + 1;
            &&& r@[0] == c.y1 * s + c.x1
            &&& r@[1] == c.y0 * s + c.x1
            &&& r@[2] == c.y1 * s + c.x0
            &&& r@[3] == c.y0 * s + c.x0
            &&& forall|i: int| 0 <= i < 4 ==> #[trigger] r@[i] < (height + 1) * s
        }),
        forall|table: Seq<int>, image: spec_fn(int, int) -> int| #[trigger]
            is_table_of(table, image, width as int, height as int) ==> rect_sum(
                image,
                c.x0 as int,
                c.x1 as int,
                c.y0 as int,
                c.y1 as int,
            ) == table[r@[0] as int] - table[r@[1] as int] - table[r@[2] as int]
                + table[r@[3] as int],
{
    proof {
        let s = width + 1;
        assert(s <= (height + 1) * s) by (nonlinear_arith)
            requires
                s >= 0,
                height >= 0,
        ;
        assert(0 <= c.y0 * s <= c.y1 * s && c.y1 * s + s <= (height + 1) * s) by (nonlinear_arith)
            requires
                0 <= c.y0 <= c.y1 <= height,
                s >= 0,
        ;
    }
    proof {
        let w = width as int;
        let (x0, x1, y0, y1) = (c.x0 as int, c.x1 as int, c.y0 as int, c.y1 as int);
        assert forall|table: Seq<int>, image: spec_fn(int, int) -> int| #[trigger]
            is_table_of(table, image, w, height as int) implies rect_sum(image, x0, x1, y0, y1)
            == table[y1 * (w + 1) + x1] - table[y0 * (w + 1) + x1] - table[y1 * (w + 1) + x0]
            + table[y0 * (w + 1) + x0] by {
            lemma_rect_sum(image, x0, x1, y0, y1);
            assert(corner(table, w, x1, y1) == rect_sum(image, 0, x1, 0, y1));
            assert(corner(table, w, x1, y0) == rect_sum(image, 0, x1, 0, y0));
            assert(corner(table, w, x0, y1) == rect_sum(image, 0, x0, 0, y1));
            assert(corner(table, w, x0, y0) == rect_sum(image, 0, x0, 0, y0));
        }
    }
    let s: usize = width + 1;
    [c.y1 * s + c.x1, c.y0 * s + c.x1, c.y1 * s + c.x0, c.y0 * s + c.x0]
}

} // verus!
