//! The order in which the blocks of a frame carry payload: tile by tile, the tiles shuffled.
use crate::counting;
use crate::params::MARGIN_BLOCKS;
use crate::rng;
use crate::rng::SplitMix64;
use crate::util;
use vstd::prelude::*;

verus! {

pub const PAYLOAD_TILE_BX: usize = 8;

pub const PAYLOAD_TILE_BY: usize = 8;

/// A difference, but not below zero.
pub open spec fn monus(a: int, b: int) -> int {
    if a >= b {
        a - b
    } else {
        0
    }
}

/// The area that is tiled: all blocks inside the side margins, of some rows.
pub struct Area {
    pub w: nat,
    pub h: nat,
    pub top: nat,
}

pub open spec fn payload_area(bx_n: int, start: int, end: int) -> Area {
    Area { w: monus(bx_n, 2) as nat, h: monus(end, start) as nat, top: start as nat }
}

/// The side of a tile: eight blocks, or fewer where the area is smaller.
pub open spec fn tile_side(len: nat) -> int {
    if len == 0 {
        1
    } else {
        util::lesser(8, len as int)
    }
}

pub open spec fn tile_cols(a: Area) -> int {
    util::ceil_div(a.w, tile_side(a.w) as nat) as int
}

pub open spec fn tile_rows(a: Area) -> int {
    util::ceil_div(a.h, tile_side(a.h) as nat) as int
}

pub open spec fn tile_count(a: Area) -> int {
    tile_rows(a) * tile_cols(a)
}

/// A tile: its first block, and its width and height, which the area may cut.
pub struct Tile {
    pub x0: int,
    pub y0: int,
    pub w: int,
    pub h: int,
}

pub open spec fn tile_at(a: Area, ty: int, tx: int) -> Tile {
    let (tw, th) = (tile_side(a.w), tile_side(a.h));
    Tile {
        x0: 1 + tx * tw,
        y0: a.top + ty * th,
        w: util::lesser(tw, a.w - tx * tw),
        h: util::lesser(th, a.h - ty * th),
    }
}

/// Tile `t`, counted row by row.
pub open spec fn tile_numbered(a: Area, t: int) -> Tile {
    tile_at(a, t / tile_cols(a), t % tile_cols(a))
}

/// The blocks of a tile, row by row.
pub open spec fn tile_blocks(t: Tile) -> Seq<(usize, usize)> {
    Seq::new(
        (t.w * t.h) as nat,
        |i: int| ((t.x0 + i % t.w) as usize, (t.y0 + i / t.w) as usize),
    )
}

/// The blocks of the first `n` tiles of an order.
pub open spec fn blocks_in_order(a: Area, order: Seq<usize>, n: nat) -> Seq<(usize, usize)>
    decreases n,
{
    if n == 0 {
        Seq::empty()
    } else {
        blocks_in_order(a, order, (n - 1) as nat) + tile_blocks(
            tile_numbered(a, order[n - 1] as int),
        )
    }
}

/// The seed of the shuffle, made of the sizes.
pub open spec fn tile_seed(bx_n: usize, start: usize, end: usize) -> u64 {
    0xA173_E9C4_51B4_002Du64 ^ ((bx_n as u64) << 32u64) ^ ((start as u64) << 16u64) ^ (end as u64)
}

pub open spec fn tile_order(bx_n: usize, start: usize, end: usize) -> Seq<usize> {
    let n = tile_count(payload_area(bx_n as int, start as int, end as int)) as nat;
    rng::shuffled(Seq::new(n, |i: int| i as usize), tile_seed(bx_n, start, end), n)
}

/// The blocks that carry payload, in their order.
pub open spec fn payload_positions(bx_n: usize, start: usize, end: usize) -> Seq<(usize, usize)> {
    let a = payload_area(bx_n as int, start as int, end as int);
    blocks_in_order(a, tile_order(bx_n, start, end), tile_count(a) as nat)
}

/// A block is in the area.
pub open spec fn in_area(a: Area, b: (usize, usize)) -> bool {
    1 <= b.0 < 1 + a.w && a.top <= b.1 < a.top + a.h
}

pub open spec fn in_tile(t: Tile, b: (usize, usize)) -> bool {
    t.x0 <= b.0 < t.x0 + t.w && t.y0 <= b.1 < t.y0 + t.h
}

/// The number of the tile that a block of the area is in.
pub open spec fn tile_of(a: Area, b: (usize, usize)) -> int {
    (b.1 - a.top) / tile_side(a.h) * tile_cols(a) + (b.0 - 1) / tile_side(a.w)
}

/// The coordinates in units of a tile.
proof fn lemma_tile_coordinate(len: nat, v: int)
    requires
        0 <= v < len,
    ensures
        ({
            let s = tile_side(len);
            let q = v / s;
            &&& 0 <= q < util::ceil_div(len, s as nat)
            &&& q * s <= v < q * s + util::lesser(s, len - q * s)
        }),
{
    let s = tile_side(len);
    let q = v / s;
    vstd::arithmetic::div_mod::lemma_fundamental_div_mod(v, s);
    vstd::arithmetic::div_mod::lemma_fundamental_div_mod(len as int, s);
    let c = len as int / s;
    assert(s * q == q * s) by (nonlinear_arith);
    assert(0 <= q <= c && (len as int % s == 0 ==> q < c)) by (nonlinear_arith)
        requires
            v == s * q + v % s,
            len == s * c + len as int % s,
            0 <= v % s < s,
            0 <= len as int % s < s,
            0 <= v < len,
            s > 0,
    ;
}

/// A coordinate inside tile `q` has that tile's number.
proof fn lemma_tile_coordinate_unique(len: nat, q: int, v: int)
    requires
        0 <= q < util::ceil_div(len, tile_side(len) as nat),
        q * tile_side(len) <= v < q * tile_side(len) + util::lesser(
            tile_side(len),
            len - q * tile_side(len),
        ),
    ensures
        0 <= v < len,
        v / tile_side(len) == q,
{
    let s = tile_side(len);
    assert(0 <= q * s) by (nonlinear_arith)
        requires
            0 <= q,
            s > 0,
    ;
    vstd::arithmetic::div_mod::lemma_fundamental_div_mod_converse(v, s, q, v - q * s);
}

/// Tiles have a width and a height.
proof fn lemma_tile_extent(len: nat, q: int)
    requires
        0 <= q < util::ceil_div(len, tile_side(len) as nat),
    ensures
        0 < util::lesser(tile_side(len), len - q * tile_side(len)),
        0 <= q * tile_side(len) < len,
{
    let s = tile_side(len);
    vstd::arithmetic::div_mod::lemma_fundamental_div_mod(len as int, s);
    let c = len as int / s;
    assert(0 <= q * s < len) by (nonlinear_arith)
        requires
            len == s * c + len as int % s,
            0 <= len as int % s < s,
            0 <= q,
            q < if len as int % s == 0 {
                c
            } else {
                c + 1
            },
            s > 0,
    ;
}

proof fn lemma_tile_number(a: Area, t: int)
    requires
        0 <= t < tile_count(a),
    ensures
        0 < tile_cols(a),
        0 <= t / tile_cols(a) < tile_rows(a),
        0 <= t % tile_cols(a) < tile_cols(a),
{
    let c = tile_cols(a);
    let r = tile_rows(a);
    assert(c > 0) by (nonlinear_arith)
        requires
            0 <= t < r * c,
            r >= 0,
            c >= 0,
    ;
    vstd::arithmetic::div_mod::lemma_fundamental_div_mod(t, c);
    assert(0 <= t / c < r) by (nonlinear_arith)
        requires
            t == c * (t / c) + t % c,
            0 <= t % c < c,
            0 <= t < r * c,
    ;
}

/// A block of a tile is in the area, and the tile is the block's.
proof fn lemma_in_tile(a: Area, t: int, b: (usize, usize))
    requires
        0 <= t < tile_count(a),
        in_tile(tile_numbered(a, t), b),
    ensures
        in_area(a, b),
        tile_of(a, b) == t,
{
    lemma_tile_number(a, t);
    let c = tile_cols(a);
    lemma_tile_coordinate_unique(a.w, t % c, b.0 - 1);
    lemma_tile_coordinate_unique(a.h, t / c, b.1 - a.top);
    vstd::arithmetic::div_mod::lemma_fundamental_div_mod(t, c);
    assert(t / c * c == c * (t / c)) by (nonlinear_arith);
}

/// Every block of the area is in its tile.
proof fn lemma_in_its_tile(a: Area, b: (usize, usize))
    requires
        in_area(a, b),
    ensures
        0 <= tile_of(a, b) < tile_count(a),
        in_tile(tile_numbered(a, tile_of(a, b)), b),
{
    lemma_tile_coordinate(a.w, b.0 - 1);
    lemma_tile_coordinate(a.h, b.1 - a.top);
    let c = tile_cols(a);
    let r = tile_rows(a);
    let x = (b.0 - 1) / tile_side(a.w);
    let y = (b.1 - a.top) / tile_side(a.h);
    assert(0 <= y * c && y * c + x < r * c) by (nonlinear_arith)
        requires
            0 <= y,
            y + 1 <= r,
            0 <= x < c,
    ;
    vstd::arithmetic::div_mod::lemma_fundamental_div_mod_converse(y * c + x, c, y, x);
}

/// The blocks of a tile are those in it, each once.
proof fn lemma_tile_blocks(a: Area, t: int)
    requires
        0 <= t < tile_count(a),
        1 + a.w <= usize::MAX,
        a.top + a.h <= usize::MAX,
    ensures
        tile_blocks(tile_numbered(a, t)).no_duplicates(),
        forall|b: (usize, usize)|
            tile_blocks(tile_numbered(a, t)).contains(b) <==> #[trigger] in_tile(
                tile_numbered(a, t),
                b,
            ),
{
    lemma_tile_number(a, t);
    let k = tile_numbered(a, t);
    lemma_tile_extent(a.w, t % tile_cols(a));
    lemma_tile_extent(a.h, t / tile_cols(a));
    let s = tile_blocks(k);
    assert forall|i: int| 0 <= i < s.len() implies #[trigger] s[i].0 == k.x0 + i % k.w && s[i].1
        == k.y0 + i / k.w && in_tile(k, s[i]) by {
        lemma_cell(k.w, k.h, i);
    }
    assert forall|i: int, j: int| 0 <= i < s.len() && 0 <= j < s.len() && i != j implies s[i]
        != s[j] by {
        vstd::arithmetic::div_mod::lemma_fundamental_div_mod(i, k.w);
        vstd::arithmetic::div_mod::lemma_fundamental_div_mod(j, k.w);
        assert(s[i].0 == k.x0 + i % k.w && s[j].0 == k.x0 + j % k.w);
    }
    assert forall|b: (usize, usize)| s.contains(b) <==> #[trigger] in_tile(k, b) by {
        if s.contains(b) {
            let i = choose|i: int| 0 <= i < s.len() && s[i] == b;
            assert(in_tile(k, s[i]));
        }
        if in_tile(k, b) {
            let (x, y) = (b.0 - k.x0, b.1 - k.y0);
            let i = y * k.w + x;
            assert(0 <= i < k.w * k.h) by (nonlinear_arith)
                requires
                    i == y * k.w + x,
                    0 <= x < k.w,
                    0 <= y < k.h,
            ;
            vstd::arithmetic::div_mod::lemma_fundamental_div_mod_converse(i, k.w, y, x);
            assert(s[i] == b);
        }
    }
}

proof fn lemma_cell(w: int, h: int, i: int)
    requires
        0 < w,
        0 < h,
        0 <= i < w * h,
    ensures
        0 <= i % w < w,
        0 <= i / w < h,
{
    vstd::arithmetic::div_mod::lemma_fundamental_div_mod(i, w);
    assert(0 <= i / w < h) by (nonlinear_arith)
        requires
            i == w * (i / w) + i % w,
            0 <= i % w < w,
            0 <= i < w * h,
    ;
}

/// The order names each tile once.
pub open spec fn is_order(order: Seq<usize>, n: int) -> bool {
    &&& order.len() == n
    &&& order.no_duplicates()
    &&& forall|q: int| 0 <= q < n ==> #[trigger] order[q] < n
    &&& forall|t: usize| t < n ==> #[trigger] order.contains(t)
}

proof fn lemma_shuffled_is_order(n: nat, seed: u64)
    requires
        n <= usize::MAX,
    ensures
        is_order(rng::shuffled(Seq::new(n, |i: int| i as usize), seed, n), n as int),
{
    broadcast use vstd::seq_lib::group_to_multiset_ensures;

    let s = Seq::new(n, |i: int| i as usize);
    let o = rng::shuffled(s, seed, n);
    rng::law_shuffle_permutes(s, seed, n);
    assert(s.no_duplicates());
    s.lemma_multiset_has_no_duplicates();
    o.lemma_multiset_has_no_duplicates_conv();
    assert forall|q: int| 0 <= q < n implies #[trigger] o[q] < n by {
        assert(o.contains(o[q]));
        assert(o.to_multiset().count(o[q]) > 0);
        assert(s.contains(o[q]));
    }
    assert forall|t: usize| t < n implies #[trigger] o.contains(t) by {
        assert(s[t as int] == t);
        assert(s.contains(t));
        assert(s.to_multiset().count(t) > 0);
    }
}

proof fn lemma_blocks_in_order(a: Area, order: Seq<usize>, n: nat)
    requires
        1 + a.w <= usize::MAX,
        a.top + a.h <= usize::MAX,
        tile_count(a) <= usize::MAX,
        n <= order.len(),
        order.no_duplicates(),
        forall|q: int| 0 <= q < order.len() ==> #[trigger] order[q] < tile_count(a),
    ensures
        blocks_in_order(a, order, n).no_duplicates(),
        forall|b: (usize, usize)|
            #[trigger] blocks_in_order(a, order, n).contains(b) <==> in_area(a, b)
                && order.take(n as int).contains(tile_of(a, b) as usize),
    decreases n,
{
    let all = blocks_in_order(a, order, n);
    if n == 0 {
        assert forall|b: (usize, usize)| #[trigger] all.contains(b) <==> in_area(a, b) && order.take(
            0,
        ).contains(tile_of(a, b) as usize) by {}
    } else {
        let m = (n - 1) as nat;
        lemma_blocks_in_order(a, order, m);
        let before = blocks_in_order(a, order, m);
        let t = order[m as int] as int;
        let last = tile_blocks(tile_numbered(a, t));
        lemma_tile_blocks(a, t);
        assert(order.take(n as int) =~= order.take(m as int).push(order[m as int]));
        assert forall|b: (usize, usize)| #[trigger] all.contains(b) <==> in_area(a, b) && order.take(
            n as int,
        ).contains(tile_of(a, b) as usize) by {
            let now = order.take(n as int);
            let was = order.take(m as int);
            if all.contains(b) {
                let i = choose|i: int| 0 <= i < all.len() && all[i] == b;
                if i < before.len() {
                    assert(before[i] == b);
                    assert(before.contains(b));
                    let q = choose|q: int| 0 <= q < was.len() && was[q] == tile_of(a, b) as usize;
                    assert(now[q] == tile_of(a, b) as usize);
                } else {
                    assert(last[i - before.len()] == b);
                    assert(last.contains(b));
                    assert(in_tile(tile_numbered(a, t), b));
                    lemma_in_tile(a, t, b);
                    assert(now[m as int] == tile_of(a, b) as usize);
                }
            }
            if in_area(a, b) && now.contains(tile_of(a, b) as usize) {
                let q = choose|q: int| 0 <= q < now.len() && now[q] == tile_of(a, b) as usize;
                lemma_in_its_tile(a, b);
                assert(now[q] == order[q]);
                if q < m {
                    assert(was[q] == tile_of(a, b) as usize);
                    assert(before.contains(b));
                    let i = choose|i: int| 0 <= i < before.len() && before[i] == b;
                    assert(all[i] == b);
                } else {
                    assert(order[q] < tile_count(a));
                    assert(tile_of(a, b) == t);
                    assert(in_tile(tile_numbered(a, t), b));
                    assert(last.contains(b));
                    let i = choose|i: int| 0 <= i < last.len() && last[i] == b;
                    assert(all[before.len() + i] == b);
                }
            }
        }
        assert forall|i: int, j: int| 0 <= i < j < all.len() implies all[i] != all[j] by {
            if j < before.len() {
                assert(before[i] == all[i] && before[j] == all[j]);
            } else if i >= before.len() {
                assert(last[i - before.len()] == all[i] && last[j - before.len()] == all[j]);
            } else if all[i] == all[j] {
                let b = all[i];
                assert(before[i] == b);
                assert(before.contains(b));
                assert(last[j - before.len()] == b);
                assert(last.contains(b));
                assert(in_tile(tile_numbered(a, t), b));
                lemma_in_tile(a, t, b);
                let was = order.take(m as int);
                let q = choose|q: int| 0 <= q < was.len() && was[q] == tile_of(a, b) as usize;
                assert(order[q] == order[m as int]);
            }
        }
        assert(all.no_duplicates());
    }
}

proof fn lemma_tile_count_fits(a: Area)
    ensures
        tile_count(a) <= a.w * a.h || tile_count(a) == 0,
        0 <= tile_count(a),
{
    lemma_fewer_tiles(a.w);
    lemma_fewer_tiles(a.h);
    assert(0 <= tile_rows(a) * tile_cols(a) <= a.w * a.h) by (nonlinear_arith)
        requires
            0 <= tile_rows(a) <= a.h,
            0 <= tile_cols(a) <= a.w,
    ;
}

proof fn lemma_fewer_tiles(len: nat)
    ensures
        util::ceil_div(len, tile_side(len) as nat) <= len,
{
    let s = tile_side(len);
    if s == 1 {
        assert(len as int / 1 == len);
    } else {
        vstd::arithmetic::div_mod::lemma_fundamental_div_mod(len as int, s);
        let c = len as int / s;
        assert(c < len) by (nonlinear_arith)
            requires
                len == s * c + len as int % s,
                0 <= len as int % s,
                s >= 2,
                len > 0,
                c >= 0,
        ;
    }
}

/// The blocks that carry payload are those of the area, each once.
pub proof fn law_payload_covers_area(bx_n: usize, start: usize, end: usize)
    requires
        payload_area(bx_n as int, start as int, end as int).w * payload_area(
            bx_n as int,
            start as int,
            end as int,
        ).h <= usize::MAX,
    ensures
        ({
            let a = payload_area(bx_n as int, start as int, end as int);
            let pos = payload_positions(bx_n, start, end);
            &&& pos.no_duplicates()
            &&& forall|b: (usize, usize)| #[trigger] pos.contains(b) <==> in_area(a, b)
            &&& pos.len() == a.w * a.h
        }),
{
    let a = payload_area(bx_n as int, start as int, end as int);
    let n = tile_count(a) as nat;
    lemma_tile_count_fits(a);
    let order = tile_order(bx_n, start, end);
    let pos = payload_positions(bx_n, start, end);
    lemma_shuffled_is_order(n, tile_seed(bx_n, start, end));
    if start > end {
        assert(a.h == 0);
        assert(a.w * a.h == 0) by (nonlinear_arith)
            requires
                a.h == 0,
        ;
    } else {
        lemma_blocks_in_order(a, order, n);
        assert(order.take(n as int) =~= order);
        assert forall|b: (usize, usize)| #[trigger] pos.contains(b) <==> in_area(a, b) by {
            if in_area(a, b) {
                lemma_in_its_tile(a, b);
                assert(order.contains(tile_of(a, b) as usize));
            }
        }
        lemma_area_len(a, pos);
    }
}

/// Distinct blocks that fill an area are as many as the area has.
proof fn lemma_area_len(a: Area, pos: Seq<(usize, usize)>)
    requires
        pos.no_duplicates(),
        forall|b: (usize, usize)| #[trigger] pos.contains(b) <==> in_area(a, b),
        1 + a.w <= usize::MAX,
        a.top + a.h <= usize::MAX,
    ensures
        pos.len() == a.w * a.h,
{
    let w = a.w as int;
    let flat = Seq::new(pos.len(), |i: int| (pos[i].1 - a.top) * w + (pos[i].0 - 1));
    assert forall|i: int| 0 <= i < flat.len() implies 0 <= #[trigger] flat[i] < w * a.h by {
        assert(pos.contains(pos[i]));
        let (x, y) = (pos[i].0 - 1, pos[i].1 - a.top);
        assert(0 <= y * w + x < w * a.h) by (nonlinear_arith)
            requires
                0 <= x < w,
                0 <= y < a.h,
        ;
    }
    assert forall|i: int, j: int| 0 <= i < flat.len() && 0 <= j < flat.len() && i != j implies flat[i]
        != flat[j] by {
        assert(pos.contains(pos[i]) && pos.contains(pos[j]));
        vstd::arithmetic::div_mod::lemma_fundamental_div_mod_converse(
            flat[i],
            w,
            pos[i].1 - a.top,
            pos[i].0 - 1,
        );
        vstd::arithmetic::div_mod::lemma_fundamental_div_mod_converse(
            flat[j],
            w,
            pos[j].1 - a.top,
            pos[j].0 - 1,
        );
    }
    assert forall|v: int| 0 <= v < w * a.h implies flat.contains(v) by {
        assert(w > 0) by (nonlinear_arith)
            requires
                0 <= v < w * a.h,
                w >= 0,
                a.h >= 0,
        ;
        assert(a.h > 0) by (nonlinear_arith)
            requires
                0 <= v < w * a.h,
                w >= 0,
                a.h >= 0,
        ;
        lemma_cell(w, a.h as int, v);
        let b = ((1 + v % w) as usize, (a.top + v / w) as usize);
        assert(pos.contains(b));
        let i = choose|i: int| 0 <= i < pos.len() && pos[i] == b;
        vstd::arithmetic::div_mod::lemma_fundamental_div_mod(v, w);
        assert(w * (v / w) == v / w * w) by (nonlinear_arith);
        assert(flat[i] == v);
    }
    assert(w * a.h >= 0) by (nonlinear_arith)
        requires
            w >= 0,
            a.h >= 0,
    ;
    counting::lemma_exact_cover(flat, w * a.h);
}

/// The blocks that carry payload, in their order.
pub fn build_payload_positions_vec(bx_n: usize, payload_by_start: usize, payload_by_end: usize) -> (pos:
    Vec<(usize, usize)>)
    requires
        payload_area(bx_n as int, payload_by_start as int, payload_by_end as int).w * payload_area(
            bx_n as int,
            payload_by_start as int,
            payload_by_end as int,
        ).h <= usize::MAX,
    ensures
        pos@ == payload_positions(bx_n, payload_by_start, payload_by_end),
{
    let ghost a = payload_area(bx_n as int, payload_by_start as int, payload_by_end as int);
    let inner_w: usize = if bx_n >= 2 * MARGIN_BLOCKS {
        bx_n - 2 * MARGIN_BLOCKS
    } else {
        0
    };
    let inner_h: usize = if payload_by_end >= payload_by_start {
        payload_by_end - payload_by_start
    } else {
        0
    };
    let tile_w: usize = side_for(inner_w, PAYLOAD_TILE_BX);
    let tile_h: usize = side_for(inner_h, PAYLOAD_TILE_BY);
    let cols: usize = util::div_ceil(inner_w, tile_w);
    let rows: usize = util::div_ceil(inner_h, tile_h);
    proof {
        lemma_tile_count_fits(a);
    }
    let n: usize = rows * cols;
    let mut order: Vec<usize> = Vec::with_capacity(n);
    let mut i: usize = 0;
    while i < n
        invariant
            i <= n,
            order@ == Seq::new(i as nat, |k: int| k as usize),
        decreases n - i,
    {
        order.push(i);
        i = i + 1;
        assert(order@ =~= Seq::new(i as nat, |k: int| k as usize));
    }
    let seed: u64 = 0xA173_E9C4_51B4_002Du64 ^ ((bx_n as u64) << 32u64) ^ ((payload_by_start as u64)
        << 16u64) ^ (payload_by_end as u64);
    let mut rng: SplitMix64 = SplitMix64::new(seed);
    rng::shuffle_in_place(&mut order, &mut rng);
    proof {
        lemma_shuffled_is_order(n as nat, seed);
        assert(order@ == tile_order(bx_n, payload_by_start, payload_by_end));
    }
    let mut pos: Vec<(usize, usize)> = Vec::new();
    let mut q: usize = 0;
    while q < n
        invariant
            q <= n,
            n == tile_count(a),
            a == payload_area(bx_n as int, payload_by_start as int, payload_by_end as int),
            inner_w == a.w,
            inner_h == a.h,
            inner_w > 0 ==> bx_n == inner_w + 2,
            inner_h > 0 ==> payload_by_end == payload_by_start + inner_h,
            tile_w == tile_side(a.w),
            tile_h == tile_side(a.h),
            cols == tile_cols(a),
            is_order(order@, n as int),
            pos@ == blocks_in_order(a, order@, q as nat),
        decreases n - q,
    {
        let t: usize = order[q];
        proof {
            lemma_tile_number(a, t as int);
            lemma_tile_extent(a.w, t as int % tile_cols(a));
            lemma_tile_extent(a.h, t as int / tile_cols(a));
        }
        let ty: usize = t / cols;
        let tx: usize = t % cols;
        let x0: usize = MARGIN_BLOCKS + tx * tile_w;
        let y0: usize = payload_by_start + ty * tile_h;
        let tw: usize = util::min_usize(tile_w, inner_w - tx * tile_w);
        let th: usize = util::min_usize(tile_h, inner_h - ty * tile_h);
        push_tile(
            &mut pos,
            x0,
            y0,
            tw,
            th,
            Ghost(tile_numbered(a, t as int)),
        );
        q = q + 1;
    }
    pos
}

fn side_for(len: usize, most: usize) -> (s: usize)
    requires
        most == 8,
    ensures
        s == tile_side(len as nat),
        s > 0,
{
    if len == 0 {
        1
    } else {
        util::min_usize(most, len)
    }
}

/// Appends the blocks of a tile.
fn push_tile(
    pos: &mut Vec<(usize, usize)>,
    x0: usize,
    y0: usize,
    tw: usize,
    th: usize,
    tile: Ghost<Tile>,
)
    requires
        tile@.x0 == x0,
        tile@.y0 == y0,
        tile@.w == tw,
        tile@.h == th,
        tw > 0,
        x0 + tw <= usize::MAX,
        y0 + th <= usize::MAX,
    ensures
        final(pos)@ == old(pos)@ + tile_blocks(tile@),
{
    let ghost before = pos@;
    let ghost want = tile_blocks(tile@);
    let mut y: usize = 0;
    assert(0 * tw == 0) by (nonlinear_arith);
    assert(pos@ =~= before + want.take(0 * tw));
    while y < th
        invariant
            y <= th,
            tw > 0,
            x0 + tw <= usize::MAX,
            y0 + th <= usize::MAX,
            tile@.x0 == x0,
            tile@.y0 == y0,
            tile@.w == tw,
            tile@.h == th,
            want == tile_blocks(tile@),
            pos@ == before + want.take(y * tw),
        decreases th - y,
    {
        assert(0 <= y * tw && y * tw + tw <= tw * th && (y + 1) * tw == y * tw + tw)
            by (nonlinear_arith)
            requires
                0 <= y,
                y + 1 <= th,
                tw > 0,
        ;
        let mut x: usize = 0;
        while x < tw
            invariant
                x <= tw,
                y < th,
                tw > 0,
                x0 + tw <= usize::MAX,
                y0 + th <= usize::MAX,
                tile@.x0 == x0,
                tile@.y0 == y0,
                tile@.w == tw,
                tile@.h == th,
                want == tile_blocks(tile@),
                0 <= y * tw,
                y * tw + tw <= tw * th,
                pos@ == before + want.take(y * tw + x),
            decreases tw - x,
        {
            pos.push((x0 + x, y0 + y));
            proof {
                let i = y * tw + x;
                vstd::arithmetic::div_mod::lemma_fundamental_div_mod_converse(
                    i,
                    tw as int,
                    y as int,
                    x as int,
                );
                assert(want.take(i + 1) =~= want.take(i).push(want[i]));
            }
            x = x + 1;
        }
        y = y + 1;
    }
    assert(th * tw == tw * th) by (nonlinear_arith);
    assert(want.take(y * tw) =~= want);
}

/// The tile that place `i` of the first `n` tiles of an order is in.
proof fn lemma_tile_at_place(a: Area, order: Seq<usize>, n: nat, i: int) -> (q: int)
    requires
        1 + a.w <= usize::MAX,
        a.top + a.h <= usize::MAX,
        n <= order.len(),
        forall|q: int| 0 <= q < order.len() ==> #[trigger] order[q] < tile_count(a),
        0 <= i < blocks_in_order(a, order, n).len(),
    ensures
        0 <= q < n,
        blocks_in_order(a, order, q as nat).len() <= i < blocks_in_order(
            a,
            order,
            (q + 1) as nat,
        ).len(),
        in_area(a, blocks_in_order(a, order, n)[i]),
        tile_of(a, blocks_in_order(a, order, n)[i]) == order[q],
        blocks_in_order(a, order, n)[i] == tile_blocks(tile_numbered(a, order[q] as int))[i
            - blocks_in_order(a, order, q as nat).len()],
    decreases n,
{
    let m = (n - 1) as nat;
    let before = blocks_in_order(a, order, m);
    let all = blocks_in_order(a, order, n);
    if i < before.len() {
        assert(all[i] == before[i]);
        lemma_tile_at_place(a, order, m, i)
    } else {
        let t = order[m as int] as int;
        let last = tile_blocks(tile_numbered(a, t));
        lemma_tile_blocks(a, t);
        assert(all[i] == last[i - before.len()]);
        assert(last.contains(all[i]));
        assert(in_tile(tile_numbered(a, t), all[i]));
        lemma_in_tile(a, t, all[i]);
        m as int
    }
}

proof fn lemma_places_grow(a: Area, order: Seq<usize>, m: nat, n: nat)
    requires
        m <= n,
    ensures
        blocks_in_order(a, order, m).len() <= blocks_in_order(a, order, n).len(),
    decreases n,
{
    if m < n {
        lemma_places_grow(a, order, m, (n - 1) as nat);
    }
}

/// The payload goes tile by tile: what stands between two blocks of one tile is of that tile too,
/// and within a tile the blocks go row by row from the left.
pub proof fn law_payload_goes_tile_by_tile(
    bx_n: usize,
    start: usize,
    end: usize,
    i: int,
    j: int,
    k: int,
)
    requires
        start <= end,
        payload_area(bx_n as int, start as int, end as int).w * payload_area(
            bx_n as int,
            start as int,
            end as int,
        ).h <= usize::MAX,
        0 <= i < j <= k < payload_positions(bx_n, start, end).len(),
        ({
            let a = payload_area(bx_n as int, start as int, end as int);
            let pos = payload_positions(bx_n, start, end);
            tile_of(a, pos[i]) == tile_of(a, pos[k])
        }),
    ensures
        ({
            let a = payload_area(bx_n as int, start as int, end as int);
            let pos = payload_positions(bx_n, start, end);
            &&& tile_of(a, pos[j]) == tile_of(a, pos[i])
            &&& pos[i].1 < pos[j].1 || (pos[i].1 == pos[j].1 && pos[i].0 < pos[j].0)
        }),
{
    let a = payload_area(bx_n as int, start as int, end as int);
    let n = tile_count(a) as nat;
    let order = tile_order(bx_n, start, end);
    let pos = payload_positions(bx_n, start, end);
    lemma_tile_count_fits(a);
    lemma_shuffled_is_order(n, tile_seed(bx_n, start, end));
    let p = lemma_tile_at_place(a, order, n, i);
    let q = lemma_tile_at_place(a, order, n, j);
    let r = lemma_tile_at_place(a, order, n, k);
    assert(order[p] == order[r]);
    assert(p == r);
    if q < p {
        lemma_places_grow(a, order, (q + 1) as nat, p as nat);
    }
    if q > r {
        lemma_places_grow(a, order, (r + 1) as nat, q as nat);
    }
    assert(q == p);
    let t = order[p] as int;
    let tile = tile_numbered(a, t);
    let first = blocks_in_order(a, order, p as nat).len();
    let (x, y) = (i - first, j - first);
    lemma_tile_number(a, t);
    lemma_tile_extent(a.w, t % tile_cols(a));
    lemma_tile_extent(a.h, t / tile_cols(a));
    assert(blocks_in_order(a, order, (p + 1) as nat).len() == first + tile_blocks(tile).len());
    lemma_cell(tile.w, tile.h, x);
    lemma_cell(tile.w, tile.h, y);
    vstd::arithmetic::div_mod::lemma_fundamental_div_mod(x, tile.w);
    vstd::arithmetic::div_mod::lemma_fundamental_div_mod(y, tile.w);
    lemma_rows_in_order(tile.w, x, y);
    lemma_tile_blocks(a, t);
    assert(tile_blocks(tile).contains(tile_blocks(tile)[x]));
    assert(tile_blocks(tile).contains(tile_blocks(tile)[y]));
    assert(in_tile(tile, tile_blocks(tile)[x]) && in_tile(tile, tile_blocks(tile)[y]));
}

proof fn lemma_rows_in_order(w: int, x: int, y: int)
    requires
        0 < w,
        0 <= x < y,
        x == w * (x / w) + x % w,
        y == w * (y / w) + y % w,
        0 <= x % w < w,
        0 <= y % w < w,
    ensures
        x / w < y / w || (x / w == y / w && x % w < y % w),
{
    if x / w > y / w {
        assert(w * (x / w) >= w * (y / w) + w) by (nonlinear_arith)
            requires
                x / w >= y / w + 1,
                0 < w,
        ;
    }
}

/// In an area that is large enough two blocks are in one tile exactly where they are in one group of
/// eight columns and in one of eight rows.
pub proof fn law_tiles_are_eight_by_eight(a: Area, b: (usize, usize), c: (usize, usize))
    requires
        in_area(a, b),
        in_area(a, c),
        a.w >= 8,
        a.h >= 8,
    ensures
        tile_of(a, b) == tile_of(a, c) <==> (b.0 - 1) / 8 == (c.0 - 1) / 8 && (b.1 - a.top) / 8
            == (c.1 - a.top) / 8,
{
    lemma_tile_coordinate(a.w, b.0 - 1);
    lemma_tile_coordinate(a.w, c.0 - 1);
    let n = tile_cols(a);
    let (x, y) = ((b.0 - 1) / 8, (b.1 - a.top) / 8);
    let (u, v) = ((c.0 - 1) / 8, (c.1 - a.top) / 8);
    if y * n + x == v * n + u {
        vstd::arithmetic::div_mod::lemma_fundamental_div_mod_converse(y * n + x, n, y, x);
        vstd::arithmetic::div_mod::lemma_fundamental_div_mod_converse(v * n + u, n, v, u);
    }
}

} // verus!
