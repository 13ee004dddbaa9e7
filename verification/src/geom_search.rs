//! The decisions of the search for a frame's geometry: which candidates are tried, which of them
//! is best, and whether to look further. Scores are given by the bit patterns of double-precision
//! numbers, and the lower one is the better.
use crate::float_bits;
use vstd::prelude::*;

verus! {

/// The pattern of 0.02: an estimate that is less sure than that is not relied on.
pub const LOW_CONFIDENCE: u64 = 0x3F94_7AE1_47AE_147B;

/// The best score so far and the one behind it.
#[derive(Clone, Copy, Debug, PartialEq, Eq)]
pub struct BestTwo {
    pub best: u64,
    pub second: u64,
}

/// The two best after one more score: a better one pushes the best into second place.
pub open spec fn with_score(b: BestTwo, score: u64) -> BestTwo {
    if float_bits::less_double(score, b.best) {
        BestTwo { best: score, second: b.best }
    } else if float_bits::less_double(score, b.second) {
        BestTwo { best: b.best, second: score }
    } else {
        b
    }
}

/// The two best after the first `n` scores.
pub open spec fn after_scores(b: BestTwo, scores: Seq<u64>, n: nat) -> BestTwo
    decreases n,
{
    if n == 0 {
        b
    } else {
        with_score(after_scores(b, scores, (n - 1) as nat), scores[n - 1])
    }
}

impl BestTwo {
    pub fn new() -> (b: Self)
        ensures
            b.best == float_bits::INFINITY_DOUBLE,
            b.second == float_bits::INFINITY_DOUBLE,
    {
        BestTwo { best: float_bits::INFINITY_DOUBLE, second: float_bits::INFINITY_DOUBLE }
    }

    /// Takes a score into account and says whether it is the best now.
    pub fn offer(&mut self, score: u64) -> (is_best: bool)
        ensures
            *final(self) == with_score(*old(self), score),
            is_best == float_bits::less_double(score, old(self).best),
    {
        if float_bits::is_less_double(score, self.best) {
            self.second = self.best;
            self.best = score;
            true
        } else {
            if float_bits::is_less_double(score, self.second) {
                self.second = score;
            }
            false
        }
    }
}

/// Score `k` is the best of the first `n`, if `best` is not infinite, and `second` is the best of the
/// others, if it is not infinite either.
pub open spec fn are_two_least(scores: Seq<u64>, n: int, k: int, b: BestTwo) -> bool {
    &&& forall|i: int| 0 <= i < n ==> !float_bits::less_double(#[trigger] scores[i], b.best)
    &&& forall|i: int|
        0 <= i < n && i != k ==> !float_bits::less_double(#[trigger] scores[i], b.second)
    &&& b.best == float_bits::INFINITY_DOUBLE || (0 <= k < n && scores[k] == b.best)
    &&& b.second == float_bits::INFINITY_DOUBLE || exists|j: int|
        0 <= j < n && j != k && #[trigger] scores[j] == b.second
}

/// The best and the second are the two least of all scores, in whichever order they come.
pub proof fn law_best_two_are_least(scores: Seq<u64>)
    ensures
        exists|k: int| #[trigger]
            are_two_least(
                scores,
                scores.len() as int,
                k,
                after_scores(
                    BestTwo {
                        best: float_bits::INFINITY_DOUBLE,
                        second: float_bits::INFINITY_DOUBLE,
                    },
                    scores,
                    scores.len(),
                ),
            ),
{
    let k = lemma_best_two(scores, scores.len());
}

proof fn lemma_best_two(scores: Seq<u64>, n: nat) -> (k: int)
    requires
        n <= scores.len(),
    ensures
        ({
            let start = BestTwo {
                best: float_bits::INFINITY_DOUBLE,
                second: float_bits::INFINITY_DOUBLE,
            };
            let b = after_scores(start, scores, n);
            &&& !float_bits::is_nan_double(b.best)
            &&& !float_bits::is_nan_double(b.second)
            &&& float_bits::rank_double(b.best) <= float_bits::rank_double(b.second)
            &&& b.best == float_bits::INFINITY_DOUBLE ==> k == scores.len()
            &&& are_two_least(scores, n as int, k, b)
        }),
    decreases n,
{
    let start = BestTwo {
        best: float_bits::INFINITY_DOUBLE,
        second: float_bits::INFINITY_DOUBLE,
    };
    if n == 0 {
        scores.len() as int
    } else {
        let m = (n - 1) as nat;
        let k = lemma_best_two(scores, m);
        let was = after_scores(start, scores, m);
        let now = after_scores(start, scores, n);
        if float_bits::less_double(scores[m as int], was.best) {
            if was.best != float_bits::INFINITY_DOUBLE {
                assert(scores[k] == now.second);
            }
            m as int
        } else {
            if float_bits::less_double(scores[m as int], was.second) {
                assert(scores[m as int] == now.second);
            } else if was.second != float_bits::INFINITY_DOUBLE {
                let j = choose|j: int| 0 <= j < m && j != k && #[trigger] scores[j] == was.second;
                assert(scores[j] == now.second);
            }
            k
        }
    }
}

/// How far the first search goes, in pixels: less far where an earlier estimate is at hand.
pub fn first_search_px(search_px: i32, hinted: bool) -> (px: i32)
    ensures
        px == if hinted && search_px > 3 {
            3
        } else {
            search_px
        },
{
    if hinted && search_px > 3 {
        3
    } else {
        search_px
    }
}

/// How far the second search goes, in pixels: twice as far, at least two pixels further.
pub fn wide_search_px(search_px: i32) -> (px: i32)
    requires
        i32::MIN <= search_px * 2,
        search_px * 2 <= i32::MAX,
        search_px + 2 <= i32::MAX,
    ensures
        px == if search_px * 2 > search_px + 2 {
            search_px * 2
        } else {
            search_px + 2
        },
{
    let twice: i32 = search_px * 2;
    let more: i32 = search_px + 2;
    if twice > more {
        twice
    } else {
        more
    }
}

/// Whether to search further: where the estimate is not relied on, and there is no earlier one or
/// the earlier ones have not been relied on twice in a row.
pub fn wants_wide_search(low_streak: Option<usize>, confidence: u64) -> (r: bool)
    ensures
        r == (float_bits::less_double(confidence, LOW_CONFIDENCE) && (low_streak matches Some(n)
            ==> n >= 2)),
{
    let allowed: bool = match low_streak {
        None => true,
        Some(n) => n >= 2,
    };
    allowed && float_bits::is_less_double(confidence, LOW_CONFIDENCE)
}

/// How many estimates in a row have not been relied on, after one more.
pub fn next_low_streak(streak: usize, confidence: u64) -> (n: usize)
    ensures
        n == if !float_bits::less_double(confidence, LOW_CONFIDENCE) {
            0
        } else if streak == usize::MAX {
            usize::MAX as int
        } else {
            streak + 1
        },
{
    if float_bits::is_less_double(confidence, LOW_CONFIDENCE) {
        if streak == usize::MAX {
            usize::MAX
        } else {
            streak + 1
        }
    } else {
        0
    }
}

/// The shifts that are tried within `px` pixels: row by row from the top left.
pub open spec fn shifts_within(px: int) -> Seq<(i32, i32)> {
    let side = 2 * px + 1;
    Seq::new(
        if px < 0 {
            0
        } else {
            (side * side) as nat
        },
        |i: int| ((i % side - px) as i32, (i / side - px) as i32),
    )
}

pub fn shift_grid(px: i32) -> (r: Vec<(i32, i32)>)
    requires
        (2 * px + 1) * (2 * px + 1) <= usize::MAX,
        2 * px + 1 <= i32::MAX,
    ensures
        r@ == shifts_within(px as int),
{
    let mut r: Vec<(i32, i32)> = Vec::new();
    if px < 0 {
        assert(r@ =~= shifts_within(px as int));
        return r;
    }
    let ghost side = 2 * px + 1;
    let ghost want = shifts_within(px as int);
    let mut dy: i32 = -px;
    assert((0int) * side == 0) by (nonlinear_arith);
    assert((dy + px) * side == 0);
    assert(r@ =~= want.take((dy + px) * side));
    while dy <= px
        invariant
            0 <= px,
            2 * px + 1 <= i32::MAX,
            -px <= dy <= px + 1,
            side == 2 * px + 1,
            want == shifts_within(px as int),
            r@ == want.take((dy + px) * side),
        decreases px + 1 - dy,
    {
        let ghost row = dy + px;
        assert(0 <= row * side && row * side + side <= side * side && (row + 1) * side == row * side
            + side) by (nonlinear_arith)
            requires
                0 <= row,
                row + 1 <= side,
        ;
        let mut dx: i32 = -px;
        while dx <= px
            invariant
                0 <= px,
                2 * px + 1 <= i32::MAX,
                -px <= dy <= px,
                -px <= dx <= px + 1,
                side == 2 * px + 1,
                row == dy + px,
                0 <= row * side,
                row * side + side <= side * side,
                want == shifts_within(px as int),
                r@ == want.take(row * side + dx + px),
            decreases px + 1 - dx,
        {
            r.push((dx, dy));
            proof {
                let k = row * side + dx + px;
                vstd::arithmetic::div_mod::lemma_fundamental_div_mod_converse(
                    k,
                    side,
                    row,
                    dx + px,
                );
                assert(want[k] == (dx, dy));
                assert(want.take(k + 1) =~= want.take(k).push(want[k]));
            }
            dx = dx + 1;
        }
        dy = dy + 1;
    }
    assert(want.take((dy + px) * side) =~= want);
    r
}

/// How many of the least and of the greatest of `n` samples are left out of their mean.
pub fn trim_of(n: usize) -> (t: usize)
    ensures
        t == if n >= 8 {
            2int
        } else if n >= 4 {
            1
        } else {
            0
        },
        2 * t <= n,
        n > 0 ==> 2 * t < n,
{
    if n >= 8 {
        2
    } else if n >= 4 {
        1
    } else {
        0
    }
}

/// The shifts within `px` pixels are tried each exactly once, and no others.
pub proof fn law_each_shift_is_tried_once(px: int, dx: i32, dy: i32)
    requires
        0 <= px,
        2 * px + 1 <= i32::MAX,
    ensures
        shifts_within(px).contains((dx, dy)) <==> -px <= dx <= px && -px <= dy <= px,
        shifts_within(px).no_duplicates(),
{
    let side = 2 * px + 1;
    let all = shifts_within(px);
    assert(side * side >= 0) by (nonlinear_arith);
    if -px <= dx <= px && -px <= dy <= px {
        let k = (dy + px) * side + dx + px;
        assert(0 <= k < side * side) by (nonlinear_arith)
            requires
                0 <= dy + px < side,
                0 <= dx + px < side,
                k == (dy + px) * side + dx + px,
        ;
        vstd::arithmetic::div_mod::lemma_fundamental_div_mod_converse(k, side, dy + px, dx + px);
        assert(all[k] == (dx, dy));
    }
    assert forall|i: int| 0 <= i < all.len() implies 0 <= #[trigger] (i / side) < side && 0 <= i
        % side < side && i == side * (i / side) + i % side by {
        vstd::arithmetic::div_mod::lemma_fundamental_div_mod(i, side);
        vstd::arithmetic::div_mod::lemma_mod_bound(i, side);
        assert(0 <= i / side < side) by (nonlinear_arith)
            requires
                i == side * (i / side) + i % side,
                0 <= i % side < side,
                0 <= i < side * side,
        ;
    }
    if all.contains((dx, dy)) {
        let i = choose|i: int| 0 <= i < all.len() && all[i] == (dx, dy);
        assert(0 <= i / side < side);
    }
    assert forall|i: int, j: int| 0 <= i < j < all.len() implies all[i] != all[j] by {
        assert(0 <= i / side < side);
        assert(0 <= j / side < side);
    }
}

} // verus!
