//! What the calibration strip of a frame says of the levels: which samples belong to which level,
//! and levels that never fall. Values are given by the bit patterns of double-precision numbers.
use crate::float_bits;
use vstd::prelude::*;

verus! {

/// The places of a level among the first `n` blocks of the strip.
pub open spec fn places_of(cal_pos: Seq<(usize, usize, u8)>, lvl: int, n: nat) -> Seq<usize>
    decreases n,
{
    if n == 0 {
        Seq::empty()
    } else {
        let before = places_of(cal_pos, lvl, (n - 1) as nat);
        if cal_pos[n - 1].2 == lvl {
            before.push((n - 1) as usize)
        } else {
            before
        }
    }
}

fn level_places_of(cal_pos: &[(usize, usize, u8)], lvl: usize) -> (r: Vec<usize>)
    ensures
        r@ == places_of(cal_pos@, lvl as int, cal_pos@.len()),
{
    let mut r: Vec<usize> = Vec::new();
    let mut i: usize = 0;
    while i < cal_pos.len()
        invariant
            i <= cal_pos@.len(),
            r@ == places_of(cal_pos@, lvl as int, i as nat),
        decreases cal_pos@.len() - i,
    {
        if cal_pos[i].2 as usize == lvl {
            r.push(i);
        }
        i = i + 1;
    }
    r
}

/// For each of `m` levels, where its blocks stand in the strip. There is nothing to calibrate by
/// where a level has none.
pub fn level_places(cal_pos: &[(usize, usize, u8)], m: usize) -> (r: Option<Vec<Vec<usize>>>)
    requires
        forall|i: int| 0 <= i < cal_pos@.len() ==> (#[trigger] cal_pos@[i]).2 < m,
    ensures
        match r {
            Some(v) => {
                &&& v@.len() == m
                &&& forall|l: int|
                    0 <= l < m ==> (#[trigger] v@[l])@ == places_of(cal_pos@, l, cal_pos@.len())
                        && v@[l]@.len() > 0
            },
            None => exists|l: int|
                0 <= l < m && (#[trigger] places_of(cal_pos@, l, cal_pos@.len())).len() == 0,
        },
{
    let mut v: Vec<Vec<usize>> = Vec::new();
    let mut l: usize = 0;
    while l < m
        invariant
            l <= m,
            v@.len() == l,
            forall|k: int|
                0 <= k < l ==> (#[trigger] v@[k])@ == places_of(cal_pos@, k, cal_pos@.len())
                    && v@[k]@.len() > 0,
        decreases m - l,
    {
        let places: Vec<usize> = level_places_of(cal_pos, l);
        if places.len() == 0 {
            assert(places_of(cal_pos@, l as int, cal_pos@.len()).len() == 0);
            return None;
        }
        v.push(places);
        l = l + 1;
    }
    Some(v)
}

/// Neighbouring levels pooled where they would fall. A pool has one value and counts the levels in
/// it; the mean of two pools is given from outside.
pub struct Pools {
    pub values: Vec<u64>,
    pub counts: Vec<usize>,
}

/// How many levels are in the first `n` pools.
pub open spec fn pooled(counts: Seq<usize>, n: nat) -> nat
    decreases n,
{
    if n == 0 {
        0
    } else {
        pooled(counts, (n - 1) as nat) + counts[n - 1] as nat
    }
}

/// None of the first `n` values falls below the one before it.
pub open spec fn is_rising(values: Seq<u64>, n: int) -> bool {
    forall|i: int, j: int|
        0 <= i && j == i + 1 && j < n ==> float_bits::at_least_double(
            #[trigger] values[j],
            #[trigger] values[i],
        )
}

/// The value of each level, pool by pool.
pub open spec fn spread(values: Seq<u64>, counts: Seq<usize>, n: nat) -> Seq<u64>
    decreases n,
{
    if n == 0 {
        Seq::empty()
    } else {
        spread(values, counts, (n - 1) as nat) + Seq::new(
            counts[n - 1] as nat,
            |i: int| values[n - 1],
        )
    }
}

impl Pools {
    /// No pool but the last one may have a value that falls.
    pub open spec fn wf(&self) -> bool {
        &&& self.values@.len() == self.counts@.len()
        &&& pooled(self.counts@, self.counts@.len()) <= usize::MAX
        &&& is_rising(self.values@, self.values@.len() - 1)
    }

    /// No value falls.
    pub open spec fn is_settled(&self) -> bool {
        is_rising(self.values@, self.values@.len() as int)
    }

    pub fn new() -> (p: Self)
        ensures
            p.wf(),
            p.is_settled(),
            p.values@.len() == 0,
    {
        Pools { values: Vec::new(), counts: Vec::new() }
    }

    /// Adds a level.
    pub fn push(&mut self, value: u64)
        requires
            old(self).wf(),
            old(self).is_settled(),
            pooled(old(self).counts@, old(self).counts@.len()) < usize::MAX,
        ensures
            final(self).wf(),
            final(self).values@ == old(self).values@.push(value),
            final(self).counts@ == old(self).counts@.push(1),
            pooled(final(self).counts@, final(self).counts@.len()) == pooled(
                old(self).counts@,
                old(self).counts@.len(),
            ) + 1,
    {
        proof {
            lemma_pooled_prefix(self.counts@, self.counts@.push(1), self.counts@.len());
        }
        self.values.push(value);
        self.counts.push(1);
    }

    /// The last two pools, where the last one's value is not known to be at least the other's.
    pub fn falling(&self) -> (r: Option<((u64, usize), (u64, usize))>)
        requires
            self.wf(),
        ensures
            match r {
                Some((a, b)) => {
                    let n = self.values@.len();
                    &&& n >= 2
                    &&& a == (self.values@[n - 2], self.counts@[n - 2])
                    &&& b == (self.values@[n - 1], self.counts@[n - 1])
                    &&& !float_bits::at_least_double(b.0, a.0)
                },
                None => self.is_settled(),
            },
    {
        let n: usize = self.values.len();
        if n < 2 {
            return None;
        }
        let a: (u64, usize) = (self.values[n - 2], self.counts[n - 2]);
        let b: (u64, usize) = (self.values[n - 1], self.counts[n - 1]);
        if float_bits::is_at_least_double(b.0, a.0) {
            None
        } else {
            Some((a, b))
        }
    }

    /// Makes one pool of the last two.
    pub fn merge(&mut self, mean: u64)
        requires
            old(self).wf(),
            old(self).values@.len() >= 2,
        ensures
            final(self).wf(),
            ({
                let n = old(self).values@.len();
                &&& final(self).values@ == old(self).values@.take(n - 2).push(mean)
                &&& final(self).counts@ == old(self).counts@.take(n - 2).push(
                    (old(self).counts@[n - 2] + old(self).counts@[n - 1]) as usize,
                )
            }),
            pooled(final(self).counts@, final(self).counts@.len()) == pooled(
                old(self).counts@,
                old(self).counts@.len(),
            ),
    {
        let ghost counts = self.counts@;
        let ghost values = self.values@;
        let ghost n = counts.len();
        proof {
            reveal_with_fuel(pooled, 3);
        }
        let last: usize = match self.counts.pop() {
            Some(c) => c,
            None => 0,
        };
        let c: usize = self.counts.len();
        let both: usize = self.counts[c - 1] + last;
        self.counts.set(c - 1, both);
        self.values.pop();
        let v: usize = self.values.len();
        self.values.set(v - 1, mean);
        proof {
            assert(self.counts@ =~= counts.take(n - 2).push(both));
            assert(self.values@ =~= values.take(n - 2).push(mean));
            lemma_pooled_prefix(counts, self.counts@, (n - 2) as nat);
            assert forall|i: int, j: int|
                0 <= i && j == i + 1 && j < self.values@.len()
                    - 1 implies float_bits::at_least_double(
                #[trigger] self.values@[j],
                #[trigger] self.values@[i],
            ) by {
                assert(float_bits::at_least_double(values[j], values[i]));
            }
        }
    }

    /// The value of each level. None falls below an earlier one.
    pub fn levels(&self) -> (r: Vec<u64>)
        requires
            self.wf(),
            self.is_settled(),
        ensures
            r@ == spread(self.values@, self.counts@, self.values@.len()),
            r@.len() == pooled(self.counts@, self.counts@.len()),
            forall|i: int, j: int|
                0 <= i < j < r@.len() ==> #[trigger] r@[i] == #[trigger] r@[j]
                    || float_bits::at_least_double(r@[j], r@[i]),
    {
        let mut r: Vec<u64> = Vec::new();
        let mut p: usize = 0;
        while p < self.values.len()
            invariant
                p <= self.values@.len(),
                self.wf(),
                r@ == spread(self.values@, self.counts@, p as nat),
            decreases self.values@.len() - p,
        {
            let value: u64 = self.values[p];
            let count: usize = self.counts[p];
            let ghost before = r@;
            let mut i: usize = 0;
            assert(r@ =~= before + Seq::new(0, |i: int| value));
            while i < count
                invariant
                    i <= count,
                    r@ == before + Seq::new(i as nat, |i: int| value),
                decreases count - i,
            {
                r.push(value);
                i = i + 1;
                assert(r@ =~= before + Seq::new(i as nat, |i: int| value));
            }
            assert(r@ =~= before + Seq::new(
                self.counts@[p as int] as nat,
                |i: int| self.values@[p as int],
            ));
            p = p + 1;
        }
        proof {
            lemma_spread_rises(self.values@, self.counts@, self.values@.len());
        }
        r
    }
}

proof fn lemma_pooled_prefix(a: Seq<usize>, b: Seq<usize>, n: nat)
    requires
        n <= a.len(),
        n <= b.len(),
        forall|i: int| 0 <= i < n ==> a[i] == b[i],
    ensures
        pooled(a, n) == pooled(b, n),
    decreases n,
{
    if n > 0 {
        lemma_pooled_prefix(a, b, (n - 1) as nat);
    }
}

proof fn lemma_rising_pair(values: Seq<u64>, n: int, i: int, j: int)
    requires
        is_rising(values, n),
        0 <= i < j < n,
    ensures
        float_bits::at_least_double(values[j], values[i]),
    decreases j - i,
{
    assert(float_bits::at_least_double(values[i + 1], values[i]));
    if j > i + 1 {
        lemma_rising_pair(values, n, i + 1, j);
    }
}

proof fn lemma_spread_from(values: Seq<u64>, counts: Seq<usize>, n: nat, i: int) -> (p: int)
    requires
        0 <= i < spread(values, counts, n).len(),
    ensures
        0 <= p < n,
        spread(values, counts, n)[i] == values[p],
    decreases n,
{
    let before = spread(values, counts, (n - 1) as nat);
    if i < before.len() {
        lemma_spread_from(values, counts, (n - 1) as nat, i)
    } else {
        n - 1
    }
}

proof fn lemma_spread_rises(values: Seq<u64>, counts: Seq<usize>, n: nat)
    requires
        n <= values.len(),
        n <= counts.len(),
        is_rising(values, values.len() as int),
    ensures
        spread(values, counts, n).len() == pooled(counts, n),
        forall|i: int, j: int|
            0 <= i < j < spread(values, counts, n).len() ==> #[trigger] spread(
                values,
                counts,
                n,
            )[i] == #[trigger] spread(values, counts, n)[j] || float_bits::at_least_double(
                spread(values, counts, n)[j],
                spread(values, counts, n)[i],
            ),
    decreases n,
{
    if n > 0 {
        let m = (n - 1) as nat;
        lemma_spread_rises(values, counts, m);
        let before = spread(values, counts, m);
        let all = spread(values, counts, n);
        assert forall|i: int, j: int|
            0 <= i < j < all.len() implies #[trigger] all[i] == #[trigger] all[j]
            || float_bits::at_least_double(all[j], all[i]) by {
            if j < before.len() {
                assert(all[i] == before[i] && all[j] == before[j]);
            } else if i < before.len() {
                assert(all[i] == before[i]);
                let p = lemma_spread_from(values, counts, m, i);
                lemma_rising_pair(values, values.len() as int, p, n - 1);
            }
        }
    }
}

/// The places of a level are the blocks of the strip that show it, each once, from left to right.
pub proof fn law_places_are_those_of_the_level(
    cal_pos: Seq<(usize, usize, u8)>,
    lvl: int,
    n: nat,
    i: usize,
)
    requires
        n <= cal_pos.len() <= usize::MAX,
    ensures
        places_of(cal_pos, lvl, n).contains(i) <==> i < n && cal_pos[i as int].2 == lvl,
        forall|a: int, b: int|
            0 <= a < b < places_of(cal_pos, lvl, n).len() ==> #[trigger] places_of(
                cal_pos,
                lvl,
                n,
            )[a] < #[trigger] places_of(cal_pos, lvl, n)[b],
        forall|a: int|
            0 <= a < places_of(cal_pos, lvl, n).len() ==> #[trigger] places_of(cal_pos, lvl, n)[a]
                < n,
    decreases n,
{
    if n > 0 {
        let m = (n - 1) as nat;
        law_places_are_those_of_the_level(cal_pos, lvl, m, i);
        let before = places_of(cal_pos, lvl, m);
        let now = places_of(cal_pos, lvl, n);
        if cal_pos[m as int].2 == lvl {
            assert(now == before.push(m as usize));
            assert(now[before.len() as int] == m as usize);
            if before.contains(i) {
                let a = choose|a: int| 0 <= a < before.len() && before[a] == i;
                assert(now[a] == i);
            }
            if now.contains(i) && i != m {
                let a = choose|a: int| 0 <= a < now.len() && now[a] == i;
                assert(before[a] == i);
            }
        }
    }
}

/// Each level has the value of the pool that it is in, the pools taking the levels in order.
pub proof fn law_level_has_its_pools_value(values: Seq<u64>, counts: Seq<usize>, n: nat, p: int, i: int)
    requires
        0 <= p < n,
        pooled(counts, p as nat) <= i < pooled(counts, (p + 1) as nat),
    ensures
        i < spread(values, counts, n).len(),
        spread(values, counts, n)[i] == values[p],
    decreases n,
{
    let m = (n - 1) as nat;
    lemma_spread_len(values, counts, m);
    if p < m {
        law_level_has_its_pools_value(values, counts, m, p, i);
    }
}

proof fn lemma_spread_len(values: Seq<u64>, counts: Seq<usize>, n: nat)
    ensures
        spread(values, counts, n).len() == pooled(counts, n),
    decreases n,
{
    if n > 0 {
        lemma_spread_len(values, counts, (n - 1) as nat);
    }
}

} // verus!
