//! Sparse parity matrices drawn at random until one is found that can be inverted.
use crate::counting;
use crate::gf2;
use crate::matrix;
use crate::rng;
use crate::rng::SplitMix64;
use vstd::prelude::*;

verus! {

/// The `n`-th number drawn from `state`, reduced below `m`.
#[verifier::opaque]
pub open spec fn reduced(state: u64, m: nat, n: nat) -> usize {
    (rng::drawn(state, n) as nat % m) as usize
}

/// The `n`-th number below `m` is the first that is not excluded.
pub open spec fn is_first_fresh(state: u64, m: nat, excluded: Seq<usize>, n: nat) -> bool {
    &&& n > 0
    &&& !excluded.contains(reduced(state, m, n))
    &&& forall|k: nat| 0 < k < n ==> excluded.contains(#[trigger] reduced(state, m, k))
}

/// How many draws it takes to come to a number that is not excluded.
pub open spec fn fresh_draws(state: u64, m: nat, excluded: Seq<usize>) -> nat {
    choose|n: nat| is_first_fresh(state, m, excluded, n)
}

pub open spec fn fresh_value(state: u64, m: nat, excluded: Seq<usize>) -> usize {
    reduced(state, m, fresh_draws(state, m, excluded))
}

/// `w` distinct numbers below `m` other than `j`, each the first fresh one.
pub open spec fn picks(state: u64, m: nat, j: usize, w: nat) -> Seq<usize>
    decreases w,
{
    if w == 0 {
        Seq::empty()
    } else {
        let before = picks(state, m, j, (w - 1) as nat);
        before.push(
            fresh_value(
                picks_state(state, m, j, (w - 1) as nat),
                m,
                before.push(j),
            ),
        )
    }
}

/// The generator's state after `w` picks.
pub open spec fn picks_state(state: u64, m: nat, j: usize, w: nat) -> u64
    decreases w,
{
    if w == 0 {
        state
    } else {
        let s = picks_state(state, m, j, (w - 1) as nat);
        let excluded = picks(state, m, j, (w - 1) as nat).push(j);
        rng::state_after(s, fresh_draws(s, m, excluded))
    }
}

/// The generator's state before the picks of column `j`.
pub open spec fn column_state(state: u64, m: nat, w: nat, j: nat) -> u64
    decreases j,
{
    if j == 0 {
        state
    } else {
        let i = (j - 1) as nat;
        picks_state(column_state(state, m, w, i), m, i as usize, w)
    }
}

/// Column `c` has a one in row `r`: on the diagonal, and where row `r` was picked for it.
pub open spec fn in_column(state: u64, m: nat, w: nat, r: int, c: nat) -> bool {
    r == c || picks(column_state(state, m, w, c), m, c as usize, w).contains(r as usize)
}

/// The columns below `n` with a one in row `r`, ascending.
pub open spec fn scattered_row(state: u64, m: nat, w: nat, r: int, n: nat) -> Seq<usize>
    decreases n,
{
    if n == 0 {
        Seq::empty()
    } else {
        let c = (n - 1) as nat;
        let before = scattered_row(state, m, w, r, c);
        if in_column(state, m, w, r, c) {
            before.push(c as usize)
        } else {
            before
        }
    }
}

/// The rows of a square matrix whose columns hold the diagonal and `w` picked places each.
pub open spec fn scattered_rows(state: u64, m: nat, w: nat) -> Seq<Seq<usize>> {
    Seq::new(m, |r: int| scattered_row(state, m, w, r, m))
}

/// The rows with the diagonal and the place left of it.
pub open spec fn dual_diagonal(m: nat) -> Seq<Seq<usize>> {
    Seq::new(
        m,
        |r: int|
            if r == 0 {
                seq![0usize]
            } else {
                seq![r as usize, (r - 1) as usize]
            },
    )
}

/// The rows that attempt number `attempt` scatters.
pub open spec fn attempt_rows(m: nat, seed: u64, w: nat, attempt: u64) -> Seq<Seq<usize>> {
    scattered_rows(seed ^ 0xA5F0_91C3_D27B_4E11 ^ attempt, m, w)
}

/// The first scattered matrix, from attempt `attempt` on, that is not singular; the dual diagonal
/// after the last attempt.
pub open spec fn parity_rows(m: nat, seed: u64, w: nat, attempt: u64) -> Seq<Seq<usize>>
    decreases 64 - attempt,
{
    if attempt >= 64 {
        dual_diagonal(m)
    } else {
        let rows = attempt_rows(m, seed, w, attempt);
        if gf2::is_singular(gf2::dense_of(rows, m)) {
            parity_rows(m, seed, w, (attempt + 1) as u64)
        } else {
            rows
        }
    }
}

/// How many places each column gets besides the diagonal.
pub open spec fn extra_weight(info_col_w: nat) -> nat {
    if info_col_w >= 4 {
        2
    } else {
        1
    }
}

proof fn lemma_first_fresh_unique(state: u64, m: nat, excluded: Seq<usize>, n: nat)
    requires
        is_first_fresh(state, m, excluded, n),
    ensures
        fresh_draws(state, m, excluded) == n,
{
    let k = fresh_draws(state, m, excluded);
    assert(is_first_fresh(state, m, excluded, k));
    if k < n {
        assert(excluded.contains(reduced(state, m, k)));
    }
    if n < k {
        assert(excluded.contains(reduced(state, m, n)));
    }
}

proof fn lemma_next_reduced(state: u64, m: nat, n: nat)
    requires
        1 < m <= usize::MAX,
    ensures
        rng::ranged(rng::state_after(state, n), m) == reduced(state, m, n + 1),
        rng::state_after_ranged(rng::state_after(state, n), m) == rng::state_after(state, n + 1),
{
    reveal(reduced);
    rng::lemma_state_after_sum(state, n, 1);
    rng::lemma_state_after_sum(state, n + 1, 0);
}

/// Some draw from `state` is not excluded.
proof fn lemma_fresh_exists(state: u64, m: nat, excluded: Seq<usize>) -> (n: nat)
    requires
        excluded.len() < m <= usize::MAX,
    ensures
        n > 0,
        !excluded.contains(reduced(state, m, n)),
{
    let free = counting::lemma_some_missing(excluded, m);
    let n = rng::lemma_every_number_comes_up(state, free as u64);
    reveal(reduced);
    vstd::arithmetic::div_mod::lemma_small_mod(free as nat, m);
    n
}

/// Draws until a number comes up that is not excluded.
fn draw_fresh(rng: &mut SplitMix64, m: usize, excluded: &Vec<usize>) -> (r: usize)
    requires
        m > 1,
        excluded.len() < m,
    ensures
        r == fresh_value(old(rng).state, m as nat, excluded@),
        r < m,
        !excluded@.contains(r),
        final(rng).state == rng::state_after(
            old(rng).state,
            fresh_draws(old(rng).state, m as nat, excluded@),
        ),
{
    let ghost s0 = rng.state;
    let ghost ex = excluded@;
    let ghost last = lemma_fresh_exists(s0, m as nat, ex);
    let ghost mut n: nat = 0;
    proof {
        rng::lemma_state_after_zero(s0);
    }
    loop
        invariant
            m > 1,
            s0 == old(rng).state,
            ex == excluded@,
            rng.state == rng::state_after(s0, n),
            forall|k: nat| 0 < k <= n ==> ex.contains(#[trigger] reduced(s0, m as nat, k)),
            n < last,
            !ex.contains(reduced(s0, m as nat, last)),
        decreases last - n,
    {
        let r: usize = rng.gen_range_usize(m);
        proof {
            lemma_next_reduced(s0, m as nat, n);
            n = n + 1;
        }
        if !contains_index(excluded, r) {
            proof {
                assert(is_first_fresh(s0, m as nat, ex, n));
                lemma_first_fresh_unique(s0, m as nat, ex, n);
            }
            return r;
        }
    }
}

fn contains_index(v: &Vec<usize>, x: usize) -> (r: bool)
    ensures
        r == v@.contains(x),
{
    let mut i: usize = 0;
    while i < v.len()
        invariant
            i <= v.len(),
            forall|k: int| 0 <= k < i ==> v@[k] != x,
        decreases v.len() - i,
    {
        if v[i] == x {
            return true;
        }
        i = i + 1;
    }
    false
}

/// Picks the rows other than `j` in which column `j` gets a one.
fn pick_rows(rng: &mut SplitMix64, m: usize, j: usize, w: usize) -> (picked: Vec<usize>)
    requires
        0 < w < m,
        j < m,
    ensures
        picked@ == picks(old(rng).state, m as nat, j, w as nat),
        forall|i: int| 0 <= i < picked@.len() ==> #[trigger] picked@[i] < m && picked@[i] != j,
        picked@.no_duplicates(),
        final(rng).state == picks_state(old(rng).state, m as nat, j, w as nat),
{
    let ghost s0 = rng.state;
    let mut excluded: Vec<usize> = Vec::with_capacity(w + 1);
    let mut picked: Vec<usize> = Vec::with_capacity(w);
    while picked.len() < w
        invariant
            0 < w < m,
            j < m,
            picked.len() <= w,
            picked@ == picks(s0, m as nat, j, picked@.len()),
            rng.state == picks_state(s0, m as nat, j, picked@.len()),
            forall|i: int| 0 <= i < picked@.len() ==> #[trigger] picked@[i] < m && picked@[i] != j,
            picked@.no_duplicates(),
        decreases w - picked.len(),
    {
        let ghost before = picked@;
        excluded.clear();
        let mut i: usize = 0;
        while i < picked.len()
            invariant
                i <= picked.len(),
                excluded@ == picked@.take(i as int),
            decreases picked.len() - i,
        {
            excluded.push(picked[i]);
            assert(picked@.take(i + 1) =~= picked@.take(i as int).push(picked@[i as int]));
            i = i + 1;
        }
        excluded.push(j);
        assert(excluded@ =~= before.push(j));
        let r: usize = draw_fresh(rng, m, &excluded);
        proof {
            assert(excluded@[before.len() as int] == j);
            assert forall|k: int| 0 <= k < before.len() implies before[k] != r by {
                assert(excluded@[k] == before[k]);
            }
        }
        picked.push(r);
    }
    picked
}

/// The rows of the matrix that the generator scatters.
fn scatter(m: usize, w: usize, seed: u64) -> (rows: Vec<Vec<usize>>)
    requires
        m == 0 || 0 < w < m,
    ensures
        matrix::rows_of(rows@) == scattered_rows(seed, m as nat, w as nat),
{
    let mut rng: SplitMix64 = SplitMix64::new(seed);
    let mut rows: Vec<Vec<usize>> = Vec::with_capacity(m);
    let mut i: usize = 0;
    while i < m
        invariant
            i <= m,
            rows.len() == i,
            forall|r: int| 0 <= r < i ==> (#[trigger] rows@[r])@ == Seq::<usize>::empty(),
        decreases m - i,
    {
        rows.push(Vec::new());
        i = i + 1;
    }
    let mut j: usize = 0;
    while j < m
        invariant
            m == 0 || 0 < w < m,
            j <= m,
            rows.len() == m,
            rng.state == column_state(seed, m as nat, w as nat, j as nat),
            forall|r: int|
                0 <= r < m ==> (#[trigger] rows@[r])@ == scattered_row(
                    seed,
                    m as nat,
                    w as nat,
                    r,
                    j as nat,
                ),
        decreases m - j,
    {
        let ghost start = rows@;
        let picked: Vec<usize> = pick_rows(&mut rng, m, j, w);
        let ghost p = picked@;
        push_at(&mut rows, j, j);
        let mut i: usize = 0;
        while i < picked.len()
            invariant
                p == picked@,
                i <= p.len(),
                rows.len() == m,
                start.len() == m,
                j < m,
                p.no_duplicates(),
                forall|k: int| 0 <= k < p.len() ==> #[trigger] p[k] < m && p[k] != j,
                forall|r: int|
                    0 <= r < m ==> (#[trigger] rows@[r])@ == if r == j || p.take(
                        i as int,
                    ).contains(r as usize) {
                        start[r]@.push(j)
                    } else {
                        start[r]@
                    },
            decreases p.len() - i,
        {
            let ghost before = rows@;
            let r: usize = picked[i];
            push_at(&mut rows, r, j);
            proof {
                let now = p.take(i + 1);
                assert(now =~= p.take(i as int).push(r));
                assert(!p.take(i as int).contains(r)) by {
                    if p.take(i as int).contains(r) {
                        let k = choose|k: int| 0 <= k < i && p.take(i as int)[k] == r;
                        assert(p[k] == r);
                    }
                }
                assert(p.take(i as int).push(r)[i as int] == r);
                assert forall|q: int| 0 <= q < m implies (#[trigger] rows@[q])@ == if q == j
                    || now.contains(q as usize) {
                    start[q]@.push(j)
                } else {
                    start[q]@
                } by {
                    if q == r {
                        assert(now[i as int] == q as usize);
                        assert(before[q]@ == start[q]@);
                    } else {
                        assert(rows@[q]@ == before[q]@);
                        if now.contains(q as usize) {
                            let k = choose|k: int| 0 <= k < now.len() && now[k] == q as usize;
                            assert(p.take(i as int)[k] == q as usize);
                        }
                        if p.take(i as int).contains(q as usize) {
                            let k = choose|k: int| 0 <= k < i && p.take(i as int)[k] == q as usize;
                            assert(now[k] == q as usize);
                        }
                    }
                }
            }
            i = i + 1;
        }
        assert(p.take(i as int) =~= p);
        j = j + 1;
    }
    assert(matrix::rows_of(rows@) =~= scattered_rows(seed, m as nat, w as nat));
    rows
}

/// Appends `x` to row `r`.
pub fn push_at(rows: &mut Vec<Vec<usize>>, r: usize, x: usize)
    requires
        r < old(rows).len(),
    ensures
        final(rows)@.len() == old(rows)@.len(),
        final(rows)@[r as int]@ == old(rows)@[r as int]@.push(x),
        forall|q: int|
            0 <= q < old(rows)@.len() && q != r ==> (#[trigger] final(rows)@[q]) == old(rows)@[q],
{
    let row: &mut Vec<usize> = &mut rows[r];
    row.push(x);
}

proof fn lemma_dual_diagonal_regular(m: nat)
    requires
        m <= usize::MAX,
    ensures
        !gf2::is_singular(gf2::dense_of(dual_diagonal(m), m)),
{
    let rows = dual_diagonal(m);
    let d = gf2::dense_of(rows, m);
    if gf2::is_singular(d) {
        let y = choose|y: Seq<bool>| #[trigger]
            gf2::maps_to(d, y, gf2::falses(d.len())) && y != gf2::falses(d.len());
        assert forall|r: int| 0 <= r < m implies !(#[trigger] y[r]) by {
            lemma_dual_diagonal_kernel(m, y, r);
        }
        assert(y =~= gf2::falses(m));
    }
}

proof fn lemma_dual_diagonal_kernel(m: nat, y: Seq<bool>, r: int)
    requires
        m <= usize::MAX,
        0 <= r < m,
        gf2::maps_to(gf2::dense_of(dual_diagonal(m), m), y, gf2::falses(m)),
    ensures
        !y[r],
    decreases r,
{
    let d = gf2::dense_of(dual_diagonal(m), m);
    let row = dual_diagonal(m)[r];
    assert(d[r] == gf2::dense_row(row, m, row.len()));
    assert(gf2::parity(d[r], y, m) == gf2::falses(m)[r]);
    assert forall|i: int| 0 <= i < row.len() implies #[trigger] row[i] < m by {}
    gf2::lemma_dense_parity(row, m, y, row.len());
    reveal_with_fuel(gf2::sparse_parity, 3);
    if r > 0 {
        lemma_dual_diagonal_kernel(m, y, r - 1);
    }
}

/// A sparse square matrix with an inverse, and that inverse.
pub fn gen_ldpc_h2_rows_and_inv(m: usize, seed: u64, info_col_w: usize) -> (r: (
    Vec<Vec<usize>>,
    Vec<Vec<u8>>,
))
    requires
        m == 0 || m > extra_weight(info_col_w as nat),
    ensures
        matrix::rows_of(r.0@) == parity_rows(m as nat, seed, extra_weight(info_col_w as nat), 0),
        gf2::is_inverse(gf2::dense_of(matrix::rows_of(r.0@), m as nat), matrix::rows_of(r.1@)),
{
    let w: usize = if info_col_w >= 4 {
        2
    } else {
        1
    };
    let ghost first = parity_rows(m as nat, seed, w as nat, 0);
    let mut attempt: u64 = 0;
    while attempt < 64
        invariant
            attempt <= 64,
            m == 0 || 0 < w < m,
            first == parity_rows(m as nat, seed, w as nat, attempt),
            w == extra_weight(info_col_w as nat),
            first == parity_rows(m as nat, seed, extra_weight(info_col_w as nat), 0),
        decreases 64 - attempt,
    {
        let rows: Vec<Vec<usize>> = scatter(m, w, seed ^ 0xA5F0_91C3_D27B_4E11 ^ attempt);
        let dense: Vec<Vec<u8>> = gf2::dense_from_sparse_rows(rows.as_slice(), m);
        let found: Option<Vec<Vec<u8>>> = gf2::gf2_invert_dense(dense.as_slice());
        match found {
            Some(inv) => {
                proof {
                    gf2::lemma_inverse_not_singular(
                        gf2::dense_of(matrix::rows_of(rows@), m as nat),
                        matrix::rows_of(inv@),
                    );
                }
                return (rows, inv);
            },
            None => {
                if m == 0 {
                    proof {
                        lemma_empty_regular();
                        assert(matrix::rows_of(rows@) =~= Seq::<Seq<usize>>::empty());
                    }
                    let inv: Vec<Vec<u8>> = Vec::new();
                    assert(matrix::rows_of(inv@) =~= Seq::<Seq<u8>>::empty());
                    assert(gf2::dense_of(matrix::rows_of(rows@), 0) =~= Seq::<Seq<u8>>::empty());
                    return (rows, inv);
                }
            },
        }
        attempt = attempt + 1;
    }
    let mut rows: Vec<Vec<usize>> = Vec::with_capacity(m);
    let mut r: usize = 0;
    while r < m
        invariant
            r <= m,
            rows.len() == r,
            forall|k: int| 0 <= k < r ==> (#[trigger] rows@[k])@ == dual_diagonal(m as nat)[k],
        decreases m - r,
    {
        let mut row: Vec<usize> = Vec::new();
        row.push(r);
        if r > 0 {
            row.push(r - 1);
        }
        assert(row@ =~= dual_diagonal(m as nat)[r as int]);
        rows.push(row);
        r = r + 1;
    }
    assert(matrix::rows_of(rows@) =~= dual_diagonal(m as nat));
    let dense: Vec<Vec<u8>> = gf2::dense_from_sparse_rows(rows.as_slice(), m);
    let found: Option<Vec<Vec<u8>>> = gf2::gf2_invert_dense(dense.as_slice());
    proof {
        lemma_dual_diagonal_regular(m as nat);
    }
    match found {
        Some(inv) => (rows, inv),
        None => {
            let inv: Vec<Vec<u8>> = Vec::new();
            proof {
                lemma_empty_regular();
                assert(matrix::rows_of(inv@) =~= Seq::<Seq<u8>>::empty());
                assert(gf2::dense_of(matrix::rows_of(rows@), 0) =~= Seq::<Seq<u8>>::empty());
            }
            (rows, inv)
        },
    }
}

/// The matrix without rows is its own inverse.
proof fn lemma_empty_regular()
    ensures
        gf2::is_inverse(Seq::<Seq<u8>>::empty(), Seq::<Seq<u8>>::empty()),
        !gf2::is_singular(Seq::<Seq<u8>>::empty()),
{
    let e = Seq::<Seq<u8>>::empty();
    if gf2::is_singular(e) {
        let y = choose|y: Seq<bool>| #[trigger]
            gf2::maps_to(e, y, gf2::falses(0)) && y != gf2::falses(0);
        assert(y =~= gf2::falses(0));
    }
}

proof fn lemma_scattered_bounds(state: u64, m: nat, w: nat, r: int, n: nat)
    requires
        n <= m <= usize::MAX,
    ensures
        forall|i: int|
            0 <= i < scattered_row(state, m, w, r, n).len() ==> #[trigger] scattered_row(
                state,
                m,
                w,
                r,
                n,
            )[i] < n,
    decreases n,
{
    if n > 0 {
        let c = (n - 1) as nat;
        lemma_scattered_bounds(state, m, w, r, c);
        let before = scattered_row(state, m, w, r, c);
        let after = scattered_row(state, m, w, r, n);
        assert forall|i: int| 0 <= i < after.len() implies #[trigger] after[i] < n by {
            if i < before.len() {
                assert(after[i] == before[i]);
            }
        }
    }
}

/// Every row names columns of the matrix.
pub proof fn lemma_parity_rows_bounds(m: nat, seed: u64, w: nat, attempt: u64)
    requires
        m <= usize::MAX,
    ensures
        parity_rows(m, seed, w, attempt).len() == m,
        forall|r: int, i: int|
            0 <= r < m && 0 <= i < parity_rows(m, seed, w, attempt)[r].len()
                ==> #[trigger] parity_rows(m, seed, w, attempt)[r][i] < m,
    decreases 64 - attempt,
{
    let rows = parity_rows(m, seed, w, attempt);
    if attempt < 64 {
        if gf2::is_singular(gf2::dense_of(attempt_rows(m, seed, w, attempt), m)) {
            lemma_parity_rows_bounds(m, seed, w, (attempt + 1) as u64);
        } else {
            assert forall|r: int, i: int| 0 <= r < m && 0 <= i < rows[r].len() implies #[trigger] rows[r][i]
                < m by {
                lemma_scattered_bounds(seed ^ 0xA5F0_91C3_D27B_4E11 ^ attempt, m, w, r, m);
            }
        }
    }
}

/// Where some draw is not excluded there is a first one.
proof fn lemma_first_fresh(state: u64, m: nat, excluded: Seq<usize>, n: nat)
    requires
        n > 0,
        !excluded.contains(reduced(state, m, n)),
    ensures
        exists|k: nat| is_first_fresh(state, m, excluded, k),
    decreases n,
{
    if exists|k: nat| 0 < k < n && !excluded.contains(#[trigger] reduced(state, m, k)) {
        let k = choose|k: nat| 0 < k < n && !excluded.contains(#[trigger] reduced(state, m, k));
        lemma_first_fresh(state, m, excluded, k);
    } else {
        assert(is_first_fresh(state, m, excluded, n));
    }
}

proof fn lemma_picks(state: u64, m: nat, j: usize, w: nat)
    requires
        w < m <= usize::MAX,
        j < m,
    ensures
        picks(state, m, j, w).len() == w,
        picks(state, m, j, w).no_duplicates(),
        forall|i: int|
            0 <= i < w ==> #[trigger] picks(state, m, j, w)[i] < m && picks(state, m, j, w)[i] != j,
    decreases w,
{
    if w > 0 {
        let n = (w - 1) as nat;
        lemma_picks(state, m, j, n);
        let before = picks(state, m, j, n);
        let excluded = before.push(j);
        let s = picks_state(state, m, j, n);
        let k = lemma_fresh_exists(s, m, excluded);
        lemma_first_fresh(s, m, excluded, k);
        let r = fresh_value(s, m, excluded);
        assert(is_first_fresh(s, m, excluded, fresh_draws(s, m, excluded)));
        assert(r < m) by {
            reveal(reduced);
        }
        assert(excluded[n as int] == j);
        let all = picks(state, m, j, w);
        assert forall|a: int, b: int| 0 <= a < b < all.len() implies all[a] != all[b] by {
            if b == n {
                assert(excluded[a] == before[a]);
            }
        }
    }
}

/// Each column of a scattered matrix has a one in `w + 1` rows: on the diagonal, and in `w` others.
pub proof fn law_columns_have_weight(state: u64, m: nat, w: nat, c: nat)
    requires
        0 < w < m <= usize::MAX,
        c < m,
    ensures
        ({
            let rows = picks(column_state(state, m, w, c), m, c as usize, w).push(c as usize);
            &&& rows.len() == w + 1
            &&& rows.no_duplicates()
            &&& forall|i: int| 0 <= i < rows.len() ==> #[trigger] rows[i] < m
            &&& forall|r: int|
                0 <= r < m ==> (#[trigger] in_column(state, m, w, r, c) <==> rows.contains(
                    r as usize,
                ))
        }),
{
    let p = picks(column_state(state, m, w, c), m, c as usize, w);
    let rows = p.push(c as usize);
    lemma_picks(column_state(state, m, w, c), m, c as usize, w);
    assert forall|r: int| 0 <= r < m implies (#[trigger] in_column(state, m, w, r, c)
        <==> rows.contains(r as usize)) by {
        if r == c {
            assert(rows[p.len() as int] == r as usize);
        }
        if p.contains(r as usize) {
            let i = choose|i: int| 0 <= i < p.len() && p[i] == r as usize;
            assert(rows[i] == r as usize);
        }
        if rows.contains(r as usize) {
            let i = choose|i: int| 0 <= i < rows.len() && rows[i] == r as usize;
            if i < p.len() {
                assert(p[i] == r as usize);
            }
        }
    }
}

} // verus!
