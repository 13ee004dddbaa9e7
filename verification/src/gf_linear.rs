//! Systems of linear equations over GF(2^8).
use crate::gf256;
use crate::poly;
use vstd::prelude::*;

verus! {

/// The sum over the first `n` columns of row entry times unknown.
pub open spec fn dot(row: Seq<u8>, x: Seq<u8>, n: nat) -> u8
    decreases n,
{
    if n == 0 {
        0
    } else {
        dot(row, x, (n - 1) as nat) ^ gf256::gf_mul(row[n - 1], x[n - 1])
    }
}

pub open spec fn is_square(a: Seq<Seq<u8>>, n: nat) -> bool {
    a.len() == n && forall|r: int| 0 <= r < n ==> (#[trigger] a[r]).len() == n
}

/// `x` solves `a x = b`.
pub open spec fn solves(a: Seq<Seq<u8>>, b: Seq<u8>, x: Seq<u8>) -> bool {
    &&& x.len() == a.len()
    &&& forall|r: int| 0 <= r < a.len() ==> dot(#[trigger] a[r], x, a.len()) == b[r]
}

/// `x` is the one solution of `a x = b`.
pub open spec fn unique_solution(a: Seq<Seq<u8>>, b: Seq<u8>, x: Seq<u8>) -> bool {
    &&& solves(a, b, x)
    &&& forall|y: Seq<u8>| #[trigger] solves(a, b, y) ==> y == x
}

/// Some vector other than zero is sent to zero.
pub open spec fn is_singular(a: Seq<Seq<u8>>) -> bool {
    exists|y: Seq<u8>| #[trigger] solves(a, poly::zeros(a.len()), y) && y != poly::zeros(a.len())
}

/// The entries of the identity matrix.
pub open spec fn unit_entry(r: int, c: int) -> u8 {
    if r == c {
        1
    } else {
        0
    }
}

pub open spec fn same_solutions(
    a1: Seq<Seq<u8>>,
    b1: Seq<u8>,
    a2: Seq<Seq<u8>>,
    b2: Seq<u8>,
) -> bool {
    forall|y: Seq<u8>| #[trigger] solves(a1, b1, y) <==> #[trigger] solves(a2, b2, y)
}

pub proof fn lemma_same_solutions_trans(
    a1: Seq<Seq<u8>>,
    b1: Seq<u8>,
    a2: Seq<Seq<u8>>,
    b2: Seq<u8>,
    a3: Seq<Seq<u8>>,
    b3: Seq<u8>,
)
    requires
        same_solutions(a1, b1, a2, b2),
        same_solutions(a2, b2, a3, b3),
    ensures
        same_solutions(a1, b1, a3, b3),
{
    assert forall|y: Seq<u8>| #[trigger] solves(a1, b1, y) <==> #[trigger] solves(a3, b3, y) by {
        assert(solves(a2, b2, y) <==> solves(a1, b1, y));
    }
}

/// Row `target` plus `f` times row `source`.
pub open spec fn combined(target: Seq<u8>, source: Seq<u8>, f: u8) -> Seq<u8> {
    poly::xored(target, poly::scaled(source, f))
}

pub proof fn lemma_dot_combined(u: Seq<u8>, v: Seq<u8>, f: u8, x: Seq<u8>, n: nat)
    requires
        n <= u.len(),
        n <= v.len(),
        u.len() == v.len(),
    ensures
        dot(combined(u, v, f), x, n) == dot(u, x, n) ^ gf256::gf_mul(dot(v, x, n), f),
    decreases n,
{
    if n == 0 {
        gf256::lemma_gf_mul_units(f);
        poly::lemma_xor_facts(0, 0, 0);
    } else {
        let m = (n - 1) as nat;
        lemma_dot_combined(u, v, f, x, m);
        let (um, vm, xm) = (u[m as int], v[m as int], x[m as int]);
        assert(combined(u, v, f)[m as int] == um ^ gf256::gf_mul(vm, f));
        gf256::lemma_gf_mul_distributes(xm, um, gf256::gf_mul(vm, f));
        gf256::lemma_gf_mul_associates(vm, f, xm);
        gf256::lemma_gf_mul_commutes(f, xm);
        gf256::lemma_gf_mul_associates(vm, xm, f);
        gf256::lemma_gf_mul_distributes(f, dot(v, x, m), gf256::gf_mul(vm, xm));
        poly::lemma_xor_swap(
            dot(u, x, m),
            gf256::gf_mul(dot(v, x, m), f),
            gf256::gf_mul(um, xm),
            gf256::gf_mul(gf256::gf_mul(vm, xm), f),
        );
    }
}

pub proof fn lemma_dot_scaled(v: Seq<u8>, f: u8, x: Seq<u8>, n: nat)
    requires
        n <= v.len(),
    ensures
        dot(poly::scaled(v, f), x, n) == gf256::gf_mul(dot(v, x, n), f),
    decreases n,
{
    if n == 0 {
        gf256::lemma_gf_mul_units(f);
    } else {
        let m = (n - 1) as nat;
        lemma_dot_scaled(v, f, x, m);
        let (vm, xm) = (v[m as int], x[m as int]);
        gf256::lemma_gf_mul_associates(vm, f, xm);
        gf256::lemma_gf_mul_commutes(f, xm);
        gf256::lemma_gf_mul_associates(vm, xm, f);
        gf256::lemma_gf_mul_distributes(f, dot(v, x, m), gf256::gf_mul(vm, xm));
    }
}

/// Adding a multiple of one equation to another keeps the solutions.
pub proof fn lemma_combine_rows(a: Seq<Seq<u8>>, b: Seq<u8>, r: int, s: int, f: u8)
    requires
        is_square(a, a.len()),
        b.len() == a.len(),
        0 <= r < a.len(),
        0 <= s < a.len(),
        r != s,
    ensures
        same_solutions(
            a,
            b,
            a.update(r, combined(a[r], a[s], f)),
            b.update(r, b[r] ^ gf256::gf_mul(b[s], f)),
        ),
{
    let n = a.len();
    let a2 = a.update(r, combined(a[r], a[s], f));
    let b2 = b.update(r, b[r] ^ gf256::gf_mul(b[s], f));
    assert forall|y: Seq<u8>| #[trigger] solves(a, b, y) <==> #[trigger] solves(a2, b2, y) by {
        if y.len() == n {
            lemma_dot_combined(a[r], a[s], f, y, n);
            if solves(a, b, y) {
                assert(dot(a[r], y, n) == b[r] && dot(a[s], y, n) == b[s]);
                assert forall|k: int| 0 <= k < n implies dot(#[trigger] a2[k], y, n) == b2[k] by {
                    if k != r {
                        assert(a2[k] == a[k]);
                    }
                }
            }
            if solves(a2, b2, y) {
                assert(dot(a2[r], y, n) == b2[r]);
                assert(a2[s] == a[s] && dot(a2[s], y, n) == b2[s]);
                let t = gf256::gf_mul(b[s], f);
                poly::lemma_xor_facts(dot(a[r], y, n), t, t);
                poly::lemma_xor_facts(b[r], t, t);
                poly::lemma_xor_facts(t, 0, 0);
                assert forall|k: int| 0 <= k < n implies dot(#[trigger] a[k], y, n) == b[k] by {
                    if k != r {
                        assert(a2[k] == a[k]);
                    } else {
                        poly::lemma_xor_facts(dot(a[r], y, n), 0, 0);
                        poly::lemma_xor_facts(b[r], 0, 0);
                    }
                }
            }
        }
    }
}

/// Scaling an equation by a nonzero factor keeps the solutions.
pub proof fn lemma_scale_row(a: Seq<Seq<u8>>, b: Seq<u8>, r: int, f: u8)
    requires
        is_square(a, a.len()),
        b.len() == a.len(),
        0 <= r < a.len(),
        f != 0,
    ensures
        same_solutions(
            a,
            b,
            a.update(r, poly::scaled(a[r], f)),
            b.update(r, gf256::gf_mul(b[r], f)),
        ),
{
    let n = a.len();
    let a2 = a.update(r, poly::scaled(a[r], f));
    let b2 = b.update(r, gf256::gf_mul(b[r], f));
    assert forall|y: Seq<u8>| #[trigger] solves(a, b, y) <==> #[trigger] solves(a2, b2, y) by {
        if y.len() == n {
            lemma_dot_scaled(a[r], f, y, n);
            if solves(a, b, y) {
                assert(dot(a[r], y, n) == b[r]);
                assert forall|k: int| 0 <= k < n implies dot(#[trigger] a2[k], y, n) == b2[k] by {
                    if k != r {
                        assert(a2[k] == a[k]);
                    }
                }
            }
            if solves(a2, b2, y) {
                assert(dot(a2[r], y, n) == b2[r]);
                let d = dot(a[r], y, n);
                gf256::lemma_gf_mul_distributes(f, d, b[r]);
                poly::lemma_xor_facts(gf256::gf_mul(d, f), 0, 0);
                gf256::lemma_gf_no_zero_divisors(d ^ b[r], f);
                poly::lemma_xor_facts(d, b[r], 0);
                assert forall|k: int| 0 <= k < n implies dot(#[trigger] a[k], y, n) == b[k] by {
                    if k != r {
                        assert(a2[k] == a[k]);
                    }
                }
            }
        }
    }
}

/// Exchanging two equations keeps the solutions.
pub proof fn lemma_swap_rows(a: Seq<Seq<u8>>, b: Seq<u8>, r: int, s: int)
    requires
        b.len() == a.len(),
        0 <= r < a.len(),
        0 <= s < a.len(),
    ensures
        same_solutions(
            a,
            b,
            a.update(r, a[s]).update(s, a[r]),
            b.update(r, b[s]).update(s, b[r]),
        ),
{
    let n = a.len();
    let a2 = a.update(r, a[s]).update(s, a[r]);
    let b2 = b.update(r, b[s]).update(s, b[r]);
    assert forall|y: Seq<u8>| #[trigger] solves(a, b, y) <==> #[trigger] solves(a2, b2, y) by {
        if solves(a, b, y) {
            assert(dot(a[r], y, n) == b[r] && dot(a[s], y, n) == b[s]);
            assert forall|k: int| 0 <= k < n implies dot(#[trigger] a2[k], y, n) == b2[k] by {
                if k != r && k != s {
                    assert(a2[k] == a[k]);
                }
            }
        }
        if solves(a2, b2, y) {
            assert(dot(a2[r], y, n) == b2[r] && dot(a2[s], y, n) == b2[s]);
            assert forall|k: int| 0 <= k < n implies dot(#[trigger] a[k], y, n) == b[k] by {
                if k != r && k != s {
                    assert(a2[k] == a[k]);
                }
            }
        }
    }
}

/// Where the first `n` entries of a row are those of a unit row, so is its sum.
pub proof fn lemma_dot_unit(row: Seq<u8>, y: Seq<u8>, r: int, n: nat)
    requires
        n <= row.len(),
        n <= y.len(),
        0 <= r,
        forall|c: int| 0 <= c < n ==> #[trigger] row[c] == unit_entry(r, c),
    ensures
        dot(row, y, n) == if r < n {
            y[r]
        } else {
            0
        },
    decreases n,
{
    if n > 0 {
        let m = (n - 1) as nat;
        lemma_dot_unit(row, y, r, m);
        gf256::lemma_gf_mul_units(y[m as int]);
        poly::lemma_xor_facts(dot(row, y, m), 0, 0);
        poly::lemma_xor_facts(y[m as int], 0, 0);
        assert(row[m as int] == unit_entry(r, m as int));
    }
}

/// Unknowns that are zero contribute nothing.
pub proof fn lemma_dot_zero_tail(row: Seq<u8>, y: Seq<u8>, k: nat, n: nat)
    requires
        k <= n,
        n <= row.len(),
        n <= y.len(),
        forall|c: int| k <= c < n ==> #[trigger] y[c] == 0,
    ensures
        dot(row, y, n) == dot(row, y, k),
    decreases n,
{
    if k < n {
        lemma_dot_zero_tail(row, y, k, (n - 1) as nat);
        gf256::lemma_gf_mul_units(row[n - 1]);
        poly::lemma_xor_facts(dot(row, y, k), 0, 0);
    }
}

/// A column without a pivot exhibits a vector that is sent to zero.
pub proof fn lemma_no_pivot(a: Seq<Seq<u8>>, col: int)
    requires
        is_square(a, a.len()),
        0 <= col < a.len(),
        forall|r: int, c: int|
            0 <= r < a.len() && 0 <= c < col ==> #[trigger] a[r][c] == unit_entry(r, c),
        forall|r: int| col <= r < a.len() ==> #[trigger] a[r][col] == 0,
    ensures
        is_singular(a),
{
    let n = a.len();
    let y = Seq::new(
        n,
        |k: int|
            if k < col {
                a[k][col]
            } else if k == col {
                1u8
            } else {
                0u8
            },
    );
    assert forall|r: int| 0 <= r < n implies dot(#[trigger] a[r], y, n) == poly::zeros(n)[r] by {
        lemma_dot_zero_tail(a[r], y, (col + 1) as nat, n);
        lemma_dot_unit(a[r], y, r, col as nat);
        assert(dot(a[r], y, (col + 1) as nat) == dot(a[r], y, col as nat) ^ gf256::gf_mul(
            a[r][col],
            y[col],
        ));
        gf256::lemma_gf_mul_units(a[r][col]);
        poly::lemma_xor_facts(a[r][col], 0, 0);
        poly::lemma_xor_facts(0, 0, 0);
    }
    assert(solves(a, poly::zeros(n), y));
    assert(y[col] == 1 && poly::zeros(n)[col] == 0);
}

/// The identity matrix leaves the right-hand side as the one solution.
pub proof fn lemma_identity_solution(a: Seq<Seq<u8>>, b: Seq<u8>)
    requires
        is_square(a, a.len()),
        b.len() == a.len(),
        forall|r: int, c: int|
            0 <= r < a.len() && 0 <= c < a.len() ==> #[trigger] a[r][c] == unit_entry(r, c),
    ensures
        unique_solution(a, b, b),
{
    let n = a.len();
    assert forall|r: int| 0 <= r < n implies dot(#[trigger] a[r], b, n) == b[r] by {
        lemma_dot_unit(a[r], b, r, n);
    }
    assert forall|y: Seq<u8>| #[trigger] solves(a, b, y) implies y == b by {
        assert forall|r: int| 0 <= r < n implies y[r] == b[r] by {
            lemma_dot_unit(a[r], y, r, n);
            assert(dot(a[r], y, n) == b[r]);
        }
        assert(y =~= b);
    }
}

/// A system with one solution has no vector but zero that is sent to zero.
pub proof fn lemma_unique_not_singular(a: Seq<Seq<u8>>, b: Seq<u8>, x: Seq<u8>)
    requires
        is_square(a, a.len()),
        b.len() == a.len(),
        unique_solution(a, b, x),
    ensures
        !is_singular(a),
{
    let n = a.len();
    if is_singular(a) {
        let y = choose|y: Seq<u8>| #[trigger] solves(a, poly::zeros(n), y) && y != poly::zeros(n);
        let w = poly::xored(x, y);
        assert forall|r: int| 0 <= r < n implies dot(#[trigger] a[r], w, n) == b[r] by {
            assert(dot(a[r], x, n) == b[r]);
            assert(dot(a[r], y, n) == poly::zeros(n)[r]);
            lemma_dot_sum(a[r], x, y, n);
            poly::lemma_xor_facts(b[r], 0, 0);
        }
        assert(solves(a, b, w));
        assert forall|i: int| 0 <= i < n implies y[i] == poly::zeros(n)[i] by {
            assert(w[i] == x[i]);
            poly::lemma_xor_facts(x[i], x[i], y[i]);
            poly::lemma_xor_facts(y[i], 0, 0);
        }
        assert(y =~= poly::zeros(n));
    }
}

pub proof fn lemma_dot_sum(row: Seq<u8>, x: Seq<u8>, y: Seq<u8>, n: nat)
    requires
        n <= x.len(),
        x.len() == y.len(),
    ensures
        dot(row, poly::xored(x, y), n) == dot(row, x, n) ^ dot(row, y, n),
    decreases n,
{
    if n == 0 {
        poly::lemma_xor_facts(0, 0, 0);
    } else {
        let m = (n - 1) as nat;
        lemma_dot_sum(row, x, y, m);
        gf256::lemma_gf_mul_distributes(row[m as int], x[m as int], y[m as int]);
        poly::lemma_xor_swap(
            dot(row, x, m),
            dot(row, y, m),
            gf256::gf_mul(row[m as int], x[m as int]),
            gf256::gf_mul(row[m as int], y[m as int]),
        );
    }
}

} // verus!
