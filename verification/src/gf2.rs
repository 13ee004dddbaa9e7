//! Linear algebra over GF(2): the low bit of each matrix entry is the entry's value.
use crate::matrix;
use vstd::prelude::*;

verus! {

pub open spec fn bit(b: u8) -> bool {
    b & 1 == 1
}

/// The parity of the entries of a row that the first `n` places of `x` select.
pub open spec fn parity(row: Seq<u8>, x: Seq<bool>, n: nat) -> bool
    decreases n,
{
    if n == 0 {
        false
    } else {
        parity(row, x, (n - 1) as nat) != (bit(row[n - 1]) && x[n - 1])
    }
}

pub open spec fn is_square(a: Seq<Seq<u8>>, n: nat) -> bool {
    a.len() == n && forall|r: int| 0 <= r < n ==> (#[trigger] a[r]).len() == n
}

/// `a y` and `b z` agree in every row.
pub open spec fn agree(a: Seq<Seq<u8>>, b: Seq<Seq<u8>>, y: Seq<bool>, z: Seq<bool>) -> bool {
    &&& y.len() == a.len()
    &&& z.len() == a.len()
    &&& forall|r: int|
        0 <= r < a.len() ==> parity(#[trigger] a[r], y, a.len()) == parity(b[r], z, a.len())
}

/// `a y == z`.
pub open spec fn maps_to(a: Seq<Seq<u8>>, y: Seq<bool>, z: Seq<bool>) -> bool {
    &&& y.len() == a.len()
    &&& z.len() == a.len()
    &&& forall|r: int| 0 <= r < a.len() ==> parity(#[trigger] a[r], y, a.len()) == z[r]
}

/// `inv` undoes `a`: `a y == z` exactly where `inv z == y`.
pub open spec fn is_inverse(a: Seq<Seq<u8>>, inv: Seq<Seq<u8>>) -> bool {
    &&& is_square(inv, a.len())
    &&& forall|r: int, c: int|
        0 <= r < a.len() && 0 <= c < a.len() ==> (#[trigger] inv[r][c] == 0 || inv[r][c] == 1)
    &&& forall|y: Seq<bool>, z: Seq<bool>|
        #![trigger maps_to(a, y, z)]
        #![trigger maps_to(inv, z, y)]
        maps_to(a, y, z) <==> maps_to(inv, z, y)
}

pub open spec fn falses(n: nat) -> Seq<bool> {
    Seq::new(n, |i: int| false)
}

/// Some vector other than zero is sent to zero.
pub open spec fn is_singular(a: Seq<Seq<u8>>) -> bool {
    exists|y: Seq<bool>| #[trigger] maps_to(a, y, falses(a.len())) && y != falses(a.len())
}

pub open spec fn unit(r: int, c: int) -> bool {
    r == c
}

/// The sum of two rows.
pub open spec fn row_sum(u: Seq<u8>, v: Seq<u8>) -> Seq<u8> {
    Seq::new(u.len(), |i: int| u[i] ^ v[i])
}

/// Two pairs of matrices that agree on the same pairs of vectors.
pub open spec fn same_pairs(
    a1: Seq<Seq<u8>>,
    b1: Seq<Seq<u8>>,
    a2: Seq<Seq<u8>>,
    b2: Seq<Seq<u8>>,
) -> bool {
    forall|y: Seq<bool>, z: Seq<bool>|
        #![trigger agree(a1, b1, y, z)]
        #![trigger agree(a2, b2, y, z)]
        agree(a1, b1, y, z) <==> agree(a2, b2, y, z)
}

proof fn lemma_bit_xor(a: u8, b: u8)
    ensures
        bit(a ^ b) == (bit(a) != bit(b)),
{
    assert((a ^ b) & 1 == 1 <==> ((a & 1 == 1) != (b & 1 == 1))) by (bit_vector);
}

pub proof fn lemma_small_bits()
    ensures
        !bit(0),
        bit(1),
        0u8 ^ 0u8 == 0u8,
        0u8 ^ 1u8 == 1u8,
        1u8 ^ 0u8 == 1u8,
        1u8 ^ 1u8 == 0u8,
{
    assert(0u8 & 1 == 0 && 1u8 & 1 == 1 && 0u8 ^ 0u8 == 0u8 && 0u8 ^ 1u8 == 1u8 && 1u8 ^ 0u8 == 1u8
        && 1u8 ^ 1u8 == 0u8) by (bit_vector);
}

pub proof fn lemma_low_bit(a: u8)
    ensures
        a & 1 == if bit(a) {
            1u8
        } else {
            0u8
        },
{
    assert(a & 1 == 0 || a & 1 == 1) by (bit_vector);
}

proof fn lemma_parity_row_sum(u: Seq<u8>, v: Seq<u8>, x: Seq<bool>, n: nat)
    requires
        n <= u.len(),
    ensures
        parity(row_sum(u, v), x, n) == (parity(u, x, n) != parity(v, x, n)),
    decreases n,
{
    if n > 0 {
        lemma_parity_row_sum(u, v, x, (n - 1) as nat);
        lemma_bit_xor(u[n - 1], v[n - 1]);
    }
}

proof fn lemma_same_pairs_trans(
    a1: Seq<Seq<u8>>,
    b1: Seq<Seq<u8>>,
    a2: Seq<Seq<u8>>,
    b2: Seq<Seq<u8>>,
    a3: Seq<Seq<u8>>,
    b3: Seq<Seq<u8>>,
)
    requires
        same_pairs(a1, b1, a2, b2),
        same_pairs(a2, b2, a3, b3),
    ensures
        same_pairs(a1, b1, a3, b3),
{
    assert forall|y: Seq<bool>, z: Seq<bool>|
        #![trigger agree(a1, b1, y, z)]
        #![trigger agree(a3, b3, y, z)]
        agree(a1, b1, y, z) <==> agree(a3, b3, y, z) by {
        assert(agree(a1, b1, y, z) <==> agree(a2, b2, y, z));
    }
}

proof fn lemma_swap(a: Seq<Seq<u8>>, b: Seq<Seq<u8>>, r: int, s: int)
    requires
        a.len() == b.len(),
        0 <= r < a.len(),
        0 <= s < a.len(),
    ensures
        same_pairs(
            a,
            b,
            a.update(r, a[s]).update(s, a[r]),
            b.update(r, b[s]).update(s, b[r]),
        ),
{
    let n = a.len();
    let a2 = a.update(r, a[s]).update(s, a[r]);
    let b2 = b.update(r, b[s]).update(s, b[r]);
    assert forall|y: Seq<bool>, z: Seq<bool>|
        #![trigger agree(a, b, y, z)]
        #![trigger agree(a2, b2, y, z)]
        agree(a, b, y, z) <==> agree(a2, b2, y, z) by {
        if agree(a, b, y, z) {
            assert(parity(a[r], y, n) == parity(b[r], z, n));
            assert(parity(a[s], y, n) == parity(b[s], z, n));
            assert forall|k: int| 0 <= k < n implies parity(#[trigger] a2[k], y, n) == parity(
                b2[k],
                z,
                n,
            ) by {
                if k != r && k != s {
                    assert(a2[k] == a[k]);
                }
            }
        }
        if agree(a2, b2, y, z) {
            assert(parity(a2[r], y, n) == parity(b2[r], z, n));
            assert(parity(a2[s], y, n) == parity(b2[s], z, n));
            assert forall|k: int| 0 <= k < n implies parity(#[trigger] a[k], y, n) == parity(
                b[k],
                z,
                n,
            ) by {
                if k != r && k != s {
                    assert(a2[k] == a[k]);
                }
            }
        }
    }
}

proof fn lemma_add_row(a: Seq<Seq<u8>>, b: Seq<Seq<u8>>, r: int, s: int)
    requires
        is_square(a, a.len()),
        is_square(b, a.len()),
        0 <= r < a.len(),
        0 <= s < a.len(),
        r != s,
    ensures
        same_pairs(a, b, a.update(r, row_sum(a[r], a[s])), b.update(r, row_sum(b[r], b[s]))),
{
    let n = a.len();
    let a2 = a.update(r, row_sum(a[r], a[s]));
    let b2 = b.update(r, row_sum(b[r], b[s]));
    assert forall|y: Seq<bool>, z: Seq<bool>|
        #![trigger agree(a, b, y, z)]
        #![trigger agree(a2, b2, y, z)]
        agree(a, b, y, z) <==> agree(a2, b2, y, z) by {
        lemma_parity_row_sum(a[r], a[s], y, n);
        lemma_parity_row_sum(b[r], b[s], z, n);
        if agree(a, b, y, z) {
            assert(parity(a[r], y, n) == parity(b[r], z, n));
            assert(parity(a[s], y, n) == parity(b[s], z, n));
            assert forall|k: int| 0 <= k < n implies parity(#[trigger] a2[k], y, n) == parity(
                b2[k],
                z,
                n,
            ) by {
                if k != r {
                    assert(a2[k] == a[k]);
                }
            }
        }
        if agree(a2, b2, y, z) {
            assert(parity(a2[r], y, n) == parity(b2[r], z, n));
            assert(parity(a2[s], y, n) == parity(b2[s], z, n));
            assert forall|k: int| 0 <= k < n implies parity(#[trigger] a[k], y, n) == parity(
                b[k],
                z,
                n,
            ) by {
                if k != r {
                    assert(a2[k] == a[k]);
                }
            }
        }
    }
}

/// A row whose first `n` bits are those of a unit row selects one place.
pub proof fn lemma_parity_unit(row: Seq<u8>, y: Seq<bool>, r: int, n: nat)
    requires
        0 <= r,
        forall|c: int| 0 <= c < n ==> bit(#[trigger] row[c]) == unit(r, c),
    ensures
        parity(row, y, n) == (r < n && y[r]),
    decreases n,
{
    if n > 0 {
        lemma_parity_unit(row, y, r, (n - 1) as nat);
        assert(bit(row[n - 1]) == unit(r, n - 1));
    }
}

proof fn lemma_parity_zero_tail(row: Seq<u8>, y: Seq<bool>, k: nat, n: nat)
    requires
        k <= n,
        forall|c: int| k <= c < n ==> !(#[trigger] y[c]),
    ensures
        parity(row, y, n) == parity(row, y, k),
    decreases n,
{
    if k < n {
        lemma_parity_zero_tail(row, y, k, (n - 1) as nat);
        assert(!y[n - 1]);
    }
}

proof fn lemma_parity_of_zero(row: Seq<u8>, m: nat, n: nat)
    requires
        n <= m,
    ensures
        !parity(row, falses(m), n),
    decreases n,
{
    if n > 0 {
        lemma_parity_of_zero(row, m, (n - 1) as nat);
    }
}

proof fn lemma_no_pivot(a: Seq<Seq<u8>>, col: int)
    requires
        is_square(a, a.len()),
        0 <= col < a.len(),
        forall|r: int, c: int|
            0 <= r < a.len() && 0 <= c < col ==> bit(#[trigger] a[r][c]) == unit(r, c),
        forall|r: int| col <= r < a.len() ==> !bit(#[trigger] a[r][col]),
    ensures
        is_singular(a),
{
    let n = a.len();
    let y = Seq::new(
        n,
        |k: int|
            if k < col {
                bit(a[k][col])
            } else {
                k == col
            },
    );
    assert forall|r: int| 0 <= r < n implies parity(#[trigger] a[r], y, n) == falses(n)[r] by {
        lemma_parity_zero_tail(a[r], y, (col + 1) as nat, n);
        lemma_parity_unit(a[r], y, r, col as nat);
        assert(parity(a[r], y, (col + 1) as nat) == (parity(a[r], y, col as nat) != (bit(a[r][col])
            && y[col])));
    }
    assert(maps_to(a, y, falses(n)));
    assert(y[col] && !falses(n)[col]);
}

/// A matrix with an inverse sends nothing but zero to zero.
pub proof fn lemma_inverse_not_singular(a: Seq<Seq<u8>>, inv: Seq<Seq<u8>>)
    requires
        is_inverse(a, inv),
    ensures
        !is_singular(a),
{
    let n = a.len();
    if is_singular(a) {
        let y = choose|y: Seq<bool>| #[trigger] maps_to(a, y, falses(n)) && y != falses(n);
        assert(maps_to(inv, falses(n), y));
        assert forall|r: int| 0 <= r < n implies y[r] == falses(n)[r] by {
            lemma_parity_of_zero(inv[r], n, n);
            assert(parity(inv[r], falses(n), n) == y[r]);
        }
        assert(y =~= falses(n));
    }
}

/// The sum of two rows held as vectors.
fn add_rows(u: &Vec<u8>, v: &Vec<u8>) -> (r: Vec<u8>)
    requires
        u.len() == v.len(),
    ensures
        r@ == row_sum(u@, v@),
{
    let ghost want = row_sum(u@, v@);
    let mut out: Vec<u8> = Vec::with_capacity(u.len());
    let mut c: usize = 0;
    while c < u.len()
        invariant
            c <= u.len(),
            u.len() == v.len(),
            want == row_sum(u@, v@),
            out@ == want.take(c as int),
        decreases u.len() - c,
    {
        out.push(u[c] ^ v[c]);
        assert(want.take(c + 1) =~= want.take(c as int).push(want[c as int]));
        c = c + 1;
    }
    assert(want.take(c as int) =~= want);
    out
}

/// The inverse of a square matrix by Gauss-Jordan elimination; a singular or misshapen one gives
/// nothing.
pub fn gf2_invert_dense(a: &[Vec<u8>]) -> (r: Option<Vec<Vec<u8>>>)
    ensures
        ({
            let m = matrix::rows_of(a@);
            let proper = m.len() > 0 && is_square(m, m.len());
            match r {
                Some(inv) => proper && is_inverse(m, matrix::rows_of(inv@)),
                None => proper ==> is_singular(m),
            }
        }),
{
    let n: usize = a.len();
    if n == 0 {
        return None;
    }
    let ghost m0 = matrix::rows_of(a@);
    let mut left: Vec<Vec<u8>> = Vec::with_capacity(n);
    let mut right: Vec<Vec<u8>> = Vec::with_capacity(n);
    let mut i: usize = 0;
    while i < n
        invariant
            n == a.len(),
            i <= n,
            left.len() == i,
            right.len() == i,
            m0 == matrix::rows_of(a@),
            forall|r: int| 0 <= r < i ==> (#[trigger] left@[r])@ == m0[r] && m0[r].len() == n,
            forall|r: int| 0 <= r < i ==> (#[trigger] right@[r])@.len() == n,
            forall|r: int, c: int|
                0 <= r < i && 0 <= c < n ==> #[trigger] right@[r]@[c] == if r == c {
                    1u8
                } else {
                    0u8
                },
        decreases n - i,
    {
        if a[i].len() != n {
            assert(m0[i as int].len() != n);
            return None;
        }
        let row: Vec<u8> = a[i].clone();
        assert(row@ =~= a@[i as int]@);
        left.push(row);
        let mut id: Vec<u8> = vec![0u8; n];
        id.set(i, 1);
        right.push(id);
        i = i + 1;
    }
    proof {
        lemma_small_bits();
        assert(matrix::rows_of(left@) =~= m0);
        let r0 = matrix::rows_of(right@);
        assert forall|r: int| 0 <= r < n implies (#[trigger] r0[r]).len() == n by {
            assert(r0[r] == right@[r]@);
        }
        assert forall|r: int, c: int| 0 <= r < n && 0 <= c < n implies (#[trigger] r0[r][c] == 0
            || r0[r][c] == 1) by {
            assert(r0[r][c] == right@[r]@[c]);
        }
        assert forall|y: Seq<bool>, z: Seq<bool>| #[trigger]
            maps_to(m0, y, z) <==> agree(m0, r0, y, z) by {
            if z.len() == n && y.len() == n {
                assert forall|r: int| 0 <= r < n implies parity(#[trigger] r0[r], z, n as nat) == z[r] by {
                    assert forall|c: int| 0 <= c < n implies bit(#[trigger] r0[r][c]) == unit(r, c) by {
                        assert(r0[r][c] == right@[r]@[c]);
                    }
                    lemma_parity_unit(r0[r], z, r, n as nat);
                }
                if maps_to(m0, y, z) {
                    assert forall|r: int| 0 <= r < n implies parity(#[trigger] m0[r], y, n as nat)
                        == parity(r0[r], z, n as nat) by {
                        assert(parity(r0[r], z, n as nat) == z[r]);
                    }
                }
                if agree(m0, r0, y, z) {
                    assert forall|r: int| 0 <= r < n implies parity(#[trigger] m0[r], y, n as nat)
                        == z[r] by {
                        assert(parity(r0[r], z, n as nat) == z[r]);
                    }
                }
            }
        }
    }
    let ghost r0 = matrix::rows_of(right@);
    let mut col: usize = 0;
    while col < n
        invariant
            col <= n,
            n == a.len(),
            m0 == matrix::rows_of(a@),
            m0.len() == n,
            left.len() == n,
            right.len() == n,
            n > 0,
            is_square(m0, n as nat),
            is_square(matrix::rows_of(left@), n as nat),
            is_square(matrix::rows_of(right@), n as nat),
            same_pairs(m0, r0, matrix::rows_of(left@), matrix::rows_of(right@)),
            forall|y: Seq<bool>, z: Seq<bool>| #[trigger]
                maps_to(m0, y, z) <==> agree(m0, r0, y, z),
            forall|r: int, c: int|
                0 <= r < n && 0 <= c < n ==> (#[trigger] matrix::rows_of(right@)[r][c] == 0 || matrix::rows_of(
                    right@,
                )[r][c] == 1),
            forall|r: int, c: int|
                0 <= r < n && 0 <= c < col ==> bit(#[trigger] matrix::rows_of(left@)[r][c]) == unit(r, c),
        decreases n - col,
    {
        let ghost l1 = matrix::rows_of(left@);
        let ghost r1 = matrix::rows_of(right@);
        assert forall|r: int| 0 <= r < n implies (#[trigger] left@[r])@.len() == n by {
            assert(l1[r] == left@[r]@);
        }
        let mut piv: usize = col;
        while piv < n && (left[piv][col] & 1) == 0
            invariant
                col < n,
                col <= piv <= n,
                left.len() == n,
                l1 == matrix::rows_of(left@),
                forall|r: int| 0 <= r < n ==> (#[trigger] left@[r])@.len() == n,
                forall|r: int| col <= r < piv ==> !bit(#[trigger] l1[r][col as int]),
            decreases n - piv,
        {
            assert(l1[piv as int] == left@[piv as int]@);
            piv = piv + 1;
        }
        if piv >= n {
            proof {
                lemma_no_pivot(l1, col as int);
                let zero = falses(n as nat);
                let y = choose|y: Seq<bool>| #[trigger]
                    maps_to(l1, y, falses(l1.len())) && y != falses(l1.len());
                assert(agree(l1, r1, y, zero)) by {
                    assert forall|r: int| 0 <= r < n implies parity(#[trigger] l1[r], y, n as nat)
                        == parity(r1[r], zero, n as nat) by {
                        lemma_parity_of_zero(r1[r], n as nat, n as nat);
                    }
                }
                assert(agree(m0, r0, y, zero));
                assert(maps_to(m0, y, zero));
            }
            return None;
        }
        assert(l1[piv as int] == left@[piv as int]@ && l1[col as int] == left@[col as int]@);
        assert(r1[piv as int] == right@[piv as int]@ && r1[col as int] == right@[col as int]@);
        proof {
            lemma_low_bit(left@[piv as int]@[col as int]);
        }
        if piv != col {
            proof {
                lemma_swap(l1, r1, piv as int, col as int);
            }
            let lp: Vec<u8> = left[piv].clone();
            let lc: Vec<u8> = left[col].clone();
            let rp: Vec<u8> = right[piv].clone();
            let rc: Vec<u8> = right[col].clone();
            assert(lp@ =~= l1[piv as int]);
            assert(lc@ =~= l1[col as int]);
            assert(rp@ =~= r1[piv as int]);
            assert(rc@ =~= r1[col as int]);
            left.set(piv, lc);
            left.set(col, lp);
            right.set(piv, rc);
            right.set(col, rp);
            assert(matrix::rows_of(left@) =~= l1.update(piv as int, l1[col as int]).update(
                col as int,
                l1[piv as int],
            ));
            assert(matrix::rows_of(right@) =~= r1.update(piv as int, r1[col as int]).update(
                col as int,
                r1[piv as int],
            ));
        }
        let ghost l2 = matrix::rows_of(left@);
        let ghost r2 = matrix::rows_of(right@);
        proof {
            lemma_same_pairs_trans(m0, r0, l1, r1, l2, r2);
            assert(bit(l2[col as int][col as int]));
            assert forall|r: int, c: int| 0 <= r < n && 0 <= c < col implies bit(
                #[trigger] l2[r][c],
            ) == unit(r, c) by {
                assert(bit(l1[piv as int][c]) == unit(piv as int, c));
                assert(bit(l1[col as int][c]) == unit(col as int, c));
                assert(bit(l1[r][c]) == unit(r, c));
            }
            assert forall|r: int, c: int| 0 <= r < n && 0 <= c < n implies (#[trigger] r2[r][c] == 0
                || r2[r][c] == 1) by {
                assert(r1[piv as int][c] == 0 || r1[piv as int][c] == 1);
                assert(r1[col as int][c] == 0 || r1[col as int][c] == 1);
                assert(r1[r][c] == 0 || r1[r][c] == 1);
            }
        }
        let mut r: usize = 0;
        while r < n
            invariant
                r <= n,
                col < n,
                left.len() == n,
                right.len() == n,
                m0.len() == n,
                is_square(matrix::rows_of(left@), n as nat),
                is_square(matrix::rows_of(right@), n as nat),
                same_pairs(m0, r0, matrix::rows_of(left@), matrix::rows_of(right@)),
                forall|q: int, c: int|
                    0 <= q < n && 0 <= c < n ==> (#[trigger] matrix::rows_of(right@)[q][c] == 0 || matrix::rows_of(
                        right@,
                    )[q][c] == 1),
                forall|q: int, c: int|
                    0 <= q < n && 0 <= c < col ==> bit(#[trigger] matrix::rows_of(left@)[q][c]) == unit(q, c),
                bit(matrix::rows_of(left@)[col as int][col as int]),
                forall|q: int|
                    0 <= q < r ==> bit(#[trigger] matrix::rows_of(left@)[q][col as int]) == unit(
                        q,
                        col as int,
                    ),
            decreases n - r,
        {
            let ghost l3 = matrix::rows_of(left@);
            let ghost r3 = matrix::rows_of(right@);
            assert(l3[r as int] == left@[r as int]@ && l3[col as int] == left@[col as int]@);
            assert(r3[r as int] == right@[r as int]@ && r3[col as int] == right@[col as int]@);
            proof {
                lemma_low_bit(left@[r as int]@[col as int]);
            }
            if r != col && (left[r][col] & 1) != 0 {
                proof {
                    lemma_add_row(l3, r3, r as int, col as int);
                    lemma_small_bits();
                }
                let lrow: Vec<u8> = add_rows(&left[r], &left[col]);
                let rrow: Vec<u8> = add_rows(&right[r], &right[col]);
                left.set(r, lrow);
                right.set(r, rrow);
                proof {
                    let l4 = matrix::rows_of(left@);
                    let r4 = matrix::rows_of(right@);
                    assert(l4 =~= l3.update(r as int, row_sum(l3[r as int], l3[col as int])));
                    assert(r4 =~= r3.update(r as int, row_sum(r3[r as int], r3[col as int])));
                    lemma_same_pairs_trans(m0, r0, l3, r3, l4, r4);
                    lemma_bit_xor(l3[r as int][col as int], l3[col as int][col as int]);
                    assert(!bit(l4[r as int][col as int]));
                    assert forall|q: int, c: int| 0 <= q < n && 0 <= c < col implies bit(
                        #[trigger] l4[q][c],
                    ) == unit(q, c) by {
                        assert(bit(l3[q][c]) == unit(q, c));
                        assert(bit(l3[col as int][c]) == unit(col as int, c));
                        lemma_bit_xor(l3[q][c], l3[col as int][c]);
                    }
                    assert forall|q: int, c: int| 0 <= q < n && 0 <= c < n implies (
                    #[trigger] r4[q][c] == 0 || r4[q][c] == 1) by {
                        assert(r3[q][c] == 0 || r3[q][c] == 1);
                        assert(r3[col as int][c] == 0 || r3[col as int][c] == 1);
                    }
                    assert forall|q: int| 0 <= q < r + 1 implies bit(#[trigger] l4[q][col as int])
                        == unit(q, col as int) by {
                        if q < r {
                            assert(bit(l3[q][col as int]) == unit(q, col as int));
                        }
                    }
                }
            }
            r = r + 1;
        }
        col = col + 1;
    }
    proof {
        let l5 = matrix::rows_of(left@);
        let r5 = matrix::rows_of(right@);
        assert forall|y: Seq<bool>, z: Seq<bool>|
            #![trigger maps_to(m0, y, z)]
            #![trigger maps_to(r5, z, y)]
            maps_to(m0, y, z) <==> maps_to(r5, z, y) by {
            assert(maps_to(m0, y, z) <==> agree(m0, r0, y, z));
            assert(agree(m0, r0, y, z) <==> agree(l5, r5, y, z));
            if y.len() == n && z.len() == n {
                assert forall|r: int| 0 <= r < n implies parity(#[trigger] l5[r], y, n as nat) == y[r] by {
                    lemma_parity_unit(l5[r], y, r, n as nat);
                }
                if agree(l5, r5, y, z) {
                    assert forall|r: int| 0 <= r < n implies parity(#[trigger] r5[r], z, n as nat)
                        == y[r] by {
                        assert(parity(l5[r], y, n as nat) == parity(r5[r], z, n as nat));
                    }
                }
                if maps_to(r5, z, y) {
                    assert forall|r: int| 0 <= r < n implies parity(#[trigger] l5[r], y, n as nat)
                        == parity(r5[r], z, n as nat) by {
                        assert(parity(r5[r], z, n as nat) == y[r]);
                    }
                }
            }
        }
    }
    Some(right)
}

/// Whether `c` occurs an odd number of times among the first `n` items of a row.
pub open spec fn odd_count(row: Seq<usize>, c: int, n: nat) -> bool
    decreases n,
{
    if n == 0 {
        false
    } else {
        odd_count(row, c, (n - 1) as nat) != (row[n - 1] == c)
    }
}

/// The row of `m` entries that a list of column numbers stands for.
pub open spec fn dense_row(row: Seq<usize>, m: nat, n: nat) -> Seq<u8> {
    Seq::new(
        m,
        |c: int|
            if odd_count(row, c, n) {
                1u8
            } else {
                0u8
            },
    )
}

/// The square matrix that lists of column numbers stand for; missing lists stand for zero rows.
pub open spec fn dense_of(rows: Seq<Seq<usize>>, m: nat) -> Seq<Seq<u8>> {
    Seq::new(
        m,
        |r: int|
            if r < rows.len() {
                dense_row(rows[r], m, rows[r].len())
            } else {
                dense_row(Seq::empty(), m, 0)
            },
    )
}

/// The parity of the places of `x` that a list of column numbers selects.
pub open spec fn sparse_parity(row: Seq<usize>, x: Seq<bool>, n: nat) -> bool
    decreases n,
{
    if n == 0 {
        false
    } else {
        sparse_parity(row, x, (n - 1) as nat) != x[row[n - 1] as int]
    }
}

proof fn lemma_parity_toggle(u: Seq<u8>, v: Seq<u8>, x: Seq<bool>, c: int, n: nat)
    requires
        n <= u.len(),
        forall|k: int|
            0 <= k < u.len() ==> bit(#[trigger] u[k]) == (bit(v[k]) != (k == c)),
    ensures
        parity(u, x, n) == (parity(v, x, n) != (0 <= c < n && x[c])),
    decreases n,
{
    if n > 0 {
        lemma_parity_toggle(u, v, x, c, (n - 1) as nat);
        assert(bit(u[n - 1]) == (bit(v[n - 1]) != (n - 1 == c)));
    }
}

/// A list of column numbers and its dense row select the same parity.
pub proof fn lemma_dense_parity(row: Seq<usize>, m: nat, x: Seq<bool>, n: nat)
    requires
        n <= row.len(),
        forall|i: int| 0 <= i < row.len() ==> #[trigger] row[i] < m,
    ensures
        parity(dense_row(row, m, n), x, m) == sparse_parity(row, x, n),
    decreases n,
{
    lemma_small_bits();
    if n == 0 {
        lemma_parity_unit(dense_row(row, m, 0), x, m as int, m);
    } else {
        let k = (n - 1) as nat;
        lemma_dense_parity(row, m, x, k);
        lemma_parity_toggle(dense_row(row, m, n), dense_row(row, m, k), x, row[n - 1] as int, m);
    }
}

/// The square 0/1 matrix of lists of column numbers. Columns from `m` on are left out.
pub fn dense_from_sparse_rows(rows: &[Vec<usize>], m: usize) -> (out: Vec<Vec<u8>>)
    ensures
        matrix::rows_of(out@) == dense_of(matrix::rows_of(rows@), m as nat),
{
    let ghost src = matrix::rows_of(rows@);
    let ghost want = dense_of(src, m as nat);
    let mut out: Vec<Vec<u8>> = Vec::with_capacity(m);
    let mut r: usize = 0;
    while r < m
        invariant
            r <= m,
            src == matrix::rows_of(rows@),
            want == dense_of(src, m as nat),
            out.len() == r,
            forall|k: int| 0 <= k < r ==> (#[trigger] out@[k])@ == want[k],
        decreases m - r,
    {
        let mut line: Vec<u8> = vec![0u8; m];
        assert(line@ =~= dense_row(Seq::empty(), m as nat, 0));
        if r < rows.len() {
            let ghost cols = src[r as int];
            let mut i: usize = 0;
            assert(line@ =~= dense_row(cols, m as nat, 0));
            while i < rows[r].len()
                invariant
                    r < rows.len(),
                    cols == rows@[r as int]@,
                    i <= cols.len(),
                    line@ == dense_row(cols, m as nat, i as nat),
                decreases cols.len() - i,
            {
                let c: usize = rows[r][i];
                let ghost before = line@;
                if c < m {
                    let v: u8 = line[c];
                    line.set(c, v ^ 1);
                }
                proof {
                    lemma_small_bits();
                    let next = dense_row(cols, m as nat, (i + 1) as nat);
                    assert forall|k: int| 0 <= k < m implies line@[k] == next[k] by {
                        assert(before[k] == dense_row(cols, m as nat, i as nat)[k]);
                    }
                    assert(line@ =~= next);
                }
                i = i + 1;
            }
        }
        out.push(line);
        r = r + 1;
    }
    assert(matrix::rows_of(out@) =~= want);
    out
}

} // verus!
