//! Polynomials over GF(2^8), written from the highest coefficient down.
use crate::gf256;
use vstd::prelude::*;

verus! {

/// The value of a polynomial at `x`.
pub open spec fn eval(p: Seq<u8>, x: u8) -> u8
    decreases p.len(),
{
    if p.len() == 0 {
        0
    } else {
        gf256::gf_mul(eval(p.drop_last(), x), x) ^ p.last()
    }
}

/// Every coefficient times `c`.
pub open spec fn scaled(p: Seq<u8>, c: u8) -> Seq<u8> {
    Seq::new(p.len(), |i: int| gf256::gf_mul(p[i], c))
}

/// The coefficientwise sum of two polynomials of one length.
pub open spec fn xored(p: Seq<u8>, q: Seq<u8>) -> Seq<u8> {
    Seq::new(p.len(), |i: int| p[i] ^ q[i])
}

pub open spec fn zeros(n: nat) -> Seq<u8> {
    Seq::new(n, |i: int| 0u8)
}

/// The coefficient `k` places from the left in a polynomial padded on the left to length `n`.
pub open spec fn padded_coef(p: Seq<u8>, n: int, k: int) -> u8 {
    if k + p.len() >= n {
        p[k + p.len() - n]
    } else {
        0
    }
}

pub open spec fn longer(a: nat, b: nat) -> nat {
    if a >= b {
        a
    } else {
        b
    }
}

/// The sum of two polynomials, as long as the longer one.
pub open spec fn aligned_sum(p: Seq<u8>, q: Seq<u8>) -> Seq<u8> {
    let n = longer(p.len(), q.len());
    Seq::new(n, |k: int| padded_coef(p, n as int, k) ^ padded_coef(q, n as int, k))
}

/// The polynomial without its leading zeros; of zeros alone the last one stays.
pub open spec fn trimmed(p: Seq<u8>) -> Seq<u8>
    decreases p.len(),
{
    if p.len() <= 1 || p[0] != 0 {
        p
    } else {
        trimmed(p.drop_first())
    }
}

/// The sum over the first `n` coefficients of `p` of what each contributes to coefficient `k` of
/// the product with `q`.
pub open spec fn product_coef(p: Seq<u8>, q: Seq<u8>, k: int, n: nat) -> u8
    decreases n,
{
    if n == 0 {
        0
    } else {
        let i = n - 1;
        product_coef(p, q, k, i as nat) ^ product_term(p, q, k, i)
    }
}

pub open spec fn product_term(p: Seq<u8>, q: Seq<u8>, k: int, i: int) -> u8 {
    if 0 <= k - i < q.len() {
        gf256::gf_mul(p[i], q[k - i])
    } else {
        0
    }
}

/// The product of two nonempty polynomials.
pub open spec fn product(p: Seq<u8>, q: Seq<u8>) -> Seq<u8> {
    Seq::new((p.len() + q.len() - 1) as nat, |k: int| product_coef(p, q, k, p.len()))
}

pub proof fn lemma_xor_facts(a: u8, b: u8, c: u8)
    ensures
        a ^ a == 0,
        a ^ 0 == a,
        0 ^ a == a,
        a ^ b == b ^ a,
        (a ^ b) ^ c == a ^ (b ^ c),
        a ^ b == 0 ==> a == b,
{
    assert(a ^ a == 0 && a ^ 0 == a && 0 ^ a == a && a ^ b == b ^ a && (a ^ b) ^ c == a ^ (b ^ c) && (
    a ^ b == 0 ==> a == b)) by (bit_vector);
}

pub proof fn lemma_xor_swap(a: u8, b: u8, c: u8, d: u8)
    ensures
        (a ^ b) ^ (c ^ d) == (a ^ c) ^ (b ^ d),
{
    assert((a ^ b) ^ (c ^ d) == (a ^ c) ^ (b ^ d)) by (bit_vector);
}

pub proof fn lemma_trimmed_len(p: Seq<u8>)
    ensures
        trimmed(p).len() <= p.len(),
        p.len() >= 1 ==> trimmed(p).len() >= 1,
    decreases p.len(),
{
    if !(p.len() <= 1 || p[0] != 0) {
        lemma_trimmed_len(p.drop_first());
    }
}

pub proof fn lemma_eval_push(p: Seq<u8>, c: u8, x: u8)
    ensures
        eval(p.push(c), x) == gf256::gf_mul(eval(p, x), x) ^ c,
{
    assert(p.push(c).drop_last() =~= p);
}

pub proof fn lemma_eval_xored(p: Seq<u8>, q: Seq<u8>, x: u8)
    requires
        p.len() == q.len(),
    ensures
        eval(xored(p, q), x) == eval(p, x) ^ eval(q, x),
    decreases p.len(),
{
    if p.len() == 0 {
        lemma_xor_facts(0, 0, 0);
    } else {
        let (p1, q1) = (p.drop_last(), q.drop_last());
        lemma_eval_xored(p1, q1, x);
        assert(xored(p, q).drop_last() =~= xored(p1, q1));
        gf256::lemma_gf_mul_distributes(x, eval(p1, x), eval(q1, x));
        lemma_xor_swap(
            gf256::gf_mul(eval(p1, x), x),
            gf256::gf_mul(eval(q1, x), x),
            p.last(),
            q.last(),
        );
    }
}

pub proof fn lemma_eval_scaled(p: Seq<u8>, c: u8, x: u8)
    ensures
        eval(scaled(p, c), x) == gf256::gf_mul(eval(p, x), c),
    decreases p.len(),
{
    if p.len() == 0 {
        gf256::lemma_gf_mul_units(c);
    } else {
        let p1 = p.drop_last();
        lemma_eval_scaled(p1, c, x);
        assert(scaled(p, c).drop_last() =~= scaled(p1, c));
        let e = eval(p1, x);
        gf256::lemma_gf_mul_distributes(c, gf256::gf_mul(e, x), p.last());
        gf256::lemma_gf_mul_associates(e, c, x);
        gf256::lemma_gf_mul_associates(e, x, c);
        gf256::lemma_gf_mul_commutes(c, x);
    }
}

pub proof fn lemma_eval_zeros(n: nat, x: u8)
    ensures
        eval(zeros(n), x) == 0,
    decreases n,
{
    if n > 0 {
        lemma_eval_zeros((n - 1) as nat, x);
        assert(zeros(n).drop_last() =~= zeros((n - 1) as nat));
        gf256::lemma_gf_mul_units(x);
        lemma_xor_facts(0, 0, 0);
    }
}

/// Leading zeros do not change a value.
pub proof fn lemma_eval_leading_zeros(n: nat, p: Seq<u8>, x: u8)
    ensures
        eval(zeros(n) + p, x) == eval(p, x),
    decreases p.len(),
{
    if p.len() == 0 {
        assert(zeros(n) + p =~= zeros(n));
        lemma_eval_zeros(n, x);
    } else {
        lemma_eval_leading_zeros(n, p.drop_last(), x);
        assert((zeros(n) + p).drop_last() =~= zeros(n) + p.drop_last());
    }
}

/// A root stays a root when zeros are appended.
pub proof fn lemma_eval_trailing_zeros(p: Seq<u8>, n: nat, x: u8)
    requires
        eval(p, x) == 0,
    ensures
        eval(p + zeros(n), x) == 0,
    decreases n,
{
    if n == 0 {
        assert(p + zeros(n) =~= p);
    } else {
        lemma_eval_trailing_zeros(p, (n - 1) as nat, x);
        assert((p + zeros(n)).drop_last() =~= p + zeros((n - 1) as nat));
        gf256::lemma_gf_mul_units(x);
        lemma_xor_facts(0, 0, 0);
    }
}

proof fn lemma_product_coef_prefix(p: Seq<u8>, q: Seq<u8>, k: int, n: nat)
    requires
        p.len() > 0,
        n < p.len(),
    ensures
        product_coef(p, q, k, n) == product_coef(p.drop_last(), q, k, n),
    decreases n,
{
    if n > 0 {
        lemma_product_coef_prefix(p, q, k, (n - 1) as nat);
    }
}

/// Beyond the last place nothing contributes.
proof fn lemma_product_coef_beyond(p: Seq<u8>, q: Seq<u8>, k: int, n: nat)
    requires
        k >= n + q.len() - 1,
    ensures
        product_coef(p, q, k, n) == 0,
    decreases n,
{
    if n > 0 {
        lemma_product_coef_beyond(p, q, k, (n - 1) as nat);
        lemma_xor_facts(0, 0, 0);
    }
}

/// Evaluation turns products into products.
pub proof fn lemma_eval_product(p: Seq<u8>, q: Seq<u8>, x: u8)
    requires
        p.len() > 0,
        q.len() > 0,
    ensures
        eval(product(p, q), x) == gf256::gf_mul(eval(p, x), eval(q, x)),
    decreases p.len(),
{
    let n = p.len();
    let c = p.last();
    let low = zeros((n - 1) as nat) + scaled(q, c);
    lemma_eval_leading_zeros((n - 1) as nat, scaled(q, c), x);
    lemma_eval_scaled(q, c, x);
    gf256::lemma_gf_mul_commutes(eval(q, x), c);
    if n == 1 {
        assert forall|k: int| 0 <= k < q.len() implies product(p, q)[k] == scaled(q, c)[k] by {
            assert(product_coef(p, q, k, 0) == 0);
            reveal_with_fuel(product_coef, 2);
            lemma_xor_facts(product_term(p, q, k, 0), 0, 0);
            gf256::lemma_gf_mul_commutes(c, q[k]);
        }
        assert(product(p, q) =~= scaled(q, c));
        assert(p.drop_last() =~= Seq::<u8>::empty());
        gf256::lemma_gf_mul_units(x);
        lemma_xor_facts(c, 0, 0);
        assert(eval(p.drop_last(), x) == 0);
    } else {
        let p1 = p.drop_last();
        let high = product(p1, q).push(0);
        lemma_eval_product(p1, q, x);
        lemma_eval_push(product(p1, q), 0, x);
        let e1 = eval(p1, x);
        let eq = eval(q, x);
        lemma_xor_facts(eval(high, x), 0, 0);
        lemma_xor_facts(gf256::gf_mul(gf256::gf_mul(e1, eq), x), 0, 0);
        assert(high.len() == low.len());
        assert forall|k: int| 0 <= k < n + q.len() - 1 implies product(p, q)[k] == high[k] ^ low[k] by {
            let m = (n - 1) as nat;
            lemma_product_coef_prefix(p, q, k, m);
            assert(product_coef(p, q, k, n) == product_coef(p, q, k, m) ^ product_term(p, q, k, m as int));
            if k == n + q.len() - 2 {
                lemma_product_coef_beyond(p1, q, k, m);
            }
            if k >= m {
                assert(low[k] == scaled(q, c)[k - m]);
                gf256::lemma_gf_mul_commutes(c, q[k - m]);
            } else {
                assert(low[k] == 0);
            }
        }
        assert(product(p, q) =~= xored(high, low));
        lemma_eval_xored(high, low, x);
        // (e1 * eq) * x + c * eq == (e1 * x + c) * eq
        gf256::lemma_gf_mul_associates(e1, eq, x);
        gf256::lemma_gf_mul_commutes(eq, x);
        gf256::lemma_gf_mul_associates(e1, x, eq);
        gf256::lemma_gf_mul_distributes(eq, gf256::gf_mul(e1, x), c);
    }
}

} // verus!
