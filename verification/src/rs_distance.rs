//! How far codewords of the Reed-Solomon code are from each other.
use crate::gf256;
use crate::poly;
use crate::rs_codec;
use vstd::prelude::*;

verus! {

/// The power of alpha that stands for place `p` of a word.
pub open spec fn place_power(n: nat, p: int) -> u8 {
    gf256::alpha_pow((n - 1 - p) as nat)
}

/// A word with each byte times the power of its place.
spec fn twisted(d: Seq<u8>) -> Seq<u8> {
    Seq::new(d.len(), |p: int| gf256::gf_mul(d[p], place_power(d.len(), p)))
}

/// The twisted word has at `x` the value that the word has at `x` times alpha.
proof fn lemma_eval_twisted(d: Seq<u8>, x: u8)
    ensures
        poly::eval(twisted(d), x) == poly::eval(d, gf256::gf_mul(2, x)),
    decreases d.len(),
{
    if d.len() > 0 {
        let d1 = d.drop_last();
        let t = twisted(d);
        let t1 = twisted(d1);
        lemma_eval_twisted(d1, x);
        gf256::lemma_gf_mul_units(d.last());
        assert(gf256::alpha_pow(0) == 1);
        assert(t.drop_last() =~= poly::scaled(t1, 2)) by {
            assert forall|p: int| 0 <= p < d1.len() implies t[p] == gf256::gf_mul(t1[p], 2) by {
                let e = (d1.len() - 1 - p) as nat;
                gf256::lemma_gf_mul_units(gf256::alpha_pow(e));
                assert(gf256::alpha_pow(e + 1) == gf256::xtime(gf256::alpha_pow(e)));
                gf256::lemma_gf_mul_associates(d[p], gf256::alpha_pow(e), 2);
            }
        }
        assert(t.last() == d.last());
        poly::lemma_eval_scaled(t1, 2, x);
        let v = poly::eval(d1, gf256::gf_mul(2, x));
        gf256::lemma_gf_mul_associates(v, 2, x);
    }
}

/// A word with each byte times the value of a polynomial at the power of its place.
spec fn weighed(g: Seq<u8>, d: Seq<u8>) -> Seq<u8> {
    Seq::new(d.len(), |p: int| gf256::gf_mul(poly::eval(g, place_power(d.len(), p)), d[p]))
}

/// Where a word vanishes at as many powers of alpha as a polynomial has coefficients, its bytes
/// weighed by the polynomial add up to zero.
proof fn lemma_weighed_sum(g: Seq<u8>, d: Seq<u8>)
    requires
        forall|k: nat| k < g.len() ==> #[trigger] poly::eval(d, gf256::alpha_pow(k)) == 0,
    ensures
        poly::eval(weighed(g, d), 1) == 0,
    decreases g.len(),
{
    let n = d.len();
    let w = weighed(g, d);
    if g.len() == 0 {
        assert forall|p: int| 0 <= p < n implies w[p] == 0 by {
            gf256::lemma_gf_mul_units(d[p]);
        }
        assert(w =~= poly::zeros(n));
        poly::lemma_eval_zeros(n, 1);
    } else {
        let g1 = g.drop_last();
        let c = g.last();
        let t = twisted(d);
        assert forall|k: nat| k < g1.len() implies #[trigger] poly::eval(t, gf256::alpha_pow(k)) == 0 by {
            lemma_eval_twisted(d, gf256::alpha_pow(k));
            gf256::lemma_gf_mul_units(gf256::alpha_pow(k));
            assert(gf256::alpha_pow(k + 1) == gf256::xtime(gf256::alpha_pow(k)));
            assert(poly::eval(d, gf256::alpha_pow(k + 1)) == 0);
        }
        lemma_weighed_sum(g1, t);
        let w1 = weighed(g1, t);
        let rest = poly::scaled(d, c);
        assert forall|p: int| 0 <= p < n implies w[p] == w1[p] ^ rest[p] by {
            let x = place_power(n, p);
            let e = poly::eval(g1, x);
            gf256::lemma_gf_mul_distributes(d[p], gf256::gf_mul(e, x), c);
            gf256::lemma_gf_mul_associates(e, x, d[p]);
            gf256::lemma_gf_mul_commutes(x, d[p]);
            gf256::lemma_gf_mul_commutes(c, d[p]);
        }
        assert(w =~= poly::xored(w1, rest));
        poly::lemma_eval_xored(w1, rest, 1);
        poly::lemma_eval_scaled(d, c, 1);
        assert(gf256::alpha_pow(0) == 1);
        assert(poly::eval(d, gf256::alpha_pow(0)) == 0);
        gf256::lemma_gf_mul_units(c);
        poly::lemma_xor_facts(0, 0, 0);
    }
}

/// The product of `x + X` over the powers `X` of the first `m` places of a list, but for place `but`
/// and for what lies outside the word.
spec fn vanishing(n: nat, pos: Seq<usize>, but: int, m: nat) -> Seq<u8>
    decreases m,
{
    if m == 0 {
        seq![1u8]
    } else {
        let g = vanishing(n, pos, but, (m - 1) as nat);
        if pos[m - 1] == but || pos[m - 1] >= n {
            g
        } else {
            poly::product(g, seq![1u8, place_power(n, pos[m - 1] as int)])
        }
    }
}

proof fn lemma_vanishing_len(n: nat, pos: Seq<usize>, but: int, m: nat)
    requires
        m <= pos.len(),
    ensures
        1 <= vanishing(n, pos, but, m).len() <= m + 1,
        (exists|k: int| 0 <= k < m && #[trigger] pos[k] == but) ==> vanishing(n, pos, but, m).len() <= m,
    decreases m,
{
    if m > 0 {
        lemma_vanishing_len(n, pos, but, (m - 1) as nat);
    }
}

proof fn lemma_eval_linear(a: u8, x: u8)
    ensures
        poly::eval(seq![1u8, a], x) == x ^ a,
{
    reveal_with_fuel(poly::eval, 3);
    let s = seq![1u8, a];
    assert(s.drop_last() =~= seq![1u8]);
    assert(seq![1u8].drop_last() =~= Seq::<u8>::empty());
    gf256::lemma_gf_mul_units(x);
    poly::lemma_xor_facts(1, 0, 0);
}

/// The polynomial vanishes at the listed places but for the one that is left out.
proof fn lemma_vanishing_values(n: nat, pos: Seq<usize>, but: int, m: nat, p: int)
    requires
        n <= 255,
        m <= pos.len(),
        0 <= p < n,
        0 <= but < n,
    ensures
        p == but ==> poly::eval(vanishing(n, pos, but, m), place_power(n, p)) != 0,
        p != but && (exists|k: int| 0 <= k < m && #[trigger] pos[k] == p) ==> poly::eval(
            vanishing(n, pos, but, m),
            place_power(n, p),
        ) == 0,
    decreases m,
{
    let x = place_power(n, p);
    if m == 0 {
        reveal_with_fuel(poly::eval, 2);
        assert(seq![1u8].drop_last() =~= Seq::<u8>::empty());
        gf256::lemma_gf_mul_units(x);
        poly::lemma_xor_facts(1, 0, 0);
    } else {
        let m1 = (m - 1) as nat;
        lemma_vanishing_values(n, pos, but, m1, p);
        lemma_vanishing_len(n, pos, but, m1);
        let q = pos[m - 1] as int;
        if q != but && q < n {
            let g = vanishing(n, pos, but, m1);
            let a = place_power(n, q);
            let f = seq![1u8, a];
            poly::lemma_eval_product(g, f, x);
            lemma_eval_linear(a, x);
            poly::lemma_xor_facts(x, a, 0);
            gf256::lemma_gf_mul_units(poly::eval(g, x));
            gf256::lemma_gf_mul_units(x ^ a);
            if p == but {
                if x == a {
                    gf256::lemma_alpha_pow_injective((n - 1 - p) as nat, (n - 1 - q) as nat);
                }
                if gf256::gf_mul(poly::eval(g, x), x ^ a) == 0 {
                    gf256::lemma_gf_no_zero_divisors(poly::eval(g, x), x ^ a);
                }
            }
        }
    }
}

/// A word that is zero outside `pos`.
pub open spec fn is_zero_outside(d: Seq<u8>, pos: Seq<usize>) -> bool {
    forall|i: int|
        0 <= i < d.len() && d[i] != 0 ==> exists|k: int| 0 <= k < pos.len() && #[trigger] pos[k] == i
}

/// The sum of a word all but one of whose bytes are zero.
proof fn lemma_lone_byte(w: Seq<u8>, p: int)
    requires
        0 <= p < w.len(),
        forall|i: int| 0 <= i < w.len() && i != p ==> #[trigger] w[i] == 0,
    ensures
        poly::eval(w, 1) == w[p],
    decreases w.len(),
{
    let w1 = w.drop_last();
    gf256::lemma_gf_mul_units(poly::eval(w1, 1));
    if p == w.len() - 1 {
        assert(w1 =~= poly::zeros(w1.len()));
        poly::lemma_eval_zeros(w1.len(), 1);
        poly::lemma_xor_facts(w[p], 0, 0);
    } else {
        lemma_lone_byte(w1, p);
        poly::lemma_xor_facts(w[p], 0, 0);
    }
}

/// No word but zero is in the code that has no more bytes other than zero than there are check
/// symbols.
pub proof fn lemma_sparse_codeword_is_zero(d: Seq<u8>, pos: Seq<usize>, nsym: nat)
    requires
        d.len() <= 255,
        pos.len() <= nsym,
        is_zero_outside(d, pos),
        rs_codec::is_codeword(d, nsym),
    ensures
        d == poly::zeros(d.len()),
{
    let n = d.len();
    assert forall|p0: int| 0 <= p0 < n implies d[p0] == 0 by {
        if d[p0] != 0 {
            let g = vanishing(n, pos, p0, pos.len());
            lemma_vanishing_len(n, pos, p0, pos.len());
            lemma_weighed_sum(g, d);
            let w = weighed(g, d);
            assert forall|i: int| 0 <= i < n && i != p0 implies #[trigger] w[i] == 0 by {
                lemma_vanishing_values(n, pos, p0, pos.len(), i);
                gf256::lemma_gf_mul_units(d[i]);
                gf256::lemma_gf_mul_units(poly::eval(g, place_power(n, i)));
            }
            lemma_lone_byte(w, p0);
            lemma_vanishing_values(n, pos, p0, pos.len(), p0);
            gf256::lemma_gf_no_zero_divisors(poly::eval(g, place_power(n, p0)), d[p0]);
        }
    }
    assert(d =~= poly::zeros(n));
}

} // verus!
