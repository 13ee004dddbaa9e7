//! What holds of Reed-Solomon encoding and decoding together.
use crate::gf256;
use crate::gf_linear;
use crate::poly;
use crate::rs_codec;
use crate::rs_distance;
use vstd::prelude::*;

verus! {

/// Decoding an encoded message gives the message back.
pub proof fn law_decode_undoes_encode(msg: Seq<u8>, code: Seq<u8>, nsym: nat)
    requires
        code.len() == msg.len() + nsym,
        code.take(msg.len() as int) == msg,
        rs_codec::is_codeword(code, nsym),
    ensures
        rs_codec::decoded(code, nsym) == Some(msg),
{
}

/// `pos` lists all the places where two words of one length differ.
pub open spec fn differ_only_at(a: Seq<u8>, b: Seq<u8>, pos: Seq<usize>) -> bool {
    &&& a.len() == b.len()
    &&& forall|i: int|
        0 <= i < a.len() && a[i] != b[i] ==> exists|k: int| 0 <= k < pos.len() && #[trigger] pos[k] == i
}

proof fn lemma_corrected_elsewhere(code: Seq<u8>, pos: Seq<usize>, mags: Seq<u8>, n: nat)
    requires
        n <= pos.len(),
        forall|k: int| 0 <= k < pos.len() ==> #[trigger] pos[k] < code.len(),
    ensures
        differ_only_at(code, rs_codec::corrected(code, pos, mags, n), pos),
    decreases n,
{
    if n > 0 {
        let m = (n - 1) as nat;
        lemma_corrected_elsewhere(code, pos, mags, m);
        let before = rs_codec::corrected(code, pos, mags, m);
        let after = rs_codec::corrected(code, pos, mags, n);
        assert forall|i: int| 0 <= i < code.len() && code[i] != after[i] implies exists|k: int|
            0 <= k < pos.len() && #[trigger] pos[k] == i by {
            if i == pos[m as int] {
            } else {
                assert(after[i] == before[i]);
            }
        }
    }
}

/// A decoded message belongs to a codeword that differs from the received word in no more than
/// half as many places as there are parity symbols.
pub proof fn law_decoded_is_near(code: Seq<u8>, nsym: nat)
    requires
        code.len() <= usize::MAX,
        rs_codec::decoded(code, nsym) is Some,
    ensures
        exists|c: Seq<u8>, pos: Seq<usize>| #[trigger]
            differ_only_at(code, c, pos) && pos.len() * 2 <= nsym && rs_codec::is_codeword(c, nsym)
                && rs_codec::decoded(code, nsym) == Some(c.take(c.len() - nsym)),
{
    let synd = rs_codec::syndromes_of(code, nsym);
    if rs_codec::is_codeword(code, nsym) {
        assert(differ_only_at(code, code, Seq::<usize>::empty()));
    } else {
        let loc = rs_codec::error_locator(synd, nsym)->0;
        let pos = rs_codec::error_positions(loc, code.len())->0;
        rs_codec::lemma_located_in_range(loc, code.len(), code.len());
        let a = rs_codec::magnitude_matrix(pos, code.len());
        let mags = choose|x: Seq<u8>|
            gf_linear::solves(a, synd.take(pos.len() as int), x);
        lemma_corrected_elsewhere(code, pos, mags, pos.len());
        assert(differ_only_at(code, rs_codec::corrected(code, pos, mags, pos.len()), pos));
    }
}

/// The quotient of a polynomial by `x - r`.
spec fn quotient(p: Seq<u8>, r: u8) -> Seq<u8> {
    Seq::new((p.len() - 1) as nat, |i: int| poly::eval(p.take(i + 1), r))
}

proof fn lemma_quotient(p: Seq<u8>, r: u8, x: u8)
    requires
        p.len() > 0,
    ensures
        poly::eval(p, x) == gf256::gf_mul(poly::eval(quotient(p, r), x), x ^ r) ^ poly::eval(p, r),
    decreases p.len(),
{
    let p1 = p.drop_last();
    let c = p.last();
    let q = quotient(p, r);
    if p.len() == 1 {
        assert(q =~= Seq::<u8>::empty());
        assert(poly::eval(q, x) == 0);
        gf256::lemma_gf_mul_units(x ^ r);
        assert(p1 =~= Seq::<u8>::empty());
        assert(poly::eval(p1, x) == 0 && poly::eval(p1, r) == 0);
        gf256::lemma_gf_mul_units(x);
        gf256::lemma_gf_mul_units(r);
        poly::lemma_xor_facts(c, 0, 0);
        poly::lemma_xor_facts(poly::eval(p, r), 0, 0);
    } else {
        let q1 = quotient(p1, r);
        let e = poly::eval(p1, r);
        lemma_quotient(p1, r, x);
        assert(q =~= q1.push(e)) by {
            assert forall|i: int| 0 <= i < q1.len() implies q[i] == q1[i] by {
                assert(p.take(i + 1) =~= p1.take(i + 1));
            }
            assert(p.take(p.len() - 1) =~= p1);
        }
        poly::lemma_eval_push(q1, e, x);
        let s = poly::eval(q1, x);
        let d = x ^ r;
        // eval(q, x) == s x ^ e, and eval(p1, x) == s d ^ e
        let sx = gf256::gf_mul(s, x);
        gf256::lemma_gf_mul_distributes(d, sx, e);
        gf256::lemma_gf_mul_distributes(x, gf256::gf_mul(s, d), e);
        gf256::lemma_gf_mul_associates(s, x, d);
        gf256::lemma_gf_mul_associates(s, d, x);
        gf256::lemma_gf_mul_commutes(x, d);
        gf256::lemma_gf_mul_distributes(e, x, r);
        let t = gf256::gf_mul(sx, d);
        let ex = gf256::gf_mul(e, x);
        let er = gf256::gf_mul(e, r);
        assert(gf256::gf_mul(gf256::gf_mul(s, d), x) == t);
        assert(poly::eval(p, x) == (t ^ ex) ^ c);
        assert(gf256::gf_mul(poly::eval(q, x), d) == t ^ (ex ^ er));
        assert((t ^ ex) ^ c == (t ^ (ex ^ er)) ^ (er ^ c)) by (bit_vector);
    }
}

/// A polynomial with as many distinct roots `alpha^0 .. alpha^(n-1)` as coefficients is zero.
proof fn lemma_too_many_roots(p: Seq<u8>, n: nat)
    requires
        p.len() == n,
        n <= 255,
        forall|i: nat| i < n ==> #[trigger] poly::eval(p, gf256::alpha_pow(i)) == 0,
    ensures
        forall|k: int| 0 <= k < n ==> #[trigger] p[k] == 0,
    decreases n,
{
    if n > 0 {
        let m = (n - 1) as nat;
        let r = gf256::alpha_pow(m);
        let q = quotient(p, r);
        assert(poly::eval(p, r) == 0);
        assert forall|i: nat| i < m implies #[trigger] poly::eval(q, gf256::alpha_pow(i)) == 0 by {
            let x = gf256::alpha_pow(i);
            lemma_quotient(p, r, x);
            assert(poly::eval(p, x) == 0);
            let v = gf256::gf_mul(poly::eval(q, x), x ^ r);
            poly::lemma_xor_facts(v, 0, 0);
            if x == r {
                gf256::lemma_alpha_pow_injective(i, m);
            }
            poly::lemma_xor_facts(x, r, 0);
            gf256::lemma_gf_no_zero_divisors(poly::eval(q, x), x ^ r);
        }
        lemma_too_many_roots(q, m);
        assert forall|k: int| 0 <= k < n implies #[trigger] p[k] == 0 by {
            let here = p.take(k + 1);
            assert(here.drop_last() =~= p.take(k));
            if k < m {
                assert(q[k] == 0);
            } else {
                assert(here =~= p);
            }
            if k > 0 {
                assert(q[k - 1] == 0);
                assert(p.take(k - 1 + 1) =~= p.take(k));
            } else {
                assert(poly::eval(p.take(0), r) == 0);
            }
            gf256::lemma_gf_mul_units(r);
            poly::lemma_xor_facts(p[k], 0, 0);
        }
    }
}

/// With no more than 255 parity symbols a message has one codeword, so that encoding is
/// determined by the message and by being in the code.
pub proof fn law_one_codeword_per_message(c1: Seq<u8>, c2: Seq<u8>, nsym: nat)
    requires
        nsym <= 255,
        nsym <= c1.len(),
        c1.len() == c2.len(),
        c1.take(c1.len() - nsym) == c2.take(c1.len() - nsym),
        rs_codec::is_codeword(c1, nsym),
        rs_codec::is_codeword(c2, nsym),
    ensures
        c1 == c2,
{
    let head = (c1.len() - nsym) as nat;
    let d = poly::xored(c1, c2);
    let tail = d.subrange(head as int, d.len() as int);
    assert(d =~= poly::zeros(head) + tail) by {
        assert forall|i: int| 0 <= i < head implies d[i] == 0 by {
            assert(c1.take(head as int)[i] == c2.take(head as int)[i]);
            poly::lemma_xor_facts(c1[i], 0, 0);
        }
    }
    assert forall|i: nat| i < nsym implies #[trigger] poly::eval(tail, gf256::alpha_pow(i)) == 0 by {
        let x = gf256::alpha_pow(i);
        poly::lemma_eval_xored(c1, c2, x);
        assert(poly::eval(c1, x) == 0 && poly::eval(c2, x) == 0);
        poly::lemma_xor_facts(0, 0, 0);
        poly::lemma_eval_leading_zeros(head, tail, x);
    }
    lemma_too_many_roots(tail, nsym);
    assert forall|i: int| 0 <= i < c1.len() implies c1[i] == c2[i] by {
        let (a, b) = (c1[i], c2[i]);
        if i >= head {
            assert(tail[i - head] == 0);
        } else {
            assert(d[i] == 0);
        }
        poly::lemma_xor_facts(a, b, 0);
    }
    assert(c1 =~= c2);
}

/// Where a word is decoded, the codeword of the decoded message differs from the word in no more than
/// half as many places as there are parity symbols.
pub proof fn law_reencoded_is_near(code: Seq<u8>, msg: Seq<u8>, again: Seq<u8>, nsym: nat)
    requires
        code.len() <= usize::MAX,
        nsym <= 255,
        rs_codec::decoded(code, nsym) == Some(msg),
        again.len() == msg.len() + nsym,
        again.take(msg.len() as int) == msg,
        rs_codec::is_codeword(again, nsym),
    ensures
        msg.len() + nsym == code.len(),
        exists|pos: Seq<usize>| #[trigger]
            differ_only_at(code, again, pos) && pos.len() * 2 <= nsym,
{
    law_decoded_is_near(code, nsym);
    let (c, pos) = choose|c: Seq<u8>, pos: Seq<usize>| #[trigger]
        differ_only_at(code, c, pos) && pos.len() * 2 <= nsym && rs_codec::is_codeword(c, nsym)
            && rs_codec::decoded(code, nsym) == Some(c.take(c.len() - nsym));
    law_one_codeword_per_message(again, c, nsym);
    assert(differ_only_at(code, again, pos));
}

/// Codewords that differ in no more places than there are parity symbols are the same.
pub proof fn law_codewords_are_apart(c1: Seq<u8>, c2: Seq<u8>, pos: Seq<usize>, nsym: nat)
    requires
        c1.len() <= 255,
        differ_only_at(c1, c2, pos),
        pos.len() <= nsym,
        rs_codec::is_codeword(c1, nsym),
        rs_codec::is_codeword(c2, nsym),
    ensures
        c1 == c2,
{
    let d = poly::xored(c1, c2);
    assert forall|i: nat| i < nsym implies #[trigger] poly::eval(d, gf256::alpha_pow(i)) == 0 by {
        poly::lemma_eval_xored(c1, c2, gf256::alpha_pow(i));
        assert(poly::eval(c1, gf256::alpha_pow(i)) == 0 && poly::eval(c2, gf256::alpha_pow(i)) == 0);
        poly::lemma_xor_facts(0, 0, 0);
    }
    assert(rs_distance::is_zero_outside(d, pos)) by {
        assert forall|i: int| 0 <= i < d.len() && d[i] != 0 implies exists|k: int|
            0 <= k < pos.len() && #[trigger] pos[k] == i by {
            poly::lemma_xor_facts(c1[i], c2[i], 0);
        }
    }
    rs_distance::lemma_sparse_codeword_is_zero(d, pos, nsym);
    assert forall|i: int| 0 <= i < c1.len() implies c1[i] == c2[i] by {
        assert(d[i] == 0);
        poly::lemma_xor_facts(c1[i], c2[i], 0);
    }
    assert(c1 =~= c2);
}

/// The powers of alpha by which magnitudes at some places enter syndrome `k` of a word.
spec fn power_row(pos: Seq<usize>, len: nat, k: nat) -> Seq<u8> {
    Seq::new(pos.len(), |c: int| gf256::alpha_pow(((len - 1 - pos[c]) * k) as nat))
}

proof fn lemma_matrix_row(pos: Seq<usize>, len: nat, k: nat)
    requires
        k < pos.len(),
    ensures
        rs_codec::magnitude_matrix(pos, len)[k as int] == power_row(pos, len, k),
{
    assert(rs_codec::magnitude_matrix(pos, len)[k as int] =~= power_row(pos, len, k));
}

/// What one changed byte adds to a syndrome.
proof fn lemma_eval_changed(w: Seq<u8>, p: int, v: u8, k: nat)
    requires
        0 <= p < w.len(),
    ensures
        poly::eval(w.update(p, w[p] ^ v), gf256::alpha_pow(k)) == poly::eval(
            w,
            gf256::alpha_pow(k),
        ) ^ gf256::gf_mul(gf256::alpha_pow(((w.len() - 1 - p) * k) as nat), v),
    decreases w.len(),
{
    let n = w.len();
    let x = gf256::alpha_pow(k);
    let u = w.update(p, w[p] ^ v);
    let w1 = w.drop_last();
    let e1 = poly::eval(w1, x);
    if p == n - 1 {
        assert(u.drop_last() =~= w1);
        assert((n - 1 - p) * k == 0) by (nonlinear_arith)
            requires
                n - 1 - p == 0,
        ;
        assert(gf256::alpha_pow(0) == 1);
        gf256::lemma_gf_mul_units(v);
        poly::lemma_xor_facts(gf256::gf_mul(e1, x), w[p], v);
    } else {
        lemma_eval_changed(w1, p, v, k);
        assert(u.drop_last() =~= w1.update(p, w1[p] ^ v));
        let m = ((n - 2 - p) * k) as nat;
        assert((n - 2 - p) * k >= 0 && (n - 1 - p) * k == (n - 2 - p) * k + k) by (nonlinear_arith)
            requires
                n - 2 - p >= 0,
                k >= 0,
        ;
        let a = gf256::alpha_pow(m);
        gf256::lemma_alpha_pow_sum(m, k);
        gf256::lemma_gf_mul_distributes(x, e1, gf256::gf_mul(a, v));
        gf256::lemma_gf_mul_associates(a, v, x);
        gf256::lemma_gf_mul_commutes(v, x);
        gf256::lemma_gf_mul_associates(a, x, v);
        let t = gf256::gf_mul(gf256::gf_mul(a, x), v);
        poly::lemma_xor_facts(gf256::gf_mul(e1, x), t, w.last());
        poly::lemma_xor_facts(gf256::gf_mul(e1, x), w.last(), t);
        poly::lemma_xor_facts(t, w.last(), 0);
    }
}

/// What magnitudes add to a syndrome.
proof fn lemma_eval_corrected(code: Seq<u8>, pos: Seq<usize>, mags: Seq<u8>, m: nat, k: nat)
    requires
        m <= pos.len(),
        m <= mags.len(),
        forall|c: int| 0 <= c < pos.len() ==> #[trigger] pos[c] < code.len(),
    ensures
        rs_codec::corrected(code, pos, mags, m).len() == code.len(),
        poly::eval(rs_codec::corrected(code, pos, mags, m), gf256::alpha_pow(k)) == poly::eval(
            code,
            gf256::alpha_pow(k),
        ) ^ gf_linear::dot(power_row(pos, code.len(), k), mags, m),
    decreases m,
{
    let x = gf256::alpha_pow(k);
    if m == 0 {
        poly::lemma_xor_facts(poly::eval(code, x), 0, 0);
    } else {
        let m1 = (m - 1) as nat;
        lemma_eval_corrected(code, pos, mags, m1, k);
        let w = rs_codec::corrected(code, pos, mags, m1);
        let p = pos[m1 as int] as int;
        lemma_eval_changed(w, p, mags[m1 as int], k);
        let row = power_row(pos, code.len(), k);
        poly::lemma_xor_facts(
            poly::eval(code, x),
            gf_linear::dot(row, mags, m1),
            gf256::gf_mul(row[m1 as int], mags[m1 as int]),
        );
    }
}

/// Each magnitude is added at its place, and nothing elsewhere.
proof fn lemma_corrected_values(code: Seq<u8>, pos: Seq<usize>, mags: Seq<u8>, m: nat)
    requires
        m <= pos.len(),
        m <= mags.len(),
        pos.no_duplicates(),
        forall|c: int| 0 <= c < pos.len() ==> #[trigger] pos[c] < code.len(),
    ensures
        ({
            let w = rs_codec::corrected(code, pos, mags, m);
            &&& w.len() == code.len()
            &&& forall|c: int|
                0 <= c < pos.len() ==> w[(#[trigger] pos[c]) as int] == if c < m {
                    code[pos[c] as int] ^ mags[c]
                } else {
                    code[pos[c] as int]
                }
        }),
    decreases m,
{
    if m > 0 {
        lemma_corrected_values(code, pos, mags, (m - 1) as nat);
    }
}

/// The equations for the magnitudes at distinct places have one solution.
proof fn lemma_magnitudes_determined(pos: Seq<usize>, n: nat)
    requires
        n <= 255,
        pos.no_duplicates(),
        forall|c: int| 0 <= c < pos.len() ==> #[trigger] pos[c] < n,
    ensures
        !gf_linear::is_singular(rs_codec::magnitude_matrix(pos, n)),
{
    let t = pos.len();
    let a = rs_codec::magnitude_matrix(pos, n);
    let z = poly::zeros(n);
    assert forall|y: Seq<u8>| #[trigger] gf_linear::solves(a, poly::zeros(t), y) implies y
        == poly::zeros(t) by {
        let d = rs_codec::corrected(z, pos, y, t);
        assert forall|k: nat| k < t implies #[trigger] poly::eval(d, gf256::alpha_pow(k)) == 0 by {
            lemma_eval_corrected(z, pos, y, t, k);
            lemma_matrix_row(pos, n, k);
            poly::lemma_eval_zeros(n, gf256::alpha_pow(k));
            assert(gf_linear::dot(a[k as int], y, t) == 0);
            poly::lemma_xor_facts(0, 0, 0);
        }
        lemma_corrected_elsewhere(z, pos, y, t);
        assert(rs_distance::is_zero_outside(d, pos)) by {
            assert forall|i: int| 0 <= i < d.len() && d[i] != 0 implies exists|k: int|
                0 <= k < pos.len() && #[trigger] pos[k] == i by {
                assert(z[i] != d[i]);
            }
        }
        lemma_corrected_values(z, pos, y, t);
        rs_distance::lemma_sparse_codeword_is_zero(d, pos, t);
        assert forall|c: int| 0 <= c < t implies y[c] == 0 by {
            assert(d[pos[c] as int] == 0 ^ y[c]);
            poly::lemma_xor_facts(y[c], 0, 0);
        }
        assert(y =~= poly::zeros(t));
    }
}

/// The places at which a locator vanishes are listed once each.
proof fn lemma_located(loc: Seq<u8>, nmsg: nat, n: nat)
    requires
        n <= nmsg <= usize::MAX,
    ensures
        ({
            let pos = rs_codec::located(loc, nmsg, n);
            &&& pos.no_duplicates()
            &&& forall|k: int|
                0 <= k < pos.len() ==> nmsg - n <= (#[trigger] pos[k]) < nmsg && poly::eval(
                    loc,
                    gf256::alpha_pow((nmsg - 1 - pos[k]) as nat),
                ) == 0
        }),
    decreases n,
{
    if n > 0 {
        lemma_located(loc, nmsg, (n - 1) as nat);
    }
}

/// The places that decoding may change of a word that is not in the code: those at which the locator
/// of its syndromes vanishes, where they are as many as its degree.
pub open spec fn found_places(code: Seq<u8>, nsym: nat) -> Option<Seq<usize>> {
    match rs_codec::error_locator(rs_codec::syndromes_of(code, nsym), nsym) {
        None => None,
        Some(loc) => rs_codec::error_positions(loc, code.len()),
    }
}

/// A word that is not in the code is corrected to a codeword exactly where the two differ at no place
/// but those that are found. That these are the places of the errors is not promised: see
/// [`law_single_error`].
pub proof fn law_corrected_exactly(code: Seq<u8>, c: Seq<u8>, nsym: nat)
    requires
        nsym <= code.len() <= 255,
        c.len() == code.len(),
        rs_codec::is_codeword(c, nsym),
        !rs_codec::is_codeword(code, nsym),
    ensures
        rs_codec::decoded(code, nsym) == Some(c.take(c.len() - nsym)) <==> (found_places(code, nsym)
            matches Some(pos) && differ_only_at(code, c, pos)),
{
    let n = code.len();
    let synd = rs_codec::syndromes_of(code, nsym);
    if found_places(code, nsym) is Some {
        let loc = rs_codec::error_locator(synd, nsym)->0;
        let pos = found_places(code, nsym)->0;
        let t = pos.len();
        lemma_located(loc, n, n);
        let a = rs_codec::magnitude_matrix(pos, n);
        lemma_magnitudes_determined(pos, n);
        let sel = choose|x: Seq<u8>| gf_linear::solves(a, synd.take(t as int), x);
        let fixed = rs_codec::corrected(code, pos, sel, t);
        lemma_corrected_elsewhere(code, pos, sel, t);
        if rs_codec::decoded(code, nsym) == Some(c.take(n - nsym)) {
            assert(fixed.take(n - nsym) == c.take(n - nsym));
            law_one_codeword_per_message(fixed, c, nsym);
        }
        if differ_only_at(code, c, pos) {
            let x = Seq::new(t, |k: int| code[pos[k] as int] ^ c[pos[k] as int]);
            lemma_differences_correct(code, c, pos, x);
            lemma_differences_solve(code, c, pos, x, nsym);
            lemma_one_solution(a, synd.take(t as int), x, sel);
        }
    }
}

/// Adding the differences at their places turns one word into the other.
proof fn lemma_differences_correct(code: Seq<u8>, c: Seq<u8>, pos: Seq<usize>, x: Seq<u8>)
    requires
        differ_only_at(code, c, pos),
        pos.no_duplicates(),
        forall|k: int| 0 <= k < pos.len() ==> #[trigger] pos[k] < code.len(),
        x.len() == pos.len(),
        forall|k: int| 0 <= k < pos.len() ==> x[k] == code[#[trigger] pos[k] as int] ^ c[pos[k] as int],
    ensures
        rs_codec::corrected(code, pos, x, pos.len()) == c,
{
    let w = rs_codec::corrected(code, pos, x, pos.len());
    lemma_corrected_values(code, pos, x, pos.len());
    lemma_corrected_elsewhere(code, pos, x, pos.len());
    assert forall|i: int| 0 <= i < code.len() implies w[i] == c[i] by {
        if exists|k: int| 0 <= k < pos.len() && #[trigger] pos[k] == i {
            let k = choose|k: int| 0 <= k < pos.len() && #[trigger] pos[k] == i;
            let (u, v) = (code[i], c[i]);
            assert(w[pos[k] as int] == u ^ (u ^ v));
            poly::lemma_xor_facts(u, u, v);
            poly::lemma_xor_facts(v, 0, 0);
        }
    }
    assert(w =~= c);
}

/// The differences from a codeword solve the equations for the magnitudes.
proof fn lemma_differences_solve(code: Seq<u8>, c: Seq<u8>, pos: Seq<usize>, x: Seq<u8>, nsym: nat)
    requires
        rs_codec::is_codeword(c, nsym),
        rs_codec::corrected(code, pos, x, pos.len()) == c,
        pos.len() <= nsym,
        forall|k: int| 0 <= k < pos.len() ==> #[trigger] pos[k] < code.len(),
        x.len() == pos.len(),
    ensures
        gf_linear::solves(
            rs_codec::magnitude_matrix(pos, code.len()),
            rs_codec::syndromes_of(code, nsym).take(pos.len() as int),
            x,
        ),
{
    let a = rs_codec::magnitude_matrix(pos, code.len());
    let t = pos.len();
    assert forall|r: int| 0 <= r < t implies gf_linear::dot(#[trigger] a[r], x, t)
        == rs_codec::syndromes_of(code, nsym).take(t as int)[r] by {
        lemma_eval_corrected(code, pos, x, t, r as nat);
        lemma_matrix_row(pos, code.len(), r as nat);
        assert(poly::eval(c, gf256::alpha_pow(r as nat)) == 0);
        poly::lemma_xor_facts(
            poly::eval(code, gf256::alpha_pow(r as nat)),
            gf_linear::dot(a[r], x, t),
            0,
        );
    }
}

proof fn lemma_one_solution(a: Seq<Seq<u8>>, b: Seq<u8>, x: Seq<u8>, y: Seq<u8>)
    requires
        !gf_linear::is_singular(a),
        gf_linear::solves(a, b, x),
        gf_linear::solves(a, b, y),
    ensures
        x == y,
{
    let d = poly::xored(x, y);
    assert forall|r: int| 0 <= r < a.len() implies gf_linear::dot(#[trigger] a[r], d, a.len())
        == poly::zeros(a.len())[r] by {
        gf_linear::lemma_dot_sum(a[r], x, y, a.len());
        poly::lemma_xor_facts(b[r], 0, 0);
    }
    assert(gf_linear::solves(a, poly::zeros(a.len()), d));
    assert forall|i: int| 0 <= i < x.len() implies x[i] == y[i] by {
        assert(d[i] == 0);
        poly::lemma_xor_facts(x[i], y[i], 0);
    }
    assert(x =~= y);
}

/// A word with no more errors than half the parity symbols is decoded to the message that was sent
/// or not at all.
pub proof fn law_never_miscorrected(code: Seq<u8>, c: Seq<u8>, pos: Seq<usize>, nsym: nat)
    requires
        code.len() <= 255,
        rs_codec::is_codeword(c, nsym),
        differ_only_at(code, c, pos),
        pos.len() * 2 <= nsym,
    ensures
        rs_codec::decoded(code, nsym) is Some ==> rs_codec::decoded(code, nsym) == Some(
            c.take(c.len() - nsym),
        ),
{
    if rs_codec::decoded(code, nsym) is Some {
        law_decoded_is_near(code, nsym);
        let (near, at) = choose|near: Seq<u8>, at: Seq<usize>| #[trigger]
            differ_only_at(code, near, at) && at.len() * 2 <= nsym && rs_codec::is_codeword(near, nsym)
                && rs_codec::decoded(code, nsym) == Some(near.take(near.len() - nsym));
        let both = pos + at;
        assert forall|i: int| 0 <= i < c.len() && c[i] != near[i] implies exists|k: int|
            0 <= k < both.len() && #[trigger] both[k] == i by {
            if code[i] != c[i] {
                let k = choose|k: int| 0 <= k < pos.len() && #[trigger] pos[k] == i;
                assert(both[k] == i);
            } else {
                let k = choose|k: int| 0 <= k < at.len() && #[trigger] at[k] == i;
                assert(both[pos.len() + k] == i);
            }
        }
        law_codewords_are_apart(c, near, both, nsym);
    }
}

/// The syndromes of a word with the one error `e` in the place of the power `k`.
spec fn lone_syndromes(e: u8, k: nat, nsym: nat) -> Seq<u8> {
    Seq::new(nsym, |i: int| gf256::gf_mul(gf256::alpha_pow((k * i) as nat), e))
}

proof fn lemma_lone_syndromes(code: Seq<u8>, c: Seq<u8>, p: int, e: u8, nsym: nat)
    requires
        0 <= p < c.len(),
        code == c.update(p, c[p] ^ e),
        rs_codec::is_codeword(c, nsym),
    ensures
        rs_codec::syndromes_of(code, nsym) == lone_syndromes(e, (c.len() - 1 - p) as nat, nsym),
{
    let s = rs_codec::syndromes_of(code, nsym);
    let k = (c.len() - 1 - p) as nat;
    assert forall|i: int| 0 <= i < nsym implies s[i] == lone_syndromes(e, k, nsym)[i] by {
        lemma_eval_changed(c, p, e, i as nat);
        assert(poly::eval(c, gf256::alpha_pow(i as nat)) == 0);
        poly::lemma_xor_facts(gf256::gf_mul(gf256::alpha_pow((k * i) as nat), e), 0, 0);
    }
    assert(s =~= lone_syndromes(e, k, nsym));
}

/// The first step of the recurrence on the syndromes of one error.
proof fn lemma_first_step(e: u8, k: nat, nsym: nat)
    requires
        e != 0,
        1 <= nsym,
    ensures
        rs_codec::locator_run(lone_syndromes(e, k, nsym), 1) == (seq![e, 1u8], seq![gf256::gf_inv(e)]),
{
    let s = lone_syndromes(e, k, nsym);
    reveal_with_fuel(rs_codec::locator_run, 2);
    let one = seq![1u8];
    assert(rs_codec::locator_sum(one, s, 0, 1) == 0);
    assert(k * 0 == 0) by (nonlinear_arith);
    assert(gf256::alpha_pow(0) == 1);
    gf256::lemma_gf_mul_units(e);
    poly::lemma_xor_facts(e, 0, 0);
    assert(rs_codec::discrepancy(one, s, 0) == e);
    let inv = gf256::gf_inv(e);
    gf256::lemma_gf_mul_units(inv);
    gf256::lemma_gf_inv(e);
    let old = one.push(0);
    let next_old = poly::scaled(one, inv);
    assert(next_old =~= seq![inv]);
    assert(poly::scaled(next_old, e) =~= one);
    assert(poly::scaled(old, e) =~= seq![e, 0u8]);
    poly::lemma_xor_facts(1, 0, 0);
    assert(poly::aligned_sum(seq![e, 0u8], one) =~= seq![e, 1u8]);
}

/// From the second step on the locator is that of one error.
proof fn lemma_lone_locator(e: u8, k: nat, nsym: nat, m: nat)
    requires
        e != 0,
        2 <= m <= nsym,
    ensures
        rs_codec::locator_run(lone_syndromes(e, k, nsym), m).0 == seq![gf256::alpha_pow(k), 1u8],
    decreases m,
{
    let s = lone_syndromes(e, k, nsym);
    let x = gf256::alpha_pow(k);
    let i = m - 1;
    let st = rs_codec::locator_run(s, i as nat);
    gf256::lemma_alpha_pow_nonzero(k);
    assert(k * (i - 1) >= 0 && k * i == k + k * (i - 1)) by (nonlinear_arith)
        requires
            i >= 1,
            k >= 0,
    ;
    gf256::lemma_alpha_pow_sum(k, (k * (i - 1)) as nat);
    let before = s[i - 1];
    gf256::lemma_gf_mul_associates(x, gf256::alpha_pow((k * (i - 1)) as nat), e);
    assert(s[i] == gf256::gf_mul(x, before));
    assert(st.0.len() == 2 && st.0[1] == 1) by {
        if m == 2 {
            lemma_first_step(e, k, nsym);
        } else {
            lemma_lone_locator(e, k, nsym, i as nat);
        }
    }
    let delta = rs_codec::discrepancy(st.0, s, i);
    assert(delta == s[i] ^ gf256::gf_mul(st.0[0], before)) by {
        reveal_with_fuel(rs_codec::locator_sum, 3);
        poly::lemma_xor_facts(gf256::gf_mul(st.0[0], before), 0, 0);
    }
    if m == 2 {
        lemma_first_step(e, k, nsym);
        assert(k * 0 == 0) by (nonlinear_arith);
        assert(gf256::alpha_pow(0) == 1);
        gf256::lemma_gf_mul_units(e);
        assert(before == e);
        let inv = gf256::gf_inv(e);
        gf256::lemma_gf_mul_distributes(e, x, e);
        assert(delta == gf256::gf_mul(x ^ e, e));
        poly::lemma_xor_facts(x, e, 0);
        if delta == 0 {
            gf256::lemma_gf_no_zero_divisors(x ^ e, e);
        } else {
            let old = st.1.push(0);
            gf256::lemma_gf_inv(e);
            gf256::lemma_gf_mul_commutes(inv, delta);
            gf256::lemma_gf_mul_associates(x ^ e, e, inv);
            gf256::lemma_gf_mul_units(x ^ e);
            assert(gf256::gf_mul(inv, delta) == x ^ e);
            gf256::lemma_gf_mul_units(delta);
            assert(poly::scaled(old, delta) =~= seq![x ^ e, 0u8]);
            poly::lemma_xor_facts(e, x, e);
            poly::lemma_xor_facts(e, e, x);
            poly::lemma_xor_facts(x, e, e);
            poly::lemma_xor_facts(x, 0, 0);
            poly::lemma_xor_facts(1, 0, 0);
            assert(e ^ (x ^ e) == x);
            assert(poly::aligned_sum(st.0, seq![x ^ e, 0u8]) =~= seq![x, 1u8]);
        }
    } else {
        lemma_lone_locator(e, k, nsym, i as nat);
        poly::lemma_xor_facts(s[i], 0, 0);
    }
}

/// The value of the locator of one error.
proof fn lemma_lone_locator_value(k: nat, i: nat)
    ensures
        poly::eval(seq![gf256::alpha_pow(k), 1u8], gf256::alpha_pow(i)) == gf256::alpha_pow(k + i) ^ 1,
        poly::eval(seq![gf256::alpha_pow(k), 1u8], gf256::alpha_pow(i)) == 0 <==> (k + i) % 255 == 0,
{
    let x = gf256::alpha_pow(i);
    let s = seq![gf256::alpha_pow(k), 1u8];
    reveal_with_fuel(poly::eval, 3);
    assert(s.drop_last() =~= seq![gf256::alpha_pow(k)]);
    assert(seq![gf256::alpha_pow(k)].drop_last() =~= Seq::<u8>::empty());
    gf256::lemma_gf_mul_units(x);
    poly::lemma_xor_facts(gf256::alpha_pow(k), 0, 0);
    gf256::lemma_alpha_pow_sum(k, i);
    let v = gf256::alpha_pow(k + i);
    poly::lemma_xor_facts(v, 1, 0);
    poly::lemma_xor_facts(1, 0, 0);
    gf256::lemma_alpha_pow_mod(k + i);
    assert(gf256::alpha_pow(0) == 1);
    if v == 1 {
        gf256::lemma_alpha_pow_injective((k + i) % 255, 0);
    }
}

/// Of single errors the one in the last byte is corrected, and no other: a word with one wrong byte
/// anywhere else is not decoded.
pub proof fn law_single_error(code: Seq<u8>, c: Seq<u8>, p: int, nsym: nat)
    requires
        2 <= nsym <= c.len() <= 255,
        rs_codec::is_codeword(c, nsym),
        code.len() == c.len(),
        0 <= p < c.len(),
        code[p] != c[p],
        forall|i: int| 0 <= i < c.len() && i != p ==> code[i] == c[i],
    ensures
        rs_codec::decoded(code, nsym) == if p == c.len() - 1 {
            Some(c.take(c.len() - nsym))
        } else {
            None
        },
{
    let n = c.len();
    let e = c[p] ^ code[p];
    let k = (n - 1 - p) as nat;
    poly::lemma_xor_facts(c[p], code[p], 0);
    poly::lemma_xor_facts(c[p], c[p], code[p]);
    poly::lemma_xor_facts(code[p], 0, 0);
    assert(code =~= c.update(p, c[p] ^ e));
    lemma_lone_syndromes(code, c, p, e, nsym);
    lemma_lone_locator(e, k, nsym, nsym);
    let loc = seq![gf256::alpha_pow(k), 1u8];
    gf256::lemma_alpha_pow_nonzero(k);
    let synd = rs_codec::syndromes_of(code, nsym);
    assert(rs_codec::error_locator(synd, nsym) == Some(loc));
    let here = seq![p as usize];
    assert(differ_only_at(code, c, here)) by {
        assert(here[0] == p);
    }
    if rs_codec::is_codeword(code, nsym) {
        law_codewords_are_apart(code, c, here, nsym);
    }
    if p == n - 1 {
        lemma_last_place_located(loc, n, n);
        assert(found_places(code, nsym) == Some(seq![(n - 1) as usize]));
        law_corrected_exactly(code, c, nsym);
    } else if rs_codec::decoded(code, nsym) is Some {
        law_never_miscorrected(code, c, here, nsym);
        law_corrected_exactly(code, c, nsym);
        let pos = found_places(code, nsym)->0;
        let j = choose|j: int| 0 <= j < pos.len() && #[trigger] pos[j] == p;
        lemma_located(loc, n, n);
        assert(pos[j] == p);
        lemma_lone_locator_value(k, k);
    }
}

/// The locator of an error in the last byte vanishes there alone.
proof fn lemma_last_place_located(loc: Seq<u8>, nmsg: nat, n: nat)
    requires
        loc == seq![gf256::alpha_pow(0), 1u8],
        1 <= n <= nmsg <= 255,
    ensures
        rs_codec::located(loc, nmsg, n) == seq![(nmsg - 1) as usize],
    decreases n,
{
    lemma_lone_locator_value(0, (n - 1) as nat);
    reveal_with_fuel(rs_codec::located, 2);
    if n > 1 {
        lemma_last_place_located(loc, nmsg, (n - 1) as nat);
    } else {
        assert(rs_codec::located(loc, nmsg, 1) =~= seq![(nmsg - 1) as usize]);
    }
}

/// The sum of all bytes.
pub open spec fn byte_sum(s: Seq<u8>) -> u8
    decreases s.len(),
{
    if s.len() == 0 {
        0
    } else {
        byte_sum(s.drop_last()) ^ s.last()
    }
}

proof fn lemma_value_at_one(s: Seq<u8>)
    ensures
        poly::eval(s, 1) == byte_sum(s),
    decreases s.len(),
{
    if s.len() > 0 {
        lemma_value_at_one(s.drop_last());
        gf256::lemma_gf_mul_units(byte_sum(s.drop_last()));
    }
}

/// The bytes of a codeword cancel: one is the first root of its generator.
pub proof fn law_bytes_of_a_codeword_cancel(code: Seq<u8>, nsym: nat)
    requires
        nsym > 0,
        rs_codec::is_codeword(code, nsym),
    ensures
        byte_sum(code) == 0,
{
    lemma_value_at_one(code);
    assert(gf256::alpha_pow(0) == 1);
    assert(poly::eval(code, gf256::alpha_pow(0)) == 0);
}

} // verus!
