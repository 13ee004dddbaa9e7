//! Arithmetic in GF(2^8) modulo x^8 + x^4 + x^3 + x^2 + 1, the field of the boot code.
use crate::counting;
use vstd::prelude::*;

verus! {

/// Multiplication by the generator `x`, reduced.
pub open spec fn xtime(a: u8) -> u8 {
    if a & 0x80 == 0 {
        a << 1
    } else {
        (a << 1) ^ 0x1d
    }
}

/// The part of a product that one bit of the second factor contributes.
pub open spec fn gf_term(a: u8, b: u8, mask: u8) -> u8 {
    if b & mask == 0 {
        0
    } else {
        a
    }
}

/// The product of two field elements: the sum over the bits of `b` of `a` times that power of `x`.
#[verifier::opaque]
pub open spec fn gf_mul(a: u8, b: u8) -> u8 {
    gf_term(a, b, 1)
    ^ gf_term(xtime(a), b, 2)
    ^ gf_term(xtime(xtime(a)), b, 4)
    ^ gf_term(xtime(xtime(xtime(a))), b, 8)
    ^ gf_term(xtime(xtime(xtime(xtime(a)))), b, 16)
    ^ gf_term(xtime(xtime(xtime(xtime(xtime(a))))), b, 32)
    ^ gf_term(xtime(xtime(xtime(xtime(xtime(xtime(a)))))), b, 64)
    ^ gf_term(xtime(xtime(xtime(xtime(xtime(xtime(xtime(a))))))), b, 128)
}

/// A map on bytes that respects addition, which in this field is exclusive or.
pub open spec fn is_additive(f: spec_fn(u8) -> u8) -> bool {
    forall|x: u8, y: u8| #[trigger] f(x ^ y) == f(x) ^ f(y)
}

/// Additive maps that agree on the eight single-bit bytes agree everywhere.
proof fn lemma_additive_maps_agree(f: spec_fn(u8) -> u8, g: spec_fn(u8) -> u8, b: u8)
    requires
        is_additive(f),
        is_additive(g),
        f(0) == g(0),
        f(1) == g(1),
        f(2) == g(2),
        f(4) == g(4),
        f(8) == g(8),
        f(16) == g(16),
        f(32) == g(32),
        f(64) == g(64),
        f(128) == g(128),
    ensures
        f(b) == g(b),
{
    assert(b == (((((((b & 1) ^ (b & 2)) ^ (b & 4)) ^ (b & 8)) ^ (b & 16)) ^ (b & 32)) ^ (b & 64))
        ^ (b & 128) && (b & 1 == 0 || b & 1 == 1) && (b & 2 == 0 || b & 2 == 2) && (b & 4 == 0 || b
        & 4 == 4) && (b & 8 == 0 || b & 8 == 8) && (b & 16 == 0 || b & 16 == 16) && (b & 32 == 0
        || b & 32 == 32) && (b & 64 == 0 || b & 64 == 64) && (b & 128 == 0 || b & 128 == 128))
        by (bit_vector);
    let b2 = (b & 1) ^ (b & 2);
    let b3 = b2 ^ (b & 4);
    let b4 = b3 ^ (b & 8);
    let b5 = b4 ^ (b & 16);
    let b6 = b5 ^ (b & 32);
    let b7 = b6 ^ (b & 64);
    assert(f(b2) == g(b2));
    assert(f(b3) == g(b3));
    assert(f(b4) == g(b4));
    assert(f(b5) == g(b5));
    assert(f(b6) == g(b6));
    assert(f(b7) == g(b7));
}

proof fn lemma_distributes_right(a: u8, b: u8, c: u8)
    ensures
        gf_mul(a, b ^ c) == gf_mul(a, b) ^ gf_mul(a, c),
{
    assert(gf_mul(a, b ^ c) == gf_mul(a, b) ^ gf_mul(a, c)) by (bit_vector);
}

proof fn lemma_mul_by_single_bit(a: u8)
    ensures
        gf_mul(a, 0) == 0,
        gf_mul(a, 1) == a,
        gf_mul(a, 2) == xtime(a),
        gf_mul(a, 4) == xtime(xtime(a)),
        gf_mul(a, 8) == xtime(xtime(xtime(a))),
        gf_mul(a, 16) == xtime(xtime(xtime(xtime(a)))),
        gf_mul(a, 32) == xtime(xtime(xtime(xtime(xtime(a))))),
        gf_mul(a, 64) == xtime(xtime(xtime(xtime(xtime(xtime(a)))))),
        gf_mul(a, 128) == xtime(xtime(xtime(xtime(xtime(xtime(xtime(a))))))),
{
    assert(gf_mul(a, 0) == 0 && gf_mul(a, 1) == a && gf_mul(a, 2) == xtime(a) && gf_mul(a, 4)
        == xtime(xtime(a)) && gf_mul(a, 8) == xtime(xtime(xtime(a))) && gf_mul(a, 16) == xtime(
        xtime(xtime(xtime(a))),
    ) && gf_mul(a, 32) == xtime(xtime(xtime(xtime(xtime(a))))) && gf_mul(a, 64) == xtime(
        xtime(xtime(xtime(xtime(xtime(a))))),
    ) && gf_mul(a, 128) == xtime(xtime(xtime(xtime(xtime(xtime(xtime(a)))))))) by (bit_vector);
}

proof fn lemma_xor_swap_middle(p: u8, q: u8, r: u8, s: u8)
    ensures
        (p ^ q) ^ (r ^ s) == (p ^ r) ^ (q ^ s),
{
    assert((p ^ q) ^ (r ^ s) == (p ^ r) ^ (q ^ s)) by (bit_vector);
}

pub proof fn lemma_gf_mul_distributes(a: u8, b: u8, c: u8)
    ensures
        gf_mul(a, b ^ c) == gf_mul(a, b) ^ gf_mul(a, c),
        gf_mul(b ^ c, a) == gf_mul(b, a) ^ gf_mul(c, a),
{
    lemma_distributes_right(a, b, c);
    let f = |y: u8| gf_mul(b ^ c, y);
    let g = |y: u8| gf_mul(b, y) ^ gf_mul(c, y);
    assert forall|x: u8, y: u8| #[trigger] f(x ^ y) == f(x) ^ f(y) by {
        lemma_distributes_right(b ^ c, x, y);
    }
    assert forall|x: u8, y: u8| #[trigger] g(x ^ y) == g(x) ^ g(y) by {
        lemma_distributes_right(b, x, y);
        lemma_distributes_right(c, x, y);
        lemma_xor_swap_middle(gf_mul(b, x), gf_mul(b, y), gf_mul(c, x), gf_mul(c, y));
    }
    lemma_mul_by_single_bit(b);
    lemma_mul_by_single_bit(c);
    lemma_mul_by_single_bit(b ^ c);
    assert(gf_mul(b, 0) ^ gf_mul(c, 0) == 0) by {
        assert(0u8 ^ 0u8 == 0u8) by (bit_vector);
    }
    let (b1, c1) = (xtime(b), xtime(c));
    let (b2, c2) = (xtime(b1), xtime(c1));
    let (b3, c3) = (xtime(b2), xtime(c2));
    let (b4, c4) = (xtime(b3), xtime(c3));
    let (b5, c5) = (xtime(b4), xtime(c4));
    let (b6, c6) = (xtime(b5), xtime(c5));
    lemma_xtime_additive(b, c);
    lemma_xtime_additive(b1, c1);
    lemma_xtime_additive(b2, c2);
    lemma_xtime_additive(b3, c3);
    lemma_xtime_additive(b4, c4);
    lemma_xtime_additive(b5, c5);
    lemma_xtime_additive(b6, c6);
    lemma_additive_maps_agree(f, g, a);
}

pub proof fn lemma_gf_mul_units(a: u8)
    ensures
        gf_mul(a, 1) == a,
        gf_mul(1, a) == a,
        gf_mul(a, 0) == 0,
        gf_mul(0, a) == 0,
        gf_mul(2, a) == xtime(a),
        gf_mul(a, 2) == xtime(a),
{
    assert(gf_mul(a, 1) == a && gf_mul(1, a) == a && gf_mul(a, 0) == 0 && gf_mul(0, a) == 0
        && gf_mul(2, a) == xtime(a) && gf_mul(a, 2) == xtime(a)) by (bit_vector);
}

pub proof fn lemma_gf_mul_commutes(a: u8, b: u8)
    ensures
        gf_mul(a, b) == gf_mul(b, a),
{
    let f = |y: u8| gf_mul(a, y);
    let g = |y: u8| gf_mul(y, a);
    assert forall|x: u8, y: u8| #[trigger] f(x ^ y) == f(x) ^ f(y) by {
        lemma_gf_mul_distributes(a, x, y);
    }
    assert forall|x: u8, y: u8| #[trigger] g(x ^ y) == g(x) ^ g(y) by {
        lemma_gf_mul_distributes(a, x, y);
    }
    assert(gf_mul(a, 0) == gf_mul(0, a) && gf_mul(a, 1) == gf_mul(1, a) && gf_mul(a, 2) == gf_mul(
        2,
        a,
    ) && gf_mul(a, 4) == gf_mul(4, a) && gf_mul(a, 8) == gf_mul(8, a) && gf_mul(a, 16) == gf_mul(
        16,
        a,
    ) && gf_mul(a, 32) == gf_mul(32, a) && gf_mul(a, 64) == gf_mul(64, a) && gf_mul(a, 128)
        == gf_mul(128, a)) by (bit_vector);
    lemma_additive_maps_agree(f, g, b);
}

proof fn lemma_xtime_additive(a: u8, b: u8)
    ensures
        xtime(a ^ b) == xtime(a) ^ xtime(b),
{
    assert(xtime(a ^ b) == xtime(a) ^ xtime(b)) by (bit_vector);
}

proof fn lemma_mul_xtime(a: u8, b: u8)
    ensures
        gf_mul(a, xtime(b)) == xtime(gf_mul(a, b)),
{
    let f = |y: u8| gf_mul(a, xtime(y));
    let g = |y: u8| xtime(gf_mul(a, y));
    assert forall|x: u8, y: u8| #[trigger] f(x ^ y) == f(x) ^ f(y) by {
        lemma_xtime_additive(x, y);
        lemma_gf_mul_distributes(a, xtime(x), xtime(y));
    }
    assert forall|x: u8, y: u8| #[trigger] g(x ^ y) == g(x) ^ g(y) by {
        lemma_gf_mul_distributes(a, x, y);
        lemma_xtime_additive(gf_mul(a, x), gf_mul(a, y));
    }
    assert(gf_mul(a, xtime(0)) == xtime(gf_mul(a, 0)) && gf_mul(a, xtime(1)) == xtime(gf_mul(a, 1))
        && gf_mul(a, xtime(2)) == xtime(gf_mul(a, 2)) && gf_mul(a, xtime(4)) == xtime(gf_mul(a, 4))
        && gf_mul(a, xtime(8)) == xtime(gf_mul(a, 8)) && gf_mul(a, xtime(16)) == xtime(
        gf_mul(a, 16),
    ) && gf_mul(a, xtime(32)) == xtime(gf_mul(a, 32)) && gf_mul(a, xtime(64)) == xtime(
        gf_mul(a, 64),
    ) && gf_mul(a, xtime(128)) == xtime(gf_mul(a, 128))) by (bit_vector);
    lemma_additive_maps_agree(f, g, b);
}

proof fn lemma_assoc_at_doubling(a: u8, b: u8, c: u8)
    requires
        gf_mul(a, gf_mul(b, c)) == gf_mul(gf_mul(a, b), c),
    ensures
        gf_mul(a, gf_mul(b, xtime(c))) == gf_mul(gf_mul(a, b), xtime(c)),
{
    lemma_mul_xtime(b, c);
    lemma_mul_xtime(a, gf_mul(b, c));
    lemma_mul_xtime(gf_mul(a, b), c);
}

pub proof fn lemma_gf_mul_associates(a: u8, b: u8, c: u8)
    ensures
        gf_mul(a, gf_mul(b, c)) == gf_mul(gf_mul(a, b), c),
{
    let f = |y: u8| gf_mul(a, gf_mul(b, y));
    let g = |y: u8| gf_mul(gf_mul(a, b), y);
    assert forall|x: u8, y: u8| #[trigger] f(x ^ y) == f(x) ^ f(y) by {
        lemma_gf_mul_distributes(b, x, y);
        lemma_gf_mul_distributes(a, gf_mul(b, x), gf_mul(b, y));
    }
    assert forall|x: u8, y: u8| #[trigger] g(x ^ y) == g(x) ^ g(y) by {
        lemma_gf_mul_distributes(gf_mul(a, b), x, y);
    }
    lemma_gf_mul_units(a);
    lemma_gf_mul_units(b);
    lemma_gf_mul_units(gf_mul(a, b));
    assert(xtime(1) == 2 && xtime(2) == 4 && xtime(4) == 8 && xtime(8) == 16 && xtime(16) == 32
        && xtime(32) == 64 && xtime(64) == 128) by (bit_vector);
    lemma_assoc_at_doubling(a, b, 1);
    lemma_assoc_at_doubling(a, b, 2);
    lemma_assoc_at_doubling(a, b, 4);
    lemma_assoc_at_doubling(a, b, 8);
    lemma_assoc_at_doubling(a, b, 16);
    lemma_assoc_at_doubling(a, b, 32);
    lemma_assoc_at_doubling(a, b, 64);
    lemma_additive_maps_agree(f, g, c);
}

/// The powers of the generator.
pub open spec fn alpha_pow(n: nat) -> u8
    decreases n,
{
    if n == 0 {
        1
    } else {
        xtime(alpha_pow((n - 1) as nat))
    }
}

pub proof fn lemma_alpha_pow_sum(m: nat, n: nat)
    ensures
        alpha_pow(m + n) == gf_mul(alpha_pow(m), alpha_pow(n)),
    decreases n,
{
    if n == 0 {
        lemma_gf_mul_units(alpha_pow(m));
    } else {
        let k = (n - 1) as nat;
        lemma_alpha_pow_sum(m, k);
        lemma_mul_xtime(alpha_pow(m), alpha_pow(k));
        assert(alpha_pow(m + n) == xtime(alpha_pow((m + n - 1) as nat)));
    }
}

proof fn lemma_alpha_double(n: nat)
    ensures
        alpha_pow(2 * n) == gf_mul(alpha_pow(n), alpha_pow(n)),
{
    lemma_alpha_pow_sum(n, n);
}

/// The values of a few powers, reached by squaring.
proof fn lemma_alpha_landmarks()
    ensures
        alpha_pow(15) == 38,
        alpha_pow(51) == 10,
        alpha_pow(85) == 214,
        alpha_pow(255) == 1,
{
    assert(xtime(1) == 2) by (bit_vector);
    assert(alpha_pow(1) == 2) by {
        assert(alpha_pow(0) == 1);
    }
    assert(gf_mul(2, 2) == 4 && gf_mul(4, 4) == 16 && gf_mul(16, 16) == 29 && gf_mul(29, 29) == 76
        && gf_mul(76, 76) == 157 && gf_mul(157, 157) == 95 && gf_mul(29, 16) == 205 && gf_mul(205, 4)
        == 19 && gf_mul(19, 2) == 38 && gf_mul(157, 76) == 70 && gf_mul(70, 4) == 5 && gf_mul(5, 2)
        == 10 && gf_mul(95, 76) == 253 && gf_mul(253, 16) == 107 && gf_mul(107, 2) == 214 && gf_mul(
        214,
        214,
    ) == 215 && gf_mul(215, 214) == 1) by (bit_vector);
    lemma_alpha_double(1);
    lemma_alpha_double(2);
    lemma_alpha_double(4);
    lemma_alpha_double(8);
    lemma_alpha_double(16);
    lemma_alpha_double(32);
    lemma_alpha_pow_sum(8, 4);
    lemma_alpha_pow_sum(12, 2);
    lemma_alpha_pow_sum(14, 1);
    lemma_alpha_pow_sum(32, 16);
    lemma_alpha_pow_sum(48, 2);
    lemma_alpha_pow_sum(50, 1);
    lemma_alpha_pow_sum(64, 16);
    lemma_alpha_pow_sum(80, 4);
    lemma_alpha_pow_sum(84, 1);
    lemma_alpha_pow_sum(85, 85);
    lemma_alpha_pow_sum(170, 85);
}

/// Powers repeat with period 255.
pub proof fn lemma_alpha_pow_mod(n: nat)
    ensures
        alpha_pow(n) == alpha_pow(n % 255),
    decreases n,
{
    if n >= 255 {
        let k = (n - 255) as nat;
        lemma_alpha_pow_mod(k);
        lemma_alpha_landmarks();
        lemma_alpha_pow_sum(k, 255);
        lemma_gf_mul_units(alpha_pow(k));
        assert(n % 255 == k % 255);
    } else {
        assert(n % 255 == n);
    }
}

proof fn lemma_alpha_pow_scaled(d: nat, k: nat)
    requires
        alpha_pow(d) == 1,
    ensures
        alpha_pow(d * k) == 1,
    decreases k,
{
    if k == 0 {
        assert(d * 0 == 0);
    } else {
        let j = (k - 1) as nat;
        lemma_alpha_pow_scaled(d, j);
        lemma_alpha_pow_sum(d * j, d);
        lemma_gf_mul_units(1);
        assert(d * k == d * j + d) by (nonlinear_arith)
            requires
                k == j + 1,
        ;
    }
}

/// The multiples of 85, 51 and 15 below 255 give powers other than one.
proof fn lemma_alpha_cofactor_powers(k: nat)
    ensures
        1 <= k <= 2 ==> alpha_pow(85 * k) != 1,
        1 <= k <= 4 ==> alpha_pow(51 * k) != 1,
        1 <= k <= 16 ==> alpha_pow(15 * k) != 1,
{
    lemma_alpha_landmarks();
    assert(gf_mul(214, 214) == 215 && gf_mul(10, 10) == 68 && gf_mul(68, 10) == 146 && gf_mul(146, 10)
        == 221 && gf_mul(38, 38) == 96 && gf_mul(96, 38) == 193 && gf_mul(193, 38) == 185 && gf_mul(
        185,
        38,
    ) == 15 && gf_mul(15, 38) == 223 && gf_mul(223, 38) == 26 && gf_mul(26, 38) == 59 && gf_mul(
        59,
        38,
    ) == 169 && gf_mul(169, 38) == 85 && gf_mul(85, 38) == 145 && gf_mul(145, 38) == 150 && gf_mul(
        150,
        38,
    ) == 100 && gf_mul(100, 38) == 89 && gf_mul(89, 38) == 36 && gf_mul(36, 38) == 44)
        by (bit_vector);
    lemma_alpha_pow_sum(85, 85);
    lemma_alpha_pow_sum(51, 51);
    lemma_alpha_pow_sum(102, 51);
    lemma_alpha_pow_sum(153, 51);
    lemma_alpha_pow_sum(15, 15);
    lemma_alpha_pow_sum(30, 15);
    lemma_alpha_pow_sum(45, 15);
    lemma_alpha_pow_sum(60, 15);
    lemma_alpha_pow_sum(75, 15);
    lemma_alpha_pow_sum(90, 15);
    lemma_alpha_pow_sum(105, 15);
    lemma_alpha_pow_sum(120, 15);
    lemma_alpha_pow_sum(135, 15);
    lemma_alpha_pow_sum(150, 15);
    lemma_alpha_pow_sum(165, 15);
    lemma_alpha_pow_sum(180, 15);
    lemma_alpha_pow_sum(195, 15);
    lemma_alpha_pow_sum(210, 15);
    lemma_alpha_pow_sum(225, 15);
}

/// The generator has order 255: no smaller positive power of it is one.
proof fn lemma_alpha_order(d: nat)
    requires
        0 < d < 255,
    ensures
        alpha_pow(d) != 1,
{
    if alpha_pow(d) == 1 {
        if d % 3 != 0 {
            lemma_alpha_pow_scaled(d, 85);
            lemma_alpha_pow_mod(d * 85);
            assert((d * 85) % 255 == 85 * (d % 3));
            lemma_alpha_cofactor_powers(d % 3);
        } else if d % 5 != 0 {
            lemma_alpha_pow_scaled(d, 51);
            lemma_alpha_pow_mod(d * 51);
            assert((d * 51) % 255 == 51 * (d % 5));
            lemma_alpha_cofactor_powers(d % 5);
        } else {
            assert(d % 17 != 0);
            lemma_alpha_pow_scaled(d, 15);
            lemma_alpha_pow_mod(d * 15);
            assert((d * 15) % 255 == 15 * (d % 17));
            lemma_alpha_cofactor_powers(d % 17);
        }
    }
}

pub proof fn lemma_alpha_pow_nonzero(n: nat)
    ensures
        alpha_pow(n) != 0,
{
    lemma_alpha_landmarks();
    lemma_alpha_pow_scaled(255, n);
    lemma_alpha_pow_sum(n, 254 * n);
    assert(n + 254 * n == 255 * n);
    lemma_gf_mul_units(alpha_pow(254 * n));
}

/// The first 255 powers are pairwise distinct.
pub proof fn lemma_alpha_pow_injective(i: nat, j: nat)
    requires
        i < 255,
        j < 255,
        alpha_pow(i) == alpha_pow(j),
    ensures
        i == j,
    decreases i,
{
    if i < j {
        lemma_alpha_landmarks();
        lemma_alpha_pow_sum((255 - j) as nat, i);
        lemma_alpha_pow_sum((255 - j) as nat, j);
        lemma_alpha_order((255 - j + i) as nat);
    } else if j < i {
        lemma_alpha_pow_injective(j, i);
    }
}

/// Every nonzero element is one of the first 255 powers.
pub proof fn lemma_alpha_pow_surjective(a: u8)
    requires
        a != 0,
    ensures
        exists|i: nat| i < 255 && #[trigger] alpha_pow(i) == a,
{
    let s = Seq::new(255, |i: int| alpha_pow(i as nat) as int);
    assert forall|i: int| 0 <= i < s.len() implies 1 <= #[trigger] s[i] < 1 + s.len() by {
        lemma_alpha_pow_nonzero(i as nat);
    }
    assert forall|i: int, j: int| 0 <= i < s.len() && 0 <= j < s.len() && i != j implies s[i] != s[j] by {
        if s[i] == s[j] {
            lemma_alpha_pow_injective(i as nat, j as nat);
        }
    }
    counting::lemma_pigeonhole(s, 1, a as int);
    let i = choose|i: int| 0 <= i < s.len() && s[i] == a as int;
    assert(alpha_pow(i as nat) == a);
}

/// The inverse of a nonzero element; of zero, one.
pub open spec fn gf_inv(a: u8) -> u8 {
    if a == 0 {
        1
    } else {
        choose|r: u8| #[trigger] gf_mul(a, r) == 1
    }
}

pub proof fn lemma_gf_inv_of_power(i: nat)
    requires
        i < 255,
    ensures
        gf_mul(alpha_pow(i), alpha_pow(((255 - i) % 255) as nat)) == 1,
{
    lemma_alpha_landmarks();
    lemma_alpha_pow_sum(i, (255 - i) as nat);
    lemma_alpha_pow_mod((255 - i) as nat);
}

pub proof fn lemma_gf_inv(a: u8)
    requires
        a != 0,
    ensures
        gf_mul(a, gf_inv(a)) == 1,
        gf_mul(gf_inv(a), a) == 1,
        gf_inv(a) != 0,
{
    lemma_alpha_pow_surjective(a);
    let i = choose|i: nat| i < 255 && #[trigger] alpha_pow(i) == a;
    lemma_gf_inv_of_power(i);
    assert(gf_mul(a, alpha_pow(((255 - i) % 255) as nat)) == 1);
    lemma_gf_mul_commutes(a, gf_inv(a));
    lemma_gf_mul_units(a);
}

/// Inverses are unique.
pub proof fn lemma_gf_inv_unique(a: u8, r: u8)
    requires
        a != 0,
        gf_mul(a, r) == 1,
    ensures
        r == gf_inv(a),
{
    let q = gf_inv(a);
    lemma_gf_inv(a);
    lemma_gf_mul_associates(q, a, r);
    lemma_gf_mul_units(q);
    lemma_gf_mul_units(r);
}

/// A product is zero only where a factor is.
pub proof fn lemma_gf_no_zero_divisors(a: u8, b: u8)
    requires
        gf_mul(a, b) == 0,
    ensures
        a == 0 || b == 0,
{
    if a != 0 {
        lemma_gf_inv(a);
        lemma_gf_mul_associates(gf_inv(a), a, b);
        lemma_gf_mul_units(b);
        lemma_gf_mul_units(gf_inv(a));
    }
}

} // verus!
