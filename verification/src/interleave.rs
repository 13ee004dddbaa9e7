//! The permutation that spreads payload bits over a frame.
use crate::rng;
use vstd::prelude::*;

verus! {

pub const BOOT_CAL_KEYFRAME_INTERVAL: u32 = 8;

/// The greatest common divisor, by Euclid's algorithm.
pub open spec fn gcd(a: nat, b: nat) -> nat
    decreases b,
{
    if b == 0 {
        a
    } else {
        gcd(b, a % b)
    }
}

/// The greatest common divisor divides both numbers and is a sum of multiples of them.
pub proof fn law_gcd(a: nat, b: nat) -> (c: (int, int, nat, nat))
    ensures
        gcd(a, b) == c.0 * a + c.1 * b,
        a == gcd(a, b) * c.2,
        b == gcd(a, b) * c.3,
    decreases b,
{
    let g = gcd(a, b);
    if b == 0 {
        assert(a == g * 1 && b == g * 0 && g == 1 * a + 0 * b) by (nonlinear_arith)
            requires
                g == a,
                b == 0,
        ;
        (1, 0, 1, 0)
    } else {
        let (x, y, p, q) = law_gcd(b, a % b);
        let d = a / b;
        vstd::arithmetic::div_mod::lemma_fundamental_div_mod(a as int, b as int);
        let m = (d * p + q) as nat;
        assert(d * p + q >= 0) by (nonlinear_arith)
            requires
                d >= 0,
                p >= 0,
                q >= 0,
        ;
        assert(a == g * m && g == y * a + (x - y * d) * b) by (nonlinear_arith)
            requires
                b == g * p,
                (a % b) == g * q,
                a == b * d + a % b,
                g == x * b + y * (a % b),
                m == d * p + q,
        ;
        (y, x - y * d, m, p)
    }
}

pub fn gcd_usize(a: usize, b: usize) -> (r: usize)
    ensures
        r == gcd(a as nat, b as nat),
{
    let mut x: usize = a;
    let mut y: usize = b;
    while y != 0
        invariant
            gcd(x as nat, y as nat) == gcd(a as nat, b as nat),
        decreases y,
    {
        let t: usize = x % y;
        x = y;
        y = t;
    }
    x
}

/// Two numbers that a sum of multiples of brings to 1 have no common divisor but 1.
proof fn lemma_coprime(a: nat, n: nat, x: int, y: int)
    requires
        x * a + y * n == 1,
        n > 0,
    ensures
        gcd(a, n) == 1,
{
    let (_, _, p, q) = law_gcd(a, n);
    let g = gcd(a, n);
    assert(g * (x * p + y * q) == 1) by (nonlinear_arith)
        requires
            x * a + y * n == 1,
            a == g * p,
            n == g * q,
    ;
    let k = x * p + y * q;
    assert(g == 1) by (nonlinear_arith)
        requires
            g * k == 1,
            g >= 0,
    ;
}

/// The multiplier that is tried after `a`.
pub open spec fn next_multiplier(a: nat, len: nat) -> nat {
    let t = (a + 2) % len;
    if t == 0 {
        1
    } else {
        t
    }
}

/// The first multiplier, from `a` on, without a common divisor with `len`.
pub open spec fn coprime_from(a: nat, len: nat) -> nat
    decreases
            if a == 1 {
                0int
            } else {
                len - a + 1
            },
        when 0 < a < len
{
    if gcd(a, len) == 1 {
        a
    } else {
        proof {
            lemma_multiplier_step(a, len);
        }
        coprime_from(next_multiplier(a, len), len)
    }
}

pub proof fn lemma_multiplier_step(a: nat, len: nat)
    requires
        0 < a < len,
        gcd(a, len) != 1,
    ensures
        1 < a < len - 1,
        0 < next_multiplier(a, len) < len,
        next_multiplier(a, len) == 1 || next_multiplier(a, len) == a + 2,
{
    if a == 1 {
        lemma_coprime(a, len, 1, 0);
    }
    if a == len - 1 {
        lemma_coprime(a, len, -1, 1);
    }
    if a + 2 < len {
        vstd::arithmetic::div_mod::lemma_small_mod((a + 2) as nat, len);
    } else {
        assert(a + 2 == len);
        vstd::arithmetic::div_mod::lemma_mod_self_0(len as int);
    }
}

pub proof fn lemma_coprime_from(a: nat, len: nat)
    requires
        0 < a < len,
    ensures
        0 < coprime_from(a, len) < len,
        gcd(coprime_from(a, len), len) == 1,
    decreases
            if a == 1 {
                0int
            } else {
                len - a + 1
            },
{
    if gcd(a, len) != 1 {
        lemma_multiplier_step(a, len);
        lemma_coprime_from(next_multiplier(a, len), len);
    }
}

/// The multiplier that the search starts from.
pub open spec fn first_multiplier(len: nat, seed: u64) -> nat {
    let a = ((seed as usize) | 1) as nat % len;
    if a == 0 {
        1
    } else {
        a
    }
}

/// The multiplier and the offset of the permutation of `len` places that a seed selects.
pub open spec fn permutation_params(len: nat, seed: u64) -> (nat, nat) {
    if len <= 1 {
        (1, 0)
    } else {
        (coprime_from(first_multiplier(len, seed), len), (seed >> 17) as usize as nat % len)
    }
}

pub fn affine_prp_params(len: usize, seed: u64) -> (r: (usize, usize))
    ensures
        (r.0 as nat, r.1 as nat) == permutation_params(len as nat, seed),
        len > 1 ==> 0 < r.0 < len && r.1 < len && gcd(r.0 as nat, len as nat) == 1,
{
    if len <= 1 {
        return (1, 0);
    }
    let mut a: usize = ((seed as usize) | 1) % len;
    if a == 0 {
        a = 1;
    }
    while gcd_usize(a, len) != 1
        invariant
            0 < a < len,
            coprime_from(a as nat, len as nat) == coprime_from(
                first_multiplier(len as nat, seed),
                len as nat,
            ),
        decreases
                if a == 1 {
                    0int
                } else {
                    len - a + 1
                },
    {
        proof {
            lemma_multiplier_step(a as nat, len as nat);
        }
        a = (a + 2) % len;
        if a == 0 {
            a = 1;
        }
    }
    let b: usize = ((seed >> 17) as usize) % len;
    (a, b)
}

/// The place that bit `i` comes from.
pub open spec fn permuted(i: usize, len: usize, a: usize, b: usize) -> usize {
    if len <= 1 {
        0
    } else {
        (a.wrapping_mul(i).wrapping_add(b)) % len
    }
}

pub fn affine_prp_map(i: usize, len: usize, a: usize, b: usize) -> (r: usize)
    ensures
        r == permuted(i, len, a, b),
        len > 0 ==> r < len,
{
    if len <= 1 {
        0
    } else {
        (a.wrapping_mul(i).wrapping_add(b)) % len
    }
}

/// Where no product leaves the machine's range the map is linear.
proof fn lemma_permuted_linear(i: usize, len: usize, a: usize, b: usize)
    requires
        1 < len,
        len * len <= usize::MAX,
        i < len,
        a < len,
        b < len,
    ensures
        permuted(i, len, a, b) == (a * i + b) % (len as int),
{
    assert(0 <= a * i && a * i + b <= len * len) by (nonlinear_arith)
        requires
            0 <= a < len,
            0 <= i < len,
            0 <= b < len,
    ;
    vstd::arithmetic::div_mod::lemma_small_mod((a * i) as nat, (usize::MAX + 1) as nat);
}

/// No two places come from one place, as long as the products stay in the machine's range.
pub proof fn law_permutation_is_injective(i: usize, j: usize, len: usize, a: usize, b: usize)
    requires
        1 < len,
        len * len <= usize::MAX,
        i < len,
        j < len,
        a < len,
        b < len,
        gcd(a as nat, len as nat) == 1,
        permuted(i, len, a, b) == permuted(j, len, a, b),
    ensures
        i == j,
{
    lemma_permuted_linear(i, len, a, b);
    lemma_permuted_linear(j, len, a, b);
    let (x, y, _, _) = law_gcd(a as nat, len as nat);
    let n = len as int;
    let (p, q) = (a * i + b, a * j + b);
    vstd::arithmetic::div_mod::lemma_fundamental_div_mod(p, n);
    vstd::arithmetic::div_mod::lemma_fundamental_div_mod(q, n);
    let (u, v, r) = (p / n, q / n, p % n);
    let k = u - v;
    let d = i - j;
    let m = x * k + y * d;
    assert(a * d == n * k) by (nonlinear_arith)
        requires
            a * i + b == n * u + r,
            a * j + b == n * v + r,
            k == u - v,
            d == i - j,
    ;
    assert((x * a + y * n) * d == x * (a * d) + n * (y * d)) by (nonlinear_arith);
    assert(x * (n * k) + n * (y * d) == n * m) by (nonlinear_arith)
        requires
            m == x * k + y * d,
    ;
    assert(d == n * m);
    assert(m == 0) by (nonlinear_arith)
        requires
            d == n * m,
            -n < d < n,
            n > 1,
    ;
    assert(d == 0) by (nonlinear_arith)
        requires
            d == n * m,
            m == 0,
    ;
}

/// The seed of a frame's permutation, one for each group of frames between key frames.
pub open spec fn frame_seed(profile: u8, frame_idx: u32) -> u64 {
    rng::seed_for(0x5C11_DA7A_FEED_B17Eu64 ^ (profile as u64), frame_idx / 8)
}

pub fn frame_bit_permute_seed(profile: u8, frame_idx: u32) -> (r: u64)
    ensures
        r == frame_seed(profile, frame_idx),
{
    let gop_idx: u32 = frame_idx / BOOT_CAL_KEYFRAME_INTERVAL;
    rng::mix_seed(0x5C11_DA7A_FEED_B17Eu64 ^ (profile as u64), gop_idx)
}

/// Frames of one group, from a key frame to the next, spread their bits in the same way.
pub proof fn law_group_shares_permutation(profile: u8, i: u32, j: u32)
    requires
        i / 8 == j / 8,
    ensures
        frame_seed(profile, i) == frame_seed(profile, j),
{
}

/// The soft bits of the first `n` places put where they belong, as far as `need` bits go. Places
/// that nothing is put to hold zero.
pub open spec fn restored(raw: Seq<u32>, need: nat, len: usize, a: usize, b: usize, n: nat) -> Seq<
    u32,
>
    decreases n,
{
    if n == 0 {
        Seq::new(need, |i: int| 0u32)
    } else {
        let before = restored(raw, need, len, a, b, (n - 1) as nat);
        let at = permuted((n - 1) as usize, len, a, b) as int;
        if at < need {
            before.update(at, raw[n - 1])
        } else {
            before
        }
    }
}

/// Puts the soft bits of a frame, given by their bit patterns, back in order. Nothing comes of a
/// frame that has fewer bits than are needed or than it should have.
pub fn deinterleave(raw: &[u32], need: usize, len: usize, seed: u64) -> (r: Option<Vec<u32>>)
    ensures
        match r {
            Some(out) => {
                let (a, b) = permutation_params(len as nat, seed);
                &&& need <= len <= raw@.len()
                &&& out@ == restored(raw@, need as nat, len, a as usize, b as usize, len as nat)
            },
            None => need > len || raw@.len() < len,
        },
{
    if need > len || raw.len() < len {
        return None;
    }
    let (a, b): (usize, usize) = affine_prp_params(len, seed);
    let mut out: Vec<u32> = vec![0u32; need];
    assert(out@ =~= Seq::new(need as nat, |i: int| 0u32));
    let mut i: usize = 0;
    while i < len
        invariant
            i <= len <= raw@.len(),
            out@.len() == need,
            out@ == restored(raw@, need as nat, len, a, b, i as nat),
        decreases len - i,
    {
        let at: usize = affine_prp_map(i, len, a, b);
        if at < need {
            out.set(at, raw[i]);
        }
        i = i + 1;
    }
    Some(out)
}

/// What is put to a place stays there.
proof fn lemma_restored(raw: Seq<u32>, need: nat, len: usize, a: usize, b: usize, n: nat, k: nat)
    requires
        1 < len,
        len * len <= usize::MAX,
        a < len,
        b < len,
        gcd(a as nat, len as nat) == 1,
        k < n <= len,
        permuted(k as usize, len, a, b) < need,
    ensures
        restored(raw, need, len, a, b, n)[permuted(k as usize, len, a, b) as int] == raw[k as int],
    decreases n,
{
    let m = (n - 1) as nat;
    lemma_restored_len(raw, need, len, a, b, m);
    if k < m {
        lemma_restored(raw, need, len, a, b, m, k);
        if permuted(m as usize, len, a, b) == permuted(k as usize, len, a, b) {
            law_permutation_is_injective(m as usize, k as usize, len, a, b);
        }
    }
}

proof fn lemma_restored_len(raw: Seq<u32>, need: nat, len: usize, a: usize, b: usize, n: nat)
    ensures
        restored(raw, need, len, a, b, n).len() == need,
    decreases n,
{
    if n > 0 {
        lemma_restored_len(raw, need, len, a, b, (n - 1) as nat);
    }
}

/// Every place is reached.
proof fn lemma_permuted_onto(len: usize, a: usize, b: usize, v: int) -> (k: nat)
    requires
        1 < len,
        len * len <= usize::MAX,
        a < len,
        b < len,
        gcd(a as nat, len as nat) == 1,
        0 <= v < len,
    ensures
        k < len,
        permuted(k as usize, len, a, b) == v,
{
    let s = Seq::new(len as nat, |i: int| permuted(i as usize, len, a, b) as int);
    assert forall|i: int| 0 <= i < s.len() implies 0 <= #[trigger] s[i] < 0 + s.len() by {}
    assert(s.no_duplicates()) by {
        assert forall|i: int, j: int| 0 <= i < s.len() && 0 <= j < s.len() && i != j implies s[i]
            != s[j] by {
            if s[i] == s[j] {
                law_permutation_is_injective(i as usize, j as usize, len, a, b);
            }
        }
    }
    crate::counting::lemma_pigeonhole(s, 0, v);
    let k = choose|k: int| 0 <= k < s.len() && s[k] == v;
    k as nat
}

/// Bits that are spread over a frame come back in order: if place `i` of the frame holds the bit
/// that the permutation names for it, restoring the frame gives the bits.
pub proof fn law_deinterleave_undoes_interleave(bits: Seq<u32>, raw: Seq<u32>, len: usize, seed: u64)
    requires
        len * len <= usize::MAX,
        raw.len() == len,
        bits.len() == len,
        ({
            let (a, b) = permutation_params(len as nat, seed);
            forall|i: int|
                0 <= i < len ==> #[trigger] raw[i] == bits[permuted(
                    i as usize,
                    len,
                    a as usize,
                    b as usize,
                ) as int]
        }),
    ensures
        ({
            let (a, b) = permutation_params(len as nat, seed);
            restored(raw, bits.len(), len, a as usize, b as usize, len as nat) == bits
        }),
{
    let (a0, b0) = permutation_params(len as nat, seed);
    let (a, b) = (a0 as usize, b0 as usize);
    let out = restored(raw, bits.len(), len, a, b, len as nat);
    lemma_restored_len(raw, bits.len(), len, a, b, len as nat);
    if len > 1 {
        vstd::arithmetic::div_mod::lemma_mod_bound(((seed as usize) | 1) as int, len as int);
        lemma_coprime_from(first_multiplier(len as nat, seed), len as nat);
        vstd::arithmetic::div_mod::lemma_mod_bound((seed >> 17) as usize as int, len as int);
        assert forall|v: int| 0 <= v < len implies out[v] == bits[v] by {
            let k = lemma_permuted_onto(len, a, b, v);
            lemma_restored(raw, len as nat, len, a, b, len as nat, k);
            assert(raw[k as int] == bits[permuted(k as usize, len, a, b) as int]);
        }
    } else if len == 1 {
        assert(restored(raw, 1, len, a, b, 0).len() == 1);
        assert(raw[0] == bits[permuted(0, len, a, b) as int]);
    }
    assert(out =~= bits);
}

/// Restoring puts the soft bit of place `k` where the permutation says, and every place is reached
/// from some `k`.
pub proof fn law_restored_holds_places(raw: Seq<u32>, len: usize, seed: u64, v: int) -> (k: nat)
    requires
        len * len <= usize::MAX,
        raw.len() == len,
        0 <= v < len,
    ensures
        ({
            let (a, b) = permutation_params(len as nat, seed);
            let out = restored(raw, len as nat, len, a as usize, b as usize, len as nat);
            &&& out.len() == len
            &&& k < len
            &&& permuted(k as usize, len, a as usize, b as usize) == v
            &&& out[v] == raw[k as int]
        }),
{
    let (a0, b0) = permutation_params(len as nat, seed);
    let (a, b) = (a0 as usize, b0 as usize);
    lemma_restored_len(raw, len as nat, len, a, b, len as nat);
    if len > 1 {
        vstd::arithmetic::div_mod::lemma_mod_bound(((seed as usize) | 1) as int, len as int);
        lemma_coprime_from(first_multiplier(len as nat, seed), len as nat);
        vstd::arithmetic::div_mod::lemma_mod_bound((seed >> 17) as usize as int, len as int);
        let k = lemma_permuted_onto(len, a, b, v);
        lemma_restored(raw, len as nat, len, a, b, len as nat, k);
        k
    } else {
        let before = restored(raw, 1, len, a, b, 0);
        assert(before.len() == 1);
        0
    }
}

/// Frames between different key frames are permuted by seeds of their own.
pub proof fn law_groups_have_seeds_of_their_own(profile: u8, i: u32, j: u32)
    requires
        frame_seed(profile, i) == frame_seed(profile, j),
    ensures
        i / 8 == j / 8,
{
    rng::law_members_have_seeds_of_their_own(
        0x5C11_DA7A_FEED_B17Eu64 ^ (profile as u64),
        i / 8,
        j / 8,
    );
}

/// The first bit comes from the place that the offset says, and each further one from as many
/// places on as the multiplier says, round the end.
pub proof fn law_permutation_goes_in_steps(i: usize, len: usize, a: usize, b: usize)
    requires
        1 < len,
        len * len <= usize::MAX,
        i + 1 < len,
        a < len,
        b < len,
    ensures
        permuted(0, len, a, b) == b,
        permuted((i + 1) as usize, len, a, b) == (permuted(i, len, a, b) + a) % (len as int),
{
    let n = len as int;
    lemma_permuted_linear(0, len, a, b);
    lemma_permuted_linear(i, len, a, b);
    lemma_permuted_linear((i + 1) as usize, len, a, b);
    assert(a * 0 == 0) by (nonlinear_arith);
    vstd::arithmetic::div_mod::lemma_small_mod(b as nat, len as nat);
    let p = a * i + b;
    assert(a * (i + 1) + b == p + a) by (nonlinear_arith)
        requires
            p == a * i + b,
    ;
    vstd::arithmetic::div_mod::lemma_add_mod_noop(p, a as int, n);
    vstd::arithmetic::div_mod::lemma_add_mod_noop(p % n, a as int, n);
    vstd::arithmetic::div_mod::lemma_mod_twice(p, n);
}

/// The seed itself is the multiplier where it is odd, below the number of places and without a
/// common divisor with it; its bits above the seventeenth make the offset.
pub proof fn law_seed_selects_the_permutation(len: nat, seed: u64)
    requires
        1 < len <= usize::MAX,
        seed <= usize::MAX,
    ensures
        seed % 2 == 1 && seed < len && gcd(seed as nat, len) == 1 ==> permutation_params(
            len,
            seed,
        ).0 == seed,
        permutation_params(len, seed).1 == (seed as nat / 0x2_0000) % len,
{
    let s = seed as usize;
    assert(s % 2 == 1 ==> s | 1 == s) by (bit_vector);
    vstd::bits::lemma_u64_shr_is_div(seed, 17);
    vstd::arithmetic::power2::lemma2_to64();
    assert(seed >> 17 == seed as nat / 0x2_0000);
    if seed % 2 == 1 && seed < len && gcd(seed as nat, len) == 1 {
        vstd::arithmetic::div_mod::lemma_small_mod(seed as nat, len);
        assert(first_multiplier(len, seed) == seed);
    }
}

} // verus!
