//! A small deterministic generator of 64-bit numbers and the shuffle that it drives.
use vstd::prelude::*;

verus! {

const GOLDEN: u64 = 0x9E37_79B9_7F4A_7C15;

const MIX_A: u64 = 0xBF58_476D_1CE4_E5B9;

const MIX_B: u64 = 0x94D0_49BB_1331_11EB;

/// The generator's state after `n` draws from `state`.
pub open spec fn state_after(state: u64, n: nat) -> u64 {
    ((state + n * 0x9E37_79B9_7F4A_7C15) % 0x1_0000_0000_0000_0000) as u64
}

/// The output that a state stands for.
pub open spec fn mixed(z: u64) -> u64 {
    let a = (z ^ (z >> 30)).wrapping_mul(0xBF58_476D_1CE4_E5B9);
    let b = (a ^ (a >> 27)).wrapping_mul(0x94D0_49BB_1331_11EB);
    b ^ (b >> 31)
}

/// The `n`-th number drawn from `state`, counted from one.
pub open spec fn drawn(state: u64, n: nat) -> u64 {
    mixed(state_after(state, n))
}

/// A number below `upper` made of the next number drawn.
pub open spec fn ranged(state: u64, upper: nat) -> nat {
    if upper <= 1 {
        0
    } else {
        drawn(state, 1) as nat % upper
    }
}

/// The state after asking for a number below `upper`, which draws only where there is a choice.
pub open spec fn state_after_ranged(state: u64, upper: nat) -> u64 {
    if upper <= 1 {
        state
    } else {
        state_after(state, 1)
    }
}

pub proof fn lemma_state_after_sum(state: u64, m: nat, n: nat)
    ensures
        state_after(state_after(state, m), n) == state_after(state, m + n),
{
    let g: int = 0x9E37_79B9_7F4A_7C15;
    let r: int = 0x1_0000_0000_0000_0000;
    assert((m + n) * g == m * g + n * g) by (nonlinear_arith);
    let x = state + m * g;
    let q = x / r;
    assert(x == q * r + x % r);
    assert((x % r + n * g) % r == (x + n * g) % r) by {
        vstd::arithmetic::div_mod::lemma_add_mod_noop(x, n * g, r);
        vstd::arithmetic::div_mod::lemma_add_mod_noop(x % r, n * g, r);
        vstd::arithmetic::div_mod::lemma_mod_twice(x, r);
    }
}

pub proof fn lemma_state_after_zero(state: u64)
    ensures
        state_after(state, 0) == state,
{
}

/// What undoes `z ^ (z >> 30)`.
spec fn unshift_30(y: u64) -> u64 {
    y ^ (y >> 30) ^ (y >> 60)
}

spec fn unshift_27(y: u64) -> u64 {
    y ^ (y >> 27) ^ (y >> 54)
}

spec fn unshift_31(y: u64) -> u64 {
    y ^ (y >> 31) ^ (y >> 62)
}

proof fn lemma_unshifts(y: u64)
    ensures
        unshift_30(y) ^ (unshift_30(y) >> 30) == y,
        unshift_27(y) ^ (unshift_27(y) >> 27) == y,
        unshift_31(y) ^ (unshift_31(y) >> 31) == y,
{
    assert((y ^ (y >> 30) ^ (y >> 60)) ^ ((y ^ (y >> 30) ^ (y >> 60)) >> 30) == y && (y ^ (y >> 27)
        ^ (y >> 54)) ^ ((y ^ (y >> 27) ^ (y >> 54)) >> 27) == y && (y ^ (y >> 31) ^ (y >> 62)) ^ ((y
        ^ (y >> 31) ^ (y >> 62)) >> 31) == y) by (bit_vector);
}

/// Each multiplier has an inverse modulo 2^64.
proof fn lemma_multiplier_inverses(y: u64)
    ensures
        y.wrapping_mul(0x96DE_1B17_3F11_9089).wrapping_mul(0xBF58_476D_1CE4_E5B9) == y,
        y.wrapping_mul(0x3196_42B2_D24D_8EC3).wrapping_mul(0x94D0_49BB_1331_11EB) == y,
{
    let r: int = 0x1_0000_0000_0000_0000;
    lemma_inverse_pair(y, 0x96DE_1B17_3F11_9089, 0xBF58_476D_1CE4_E5B9, 8125545580553827436);
    lemma_inverse_pair(y, 0x3196_42B2_D24D_8EC3, 0x94D0_49BB_1331_11EB, 2077064247507883091);
}

proof fn lemma_inverse_pair(y: u64, u: u64, v: u64, k: int)
    requires
        u * v == 1 + k * 0x1_0000_0000_0000_0000,
    ensures
        y.wrapping_mul(u).wrapping_mul(v) == y,
{
    let r: int = 0x1_0000_0000_0000_0000;
    let a: int = y * u;
    vstd::arithmetic::div_mod::lemma_mul_mod_noop(a, v as int, r);
    vstd::arithmetic::div_mod::lemma_mul_mod_noop(a % r, v as int, r);
    vstd::arithmetic::div_mod::lemma_mod_twice(a, r);
    assert(a * v == y + (y * k) * r) by (nonlinear_arith)
        requires
            a == y * u,
            u * v == 1 + k * r,
    ;
    vstd::arithmetic::div_mod::lemma_mod_multiples_vanish(y * k, y as int, r);
    vstd::arithmetic::div_mod::lemma_small_mod(y as nat, r as nat);
}

/// Every 64-bit number is the output of some state.
proof fn lemma_mixed_onto(v: u64) -> (z: u64)
    ensures
        mixed(z) == v,
{
    let b = unshift_31(v);
    lemma_unshifts(v);
    let a0 = b.wrapping_mul(0x3196_42B2_D24D_8EC3);
    lemma_multiplier_inverses(b);
    let a = unshift_27(a0);
    lemma_unshifts(a0);
    let z0 = a.wrapping_mul(0x96DE_1B17_3F11_9089);
    lemma_multiplier_inverses(a);
    let z = unshift_30(z0);
    lemma_unshifts(z0);
    z
}

/// From any state every 64-bit number comes up sooner or later.
pub proof fn lemma_every_number_comes_up(state: u64, v: u64) -> (n: nat)
    ensures
        n > 0,
        drawn(state, n) == v,
{
    let r: int = 0x1_0000_0000_0000_0000;
    let g: int = 0x9E37_79B9_7F4A_7C15;
    let ginv: int = 0xF1DE_83E1_9937_733D;
    let k: int = 10771413168148108919;
    let z = lemma_mixed_onto(v);
    let d: int = (z - state) + r;
    let n = (d * ginv + r) as nat;
    assert(d > 0);
    assert(d * ginv >= 0) by (nonlinear_arith)
        requires
            d > 0,
            ginv > 0,
    ;
    assert(n * g == d + (d * k + g) * r) by (nonlinear_arith)
        requires
            n == d * ginv + r,
            ginv * g == 1 + k * r,
    ;
    let x: int = d * k + g + 1;
    assert(state + n * g == z + x * r) by (nonlinear_arith)
        requires
            n * g == d + (d * k + g) * r,
            d == (z - state) + r,
            x == d * k + g + 1,
    ;
    vstd::arithmetic::div_mod::lemma_mod_multiples_vanish(x, z as int, r);
    vstd::arithmetic::div_mod::lemma_small_mod(z as nat, r as nat);
    assert(x * r + z == z + x * r);
    n
}

pub struct SplitMix64 {
    pub state: u64,
}

impl SplitMix64 {
    pub fn new(seed: u64) -> (rng: Self)
        ensures
            rng.state == seed,
    {
        SplitMix64 { state: seed }
    }

    /// The next number.
    pub fn next_u64(&mut self) -> (r: u64)
        ensures
            r == drawn(old(self).state, 1),
            final(self).state == state_after(old(self).state, 1),
    {
        let z: u64 = self.state.wrapping_add(GOLDEN);
        self.state = z;
        let a: u64 = (z ^ (z >> 30)).wrapping_mul(MIX_A);
        let b: u64 = (a ^ (a >> 27)).wrapping_mul(MIX_B);
        b ^ (b >> 31)
    }

    /// A number below `upper`, or 0 where `upper` leaves no choice.
    pub fn gen_range_usize(&mut self, upper: usize) -> (r: usize)
        ensures
            r == ranged(old(self).state, upper as nat),
            upper > 0 ==> r < upper,
            final(self).state == state_after_ranged(old(self).state, upper as nat),
    {
        if upper <= 1 {
            0
        } else {
            (self.next_u64() % (upper as u64)) as usize
        }
    }
}

/// The seed that a stream of seed `seed` gives its member `id`.
pub open spec fn seed_for(seed: u64, id: u32) -> u64 {
    drawn(seed ^ (id as u64).wrapping_mul(0xD6E8_FEB8_6659_FD93), 1)
}

pub fn mix_seed(seed: u64, id: u32) -> (r: u64)
    ensures
        r == seed_for(seed, id),
{
    let x: u64 = seed ^ (id as u64).wrapping_mul(0xD6E8_FEB8_6659_FD93);
    let mut sm: SplitMix64 = SplitMix64::new(x);
    sm.next_u64()
}

/// A sequence with two of its places exchanged.
pub open spec fn swapped<T>(s: Seq<T>, i: int, j: int) -> Seq<T> {
    s.update(i, s[j]).update(j, s[i])
}

/// The Fisher-Yates shuffle of the first `n` places, from the last of them down.
pub open spec fn shuffled<T>(s: Seq<T>, state: u64, n: nat) -> Seq<T>
    decreases n,
{
    if n <= 1 {
        s
    } else {
        shuffled(
            swapped(s, n - 1, ranged(state, n) as int),
            state_after_ranged(state, n),
            (n - 1) as nat,
        )
    }
}

/// A shuffle keeps the items and how often each occurs.
pub proof fn law_shuffle_permutes<T>(s: Seq<T>, state: u64, n: nat)
    requires
        n <= s.len(),
    ensures
        shuffled(s, state, n).len() == s.len(),
        shuffled(s, state, n).to_multiset() == s.to_multiset(),
    decreases n,
{
    if n > 1 {
        let j = ranged(state, n) as int;
        let t = swapped(s, n - 1, j);
        law_shuffle_permutes(t, state_after_ranged(state, n), (n - 1) as nat);
        lemma_swap_multiset(s, n - 1, j);
    }
}

proof fn lemma_swap_multiset<T>(s: Seq<T>, i: int, j: int)
    requires
        0 <= i < s.len(),
        0 <= j < s.len(),
    ensures
        swapped(s, i, j).to_multiset() == s.to_multiset(),
{
    broadcast use vstd::seq_lib::group_to_multiset_ensures;

    let t = s.update(i, s[j]);
    assert(t.to_multiset() =~= s.to_multiset().insert(s[j]).remove(s[i]));
    if i != j {
        assert(t[j] == s[j]);
        assert(swapped(s, i, j).to_multiset() =~= t.to_multiset().insert(s[i]).remove(t[j]));
        assert(s.to_multiset().count(s[i]) > 0) by {
            assert(s.contains(s[i]));
        }
        assert(swapped(s, i, j).to_multiset() =~= s.to_multiset());
    } else {
        assert(swapped(s, i, j) =~= s);
    }
}

/// Shuffles in place.
pub fn shuffle_in_place<T: Copy>(v: &mut Vec<T>, rng: &mut SplitMix64)
    ensures
        final(v)@ == shuffled(old(v)@, old(rng).state, old(v)@.len()),
        final(v)@.len() == old(v)@.len(),
        final(rng).state == state_after(
            old(rng).state,
            if old(v)@.len() == 0 {
                0nat
            } else {
                (old(v)@.len() - 1) as nat
            },
        ),
{
    let ghost s0 = v@;
    let ghost state0 = rng.state;
    let mut n: usize = v.len();
    proof {
        lemma_state_after_zero(state0);
    }
    while n > 1
        invariant
            v@.len() == s0.len(),
            n <= v@.len(),
            n == 0 ==> s0.len() == 0,
            shuffled(s0, state0, s0.len()) == shuffled(v@, rng.state, n as nat),
            rng.state == state_after(
                state0,
                if n == 0 {
                    0nat
                } else {
                    (s0.len() - n) as nat
                },
            ),
        decreases n,
    {
        let ghost before = v@;
        let ghost st = rng.state;
        let i: usize = n - 1;
        let j: usize = rng.gen_range_usize(n);
        let a: T = v[i];
        let b: T = v[j];
        v.set(i, b);
        v.set(j, a);
        proof {
            assert(v@ =~= swapped(before, i as int, j as int));
            lemma_state_after_sum(state0, (s0.len() - n) as nat, 1);
        }
        n = i;
    }
}

proof fn lemma_shifts_keep_apart(x: u64, y: u64, s: u64)
    ensures
        x ^ (x >> 30) == y ^ (y >> 30) ==> x == y,
        x ^ (x >> 27) == y ^ (y >> 27) ==> x == y,
        x ^ (x >> 31) == y ^ (y >> 31) ==> x == y,
        s ^ x == s ^ y ==> x == y,
{
    assert((x ^ (x >> 30) == y ^ (y >> 30) ==> x == y) && (x ^ (x >> 27) == y ^ (y >> 27) ==> x
        == y) && (x ^ (x >> 31) == y ^ (y >> 31) ==> x == y) && (s ^ x == s ^ y ==> x == y))
        by (bit_vector);
}

proof fn lemma_products_keep_apart(x: u64, y: u64, u: u64, v: u64, k: int)
    requires
        u * v == 1 + k * 0x1_0000_0000_0000_0000,
        x.wrapping_mul(u) == y.wrapping_mul(u),
    ensures
        x == y,
{
    lemma_inverse_pair(x, u, v, k);
    lemma_inverse_pair(y, u, v, k);
}

/// No two states stand for one output.
pub proof fn law_outputs_tell_states_apart(y: u64, z: u64)
    requires
        mixed(y) == mixed(z),
    ensures
        y == z,
{
    let (y1, z1) = (y ^ (y >> 30), z ^ (z >> 30));
    let (y2, z2) = (y1.wrapping_mul(0xBF58_476D_1CE4_E5B9), z1.wrapping_mul(0xBF58_476D_1CE4_E5B9));
    let (y3, z3) = (y2 ^ (y2 >> 27), z2 ^ (z2 >> 27));
    let (y4, z4) = (y3.wrapping_mul(0x94D0_49BB_1331_11EB), z3.wrapping_mul(0x94D0_49BB_1331_11EB));
    lemma_shifts_keep_apart(y4, z4, 0);
    lemma_products_keep_apart(
        y3,
        z3,
        0x94D0_49BB_1331_11EB,
        0x3196_42B2_D24D_8EC3,
        2077064247507883091,
    );
    lemma_shifts_keep_apart(y2, z2, 0);
    lemma_products_keep_apart(
        y1,
        z1,
        0xBF58_476D_1CE4_E5B9,
        0x96DE_1B17_3F11_9089,
        8125545580553827436,
    );
    lemma_shifts_keep_apart(y, z, 0);
}

/// The members of a stream of seeds have seeds of their own.
pub proof fn law_members_have_seeds_of_their_own(seed: u64, i: u32, j: u32)
    requires
        seed_for(seed, i) == seed_for(seed, j),
    ensures
        i == j,
{
    let (x, y) = (
        (i as u64).wrapping_mul(0xD6E8_FEB8_6659_FD93),
        (j as u64).wrapping_mul(0xD6E8_FEB8_6659_FD93),
    );
    law_outputs_tell_states_apart(state_after(seed ^ x, 1), state_after(seed ^ y, 1));
    let g: int = 0x9E37_79B9_7F4A_7C15;
    let (s, t) = (seed ^ x, seed ^ y);
    assert(s == t);
    lemma_shifts_keep_apart(x, y, seed);
    lemma_products_keep_apart(
        i as u64,
        j as u64,
        0xD6E8_FEB8_6659_FD93,
        0xCFEE_444D_8B59_A89B,
        12578109465933073204,
    );
}

} // verus!
