//! The decisions that soft decoding takes: which of the soft values of a check or of a symbol
//! counts. The values are given by their bit patterns.
use crate::float_bits;
use crate::gf2;
use crate::gray;
use crate::ldpc;
use crate::ldpc::LdpcCode;
use vstd::prelude::*;

verus! {

/// What a parity check says to one of its bits.
#[derive(Clone, Copy, Debug, PartialEq, Eq)]
pub struct CheckMessage {
    /// The other bits of the check make this one more likely to be 1.
    pub negative: bool,
    /// How sure the least sure of the other bits is.
    pub magnitude: u32,
}

/// The first `n` values have an odd number of negative ones among them.
pub open spec fn odd_negatives(q: Seq<u32>, n: nat) -> bool
    decreases n,
{
    if n == 0 {
        false
    } else {
        odd_negatives(q, (n - 1) as nat) != float_bits::less(q[n - 1], 0)
    }
}

/// `m` is the least magnitude among the values but value `i`, and infinity where there is none.
pub open spec fn is_least_of_others(q: Seq<u32>, i: int, m: u32) -> bool {
    &&& forall|j: int|
        0 <= j < q.len() && j != i ==> !float_bits::less(
            float_bits::magnitude(#[trigger] q[j]),
            m,
        )
    &&& m == float_bits::INFINITY || exists|j: int|
        0 <= j < q.len() && j != i && float_bits::magnitude(#[trigger] q[j]) == m
            && float_bits::less(m, float_bits::INFINITY)
}

/// The two least magnitudes among the first values, and where the least one is.
#[verifier::opaque]
spec fn are_least(q: Seq<u32>, n: int, at: int, min1: u32, min2: u32) -> bool {
    &&& !float_bits::is_nan(min1) && !float_bits::is_nan(min2)
    &&& float_bits::rank(min1) <= float_bits::rank(min2)
    &&& at == q.len() ==> min1 == float_bits::INFINITY
    &&& at != q.len() ==> 0 <= at < n && float_bits::magnitude(q[at]) == min1 && float_bits::less(
        min1,
        float_bits::INFINITY,
    )
    &&& forall|j: int|
        0 <= j < n ==> !float_bits::less(float_bits::magnitude(#[trigger] q[j]), min1)
    &&& forall|j: int|
        0 <= j < n && j != at ==> !float_bits::less(float_bits::magnitude(#[trigger] q[j]), min2)
    &&& min2 == float_bits::INFINITY || exists|j: int|
        0 <= j < n && j != at && float_bits::magnitude(#[trigger] q[j]) == min2
            && float_bits::less(min2, float_bits::INFINITY)
}

proof fn lemma_next_least(q: Seq<u32>, n: int, at: int, min1: u32, min2: u32)
    requires
        0 <= n < q.len(),
        are_least(q, n, at, min1, min2),
    ensures
        ({
            let a = float_bits::magnitude(q[n]);
            if float_bits::less(a, min1) {
                are_least(q, n + 1, n, a, min1)
            } else if float_bits::less(a, min2) {
                are_least(q, n + 1, at, min1, a)
            } else {
                are_least(q, n + 1, at, min1, min2)
            }
        }),
{
    reveal(are_least);
    let a = float_bits::magnitude(q[n]);
    if float_bits::less(a, min1) {
        if at != q.len() {
            assert(float_bits::magnitude(q[at]) == min1);
        }
    } else if float_bits::less(a, min2) {
        assert(float_bits::magnitude(q[n]) == a);
    } else if min2 != float_bits::INFINITY {
        let j = choose|j: int|
            0 <= j < n && j != at && float_bits::magnitude(#[trigger] q[j]) == min2
                && float_bits::less(min2, float_bits::INFINITY);
        assert(float_bits::magnitude(q[j]) == min2);
    }
}

proof fn lemma_least_serves(q: Seq<u32>, at: int, min1: u32, min2: u32, i: int)
    requires
        are_least(q, q.len() as int, at, min1, min2),
        0 <= i < q.len(),
    ensures
        is_least_of_others(
            q,
            i,
            if i == at {
                min2
            } else {
                min1
            },
        ),
{
    reveal(are_least);
    if i != at && at != q.len() {
        assert(float_bits::magnitude(q[at]) == min1);
    }
}

/// What a check says to each of its bits, given what they say to it.
pub fn check_messages(q: &[u32]) -> (r: Vec<CheckMessage>)
    ensures
        r@.len() == q@.len(),
        forall|i: int|
            0 <= i < q@.len() ==> {
                &&& (#[trigger] r@[i]).negative == (odd_negatives(q@, q@.len())
                    != float_bits::less(q@[i], 0))
                &&& is_least_of_others(q@, i, r@[i].magnitude)
            },
{
    let mut odd: bool = false;
    let mut min1: u32 = float_bits::INFINITY;
    let mut min2: u32 = float_bits::INFINITY;
    let mut at: usize = q.len();
    let mut i: usize = 0;
    proof {
        reveal(are_least);
        assert(are_least(q@, 0, at as int, min1, min2));
    }
    while i < q.len()
        invariant
            i <= q@.len(),
            odd == odd_negatives(q@, i as nat),
            are_least(q@, i as int, at as int, min1, min2),
        decreases q@.len() - i,
    {
        if float_bits::is_less(q[i], 0) {
            odd = !odd;
        }
        proof {
            lemma_next_least(q@, i as int, at as int, min1, min2);
        }
        let a: u32 = float_bits::magnitude_of(q[i]);
        if float_bits::is_less(a, min1) {
            min2 = min1;
            min1 = a;
            at = i;
        } else if float_bits::is_less(a, min2) {
            min2 = a;
        }
        i = i + 1;
    }
    let mut r: Vec<CheckMessage> = Vec::with_capacity(q.len());
    let mut k: usize = 0;
    while k < q.len()
        invariant
            k <= q@.len(),
            r@.len() == k,
            odd == odd_negatives(q@, q@.len()),
            are_least(q@, q@.len() as int, at as int, min1, min2),
            forall|i: int|
                0 <= i < k ==> {
                    &&& (#[trigger] r@[i]).negative == (odd_negatives(q@, q@.len())
                        != float_bits::less(q@[i], 0))
                    &&& is_least_of_others(q@, i, r@[i].magnitude)
                },
        decreases q@.len() - k,
    {
        proof {
            lemma_least_serves(q@, at as int, min1, min2, k as int);
        }
        let magnitude: u32 = if k == at {
            min2
        } else {
            min1
        };
        let negative: bool = odd != float_bits::is_less(q[k], 0);
        r.push(CheckMessage { negative, magnitude });
        k = k + 1;
    }
    r
}

/// A check that is told of a codeword's bits tells each of them what it is: without noise nothing
/// that a check says turns a bit over.
pub proof fn law_check_confirms_codeword(code: &LdpcCode, word: Seq<u8>, r: int, q: Seq<u32>)
    requires
        code.accepts(word),
        0 <= r < code.m,
        q.len() == code.checks()[r].len(),
        forall|j: int|
            0 <= j < q.len() ==> float_bits::less(#[trigger] q[j], 0) == ldpc::bits_of(
                word,
            )[code.checks()[r][j] as int],
    ensures
        forall|i: int|
            0 <= i < q.len() ==> (odd_negatives(q, q.len()) != float_bits::less(#[trigger] q[i], 0))
                == ldpc::bits_of(word)[code.checks()[r][i] as int],
{
    let x = ldpc::bits_of(word);
    let row = code.checks()[r];
    lemma_negatives_are_parity(row, x, q, q.len());
    assert(!gf2::sparse_parity(row, x, row.len()));
}

proof fn lemma_negatives_are_parity(row: Seq<usize>, x: Seq<bool>, q: Seq<u32>, n: nat)
    requires
        n <= q.len(),
        q.len() == row.len(),
        forall|j: int|
            0 <= j < q.len() ==> float_bits::less(#[trigger] q[j], 0) == x[row[j] as int],
    ensures
        odd_negatives(q, n) == gf2::sparse_parity(row, x, n),
    decreases n,
{
    if n > 0 {
        lemma_negatives_are_parity(row, x, q, (n - 1) as nat);
        assert(float_bits::less(q[n - 1], 0) == x[row[n - 1] as int]);
    }
}

/// Symbol `s` stands for a bit in place `shift` of its Gray code.
pub open spec fn symbol_has_bit(s: int, shift: u8, one: bool) -> bool {
    ((gray::gray(s as u8) >> shift) & 1 == 1) == one
}

/// `m` is the least of the metrics of the first `n` symbols that stand for a bit, and infinity where
/// there is none.
pub open spec fn is_least_metric(metrics: Seq<u64>, n: int, shift: u8, one: bool, m: u64) -> bool {
    &&& !float_bits::is_nan_double(m)
    &&& forall|s: int|
        #![trigger metrics[s]]
        0 <= s < n && symbol_has_bit(s, shift, one) ==> !float_bits::less_double(metrics[s], m)
    &&& m == float_bits::INFINITY_DOUBLE || exists|s: int|
        #![trigger metrics[s]]
        0 <= s < n && symbol_has_bit(s, shift, one) && metrics[s] == m && float_bits::less_double(
            m,
            float_bits::INFINITY_DOUBLE,
        )
}

/// For each bit of a symbol, the least metric of the symbols in which it is 0 and of those in which
/// it is 1. No more than eight symbols are looked at.
pub fn bit_metrics(metrics: &[u64], bits: usize) -> (r: Vec<(u64, u64)>)
    requires
        bits <= 8,
    ensures
        metrics@.len() == 0 ==> r@.len() == 0,
        metrics@.len() > 0 ==> r@.len() == bits,
        forall|i: int|
            0 <= i < r@.len() ==> {
                let n = if metrics@.len() < 8 {
                    metrics@.len() as int
                } else {
                    8
                };
                let shift = (bits - 1 - i) as u8;
                &&& is_least_metric(metrics@, n, shift, false, (#[trigger] r@[i]).0)
                &&& is_least_metric(metrics@, n, shift, true, r@[i].1)
            },
{
    let mut r: Vec<(u64, u64)> = Vec::new();
    if metrics.len() == 0 {
        return r;
    }
    let n: usize = if metrics.len() < 8 {
        metrics.len()
    } else {
        8
    };
    let mut i: usize = 0;
    while i < bits
        invariant
            i <= bits <= 8,
            r@.len() == i,
            0 < n <= 8,
            n <= metrics@.len(),
            n == if metrics@.len() < 8 {
                metrics@.len() as int
            } else {
                8
            },
            forall|j: int|
                0 <= j < i ==> {
                    let shift = (bits - 1 - j) as u8;
                    &&& is_least_metric(metrics@, n as int, shift, false, (#[trigger] r@[j]).0)
                    &&& is_least_metric(metrics@, n as int, shift, true, r@[j].1)
                },
        decreases bits - i,
    {
        let shift: u8 = (bits - 1 - i) as u8;
        let mut min0: u64 = float_bits::INFINITY_DOUBLE;
        let mut min1: u64 = float_bits::INFINITY_DOUBLE;
        let mut s: usize = 0;
        while s < n
            invariant
                s <= n <= 8,
                n <= metrics@.len(),
                shift < 8,
                is_least_metric(metrics@, s as int, shift, false, min0),
                is_least_metric(metrics@, s as int, shift, true, min1),
            decreases n - s,
        {
            let ghost (was0, was1) = (min0, min1);
            let g: u8 = gray::binary_to_gray_u8(s as u8);
            let x: u8 = g >> shift;
            assert(x & 1 == 0 || x & 1 == 1) by (bit_vector);
            let m: u64 = metrics[s];
            if x & 1 == 0 {
                if float_bits::is_less_double(m, min0) {
                    min0 = m;
                }
            } else if float_bits::is_less_double(m, min1) {
                min1 = m;
            }
            proof {
                lemma_least_metric_step(metrics@, s as int, shift, false, was0, min0);
                lemma_least_metric_step(metrics@, s as int, shift, true, was1, min1);
            }
            s = s + 1;
        }
        r.push((min0, min1));
        i = i + 1;
    }
    r
}

proof fn lemma_least_metric_step(metrics: Seq<u64>, s: int, shift: u8, one: bool, was: u64, now: u64)
    requires
        0 <= s < metrics.len(),
        is_least_metric(metrics, s, shift, one, was),
        now == if symbol_has_bit(s, shift, one) && float_bits::less_double(metrics[s], was) {
            metrics[s]
        } else {
            was
        },
    ensures
        is_least_metric(metrics, s + 1, shift, one, now),
{
    if now == was && was != float_bits::INFINITY_DOUBLE {
        let t = choose|t: int|
            #![trigger metrics[t]]
            0 <= t < s && symbol_has_bit(t, shift, one) && metrics[t] == was
                && float_bits::less_double(was, float_bits::INFINITY_DOUBLE);
        assert(metrics[t] == was);
    }
}

/// Where one value changes its sign the number of negative ones changes between odd and even, and
/// where none does it stays.
pub proof fn law_sign_turns_parity(p: Seq<u32>, q: Seq<u32>, i: int, n: nat)
    requires
        n <= p.len(),
        p.len() == q.len(),
        forall|j: int|
            0 <= j < n && j != i ==> float_bits::less(#[trigger] p[j], 0) == float_bits::less(
                q[j],
                0,
            ),
    ensures
        odd_negatives(p, n) != odd_negatives(q, n) <==> 0 <= i < n && float_bits::less(p[i], 0)
            != float_bits::less(q[i], 0),
    decreases n,
{
    if n > 0 {
        law_sign_turns_parity(p, q, i, (n - 1) as nat);
        assert(n - 1 == i || float_bits::less(p[n - 1], 0) == float_bits::less(q[n - 1], 0));
    }
}

} // verus!
