//! Counting arguments over sequences of integers.
use vstd::prelude::*;
use vstd::set_lib::*;

verus! {

/// `n` distinct integers from `lo .. lo + n` are all of them.
pub proof fn lemma_pigeonhole(s: Seq<int>, lo: int, v: int)
    requires
        s.no_duplicates(),
        forall|i: int| 0 <= i < s.len() ==> lo <= #[trigger] s[i] < lo + s.len(),
        lo <= v < lo + s.len(),
    ensures
        s.contains(v),
{
    s.unique_seq_to_set();
    lemma_int_range(lo, lo + s.len());
    let all = set_int_range(lo, lo + s.len());
    assert(s.to_set().subset_of(all)) by {
        assert forall|x: int| s.to_set().contains(x) implies all.contains(x) by {
            let i = choose|i: int| 0 <= i < s.len() && s[i] == x;
            assert(lo <= s[i] < lo + s.len());
        }
    }
    s.lemma_cardinality_of_set();
    lemma_subset_equality(s.to_set(), all);
    assert(s.to_set().contains(v));
}

/// Fewer than `m` numbers leave one below `m` out.
pub proof fn lemma_some_missing(s: Seq<usize>, m: nat) -> (v: usize)
    requires
        s.len() < m <= usize::MAX,
    ensures
        v < m,
        !s.contains(v),
{
    if forall|v: usize| v < m ==> s.contains(v) {
        let firsts = Seq::new(m, |v: int| choose|i: int| 0 <= i < s.len() && s[i] == v as usize);
        assert forall|v: int| 0 <= v < m implies 0 <= #[trigger] firsts[v] < s.len() && s[firsts[v]]
            == v as usize by {
            assert(s.contains(v as usize));
        }
        assert(firsts.no_duplicates());
        let all = set_int_range(0, s.len() as int);
        lemma_int_range(0, s.len() as int);
        assert(firsts.to_set().subset_of(all)) by {
            assert forall|x: int| firsts.to_set().contains(x) implies all.contains(x) by {
                let i = choose|i: int| 0 <= i < firsts.len() && firsts[i] == x;
                assert(0 <= firsts[i] < s.len());
            }
        }
        firsts.unique_seq_to_set();
        lemma_len_subset(firsts.to_set(), all);
        assert(false);
    }
    choose|v: usize| v < m && !s.contains(v)
}

/// Distinct numbers that are all the numbers below `n` are `n` many.
pub proof fn lemma_exact_cover(s: Seq<int>, n: int)
    requires
        0 <= n,
        s.no_duplicates(),
        forall|i: int| 0 <= i < s.len() ==> 0 <= #[trigger] s[i] < n,
        forall|v: int| 0 <= v < n ==> #[trigger] s.contains(v),
    ensures
        s.len() == n,
{
    let all = set_int_range(0, n);
    lemma_int_range(0, n);
    s.unique_seq_to_set();
    assert(s.to_set() =~= all) by {
        assert forall|x: int| s.to_set().contains(x) <==> all.contains(x) by {
            if s.to_set().contains(x) {
                let i = choose|i: int| 0 <= i < s.len() && s[i] == x;
                assert(0 <= s[i] < n);
            }
            if all.contains(x) {
                assert(s.contains(x));
            }
        }
    }
}

} // verus!
