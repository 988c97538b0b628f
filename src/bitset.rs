//! Sets of state indices as boolean vectors, and the facts that bound how
//! many distinct ones there can be.
use vstd::prelude::*;

verus! {

/// Number of `true` entries.
pub open spec fn count_true(s: Seq<bool>) -> nat
    decreases s.len(),
{
    if s.len() == 0 {
        0
    } else {
        count_true(s.drop_last()) + if s.last() {
            1nat
        } else {
            0nat
        }
    }
}

pub proof fn lemma_count_true_bound(s: Seq<bool>)
    ensures
        count_true(s) <= s.len(),
    decreases s.len(),
{
    if s.len() > 0 {
        lemma_count_true_bound(s.drop_last());
    }
}

/// Setting a `false` entry to `true` adds one to the count.
pub proof fn lemma_count_true_set(s: Seq<bool>, i: int)
    requires
        0 <= i < s.len(),
        !s[i],
    ensures
        count_true(s.update(i, true)) == count_true(s) + 1,
    decreases s.len(),
{
    let t = s.update(i, true);
    if i == s.len() - 1 {
        assert(t.drop_last() =~= s.drop_last());
    } else {
        assert(t.drop_last() =~= s.drop_last().update(i, true));
        lemma_count_true_set(s.drop_last(), i);
    }
}

/// The number whose binary digits, least significant first, are `s`.
pub open spec fn encode(s: Seq<bool>) -> nat
    decreases s.len(),
{
    if s.len() == 0 {
        0
    } else {
        (if s[0] {
            1nat
        } else {
            0nat
        }) + 2 * encode(s.drop_first())
    }
}

pub proof fn lemma_encode_bound(s: Seq<bool>)
    ensures
        encode(s) < vstd::arithmetic::power2::pow2(s.len()),
    decreases s.len(),
{
    if s.len() > 0 {
        lemma_encode_bound(s.drop_first());
        vstd::arithmetic::power2::lemma_pow2_unfold(s.len());
    } else {
        vstd::arithmetic::power2::lemma2_to64();
    }
}

pub proof fn lemma_encode_injective(a: Seq<bool>, b: Seq<bool>)
    requires
        a.len() == b.len(),
        encode(a) == encode(b),
    ensures
        a == b,
    decreases a.len(),
{
    if a.len() > 0 {
        assert(a[0] == b[0]);
        lemma_encode_injective(a.drop_first(), b.drop_first());
        assert(a =~= seq![a[0]] + a.drop_first());
        assert(b =~= seq![b[0]] + b.drop_first());
    } else {
        assert(a =~= b);
    }
}

/// Pairwise distinct entries, each of length `m`.
pub open spec fn distinct_of_len(sets: Seq<Seq<bool>>, m: nat) -> bool {
    &&& forall|k: int| 0 <= k < sets.len() ==> (#[trigger] sets[k]).len() == m
    &&& forall|j: int, k: int| 0 <= j < k < sets.len() ==> sets[j] != sets[k]
}

/// There are at most `2^m` distinct boolean sequences of length `m`.
pub proof fn lemma_distinct_bound(sets: Seq<Seq<bool>>, m: nat)
    requires
        distinct_of_len(sets, m),
    ensures
        sets.len() <= vstd::arithmetic::power2::pow2(m),
{
    let codes = sets.map_values(|s: Seq<bool>| encode(s) as int);
    assert forall|j: int, k: int| 0 <= j < codes.len() && 0 <= k < codes.len() && j != k implies codes[j]
        != codes[k] by {
        if codes[j] == codes[k] {
            lemma_encode_injective(sets[j], sets[k]);
            if j < k {
                assert(sets[j] != sets[k]);
            } else {
                assert(sets[k] != sets[j]);
            }
        }
    }
    assert(codes.no_duplicates());
    codes.unique_seq_to_set();
    let range = vstd::set_lib::set_int_range(0, vstd::arithmetic::power2::pow2(m) as int);
    assert forall|x: int| codes.to_set().contains(x) implies range.contains(x) by {
        let k = choose|k: int| 0 <= k < codes.len() && codes[k] == x;
        lemma_encode_bound(sets[k]);
    }
    vstd::set_lib::lemma_int_range(0, vstd::arithmetic::power2::pow2(m) as int);
    vstd::set_lib::lemma_len_subset(codes.to_set(), range);
}

} // verus!
