use vstd::prelude::*;

verus! {

/// How many of the first `k` entries of `s` are true.
pub open spec fn count_true(s: Seq<bool>, k: int) -> nat
    decreases k,
{
    if k <= 0 {
        0
    } else {
        count_true(s, k - 1) + if s[k - 1] { 1nat } else { 0nat }
    }
}

/// The count over a prefix depends only on that prefix.
pub proof fn lemma_count_agree(s1: Seq<bool>, s2: Seq<bool>, k: int)
    requires
        0 <= k <= s1.len(),
        k <= s2.len(),
        forall|i: int| 0 <= i < k ==> s1[i] == s2[i],
    ensures
        count_true(s1, k) == count_true(s2, k),
    decreases k,
{
    if k > 0 {
        lemma_count_agree(s1, s2, k - 1);
    }
}

/// Changing one entry inside the prefix moves the count by that entry alone.
pub proof fn lemma_count_update(s: Seq<bool>, i: int, v: bool, k: int)
    requires
        0 <= i < k <= s.len(),
    ensures
        count_true(s.update(i, v), k) + (if s[i] { 1int } else { 0int }) == count_true(s, k) + (
        if v { 1int } else { 0int }),
    decreases k,
{
    if k - 1 == i {
        lemma_count_agree(s.update(i, v), s, k - 1);
    } else {
        lemma_count_update(s, i, v, k - 1);
    }
}

} // verus!
