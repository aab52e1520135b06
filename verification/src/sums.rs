use vstd::prelude::*;

verus! {

/// The sum of the items of `s`.
pub open spec fn total(s: Seq<nat>) -> nat
    decreases s.len(),
{
    if s.len() == 0 {
        0
    } else {
        total(s.drop_last()) + s.last()
    }
}

/// Taking one more item adds it to the sum.
pub proof fn lemma_total_step(s: Seq<nat>, k: int)
    requires
        0 <= k < s.len(),
    ensures
        total(s.take(k + 1)) == total(s.take(k)) + s[k],
{
    assert(s.take(k + 1).drop_last() =~= s.take(k));
}

/// The sum of a prefix is at most the sum of the whole.
pub proof fn lemma_total_prefix(s: Seq<nat>, k: int)
    requires
        0 <= k <= s.len(),
    ensures
        total(s.take(k)) <= total(s),
    decreases s.len() - k,
{
    if k == s.len() {
        assert(s.take(k) =~= s);
    } else {
        lemma_total_step(s, k);
        lemma_total_prefix(s, k + 1);
    }
}

/// No item is larger than the sum.
pub proof fn lemma_total_item(s: Seq<nat>, i: int)
    requires
        0 <= i < s.len(),
    ensures
        s[i] <= total(s),
{
    lemma_total_step(s, i);
    lemma_total_prefix(s, i + 1);
}

/// Without one of its items the sum is less by that item.
pub proof fn lemma_total_remove(s: Seq<nat>, i: int)
    requires
        0 <= i < s.len(),
    ensures
        total(s) == total(s.remove(i)) + s[i],
    decreases s.len(),
{
    if i == s.len() - 1 {
        assert(s.remove(i) =~= s.drop_last());
    } else {
        lemma_total_remove(s.drop_last(), i);
        assert(s.remove(i).drop_last() =~= s.drop_last().remove(i));
        assert(s.remove(i).last() == s.last());
    }
}

/// The sum of the numbers of `values`, where every one is there and the
/// sum fits in `u32`.
pub open spec fn sum_of(values: Seq<Option<nat>>) -> Option<u32> {
    if forall|i: int| 0 <= i < values.len() ==> (#[trigger] values[i]) is Some {
        let numbers = values.map_values(|v: Option<nat>| v.unwrap());
        if total(numbers) <= u32::MAX {
            Some(total(numbers) as u32)
        } else {
            None
        }
    } else {
        None
    }
}

} // verus!
