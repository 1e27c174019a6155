//! Sums of numbers.

use vstd::prelude::*;

verus! {

/// The sum of numbers.
pub open spec fn sum(v: Seq<int>) -> int
    decreases v.len(),
{
    if v.len() == 0 {
        0
    } else {
        sum(v.drop_last()) + v.last()
    }
}

/// One more number adds to the sum.
pub proof fn lemma_sum_push(v: Seq<int>, x: int)
    ensures
        sum(v.push(x)) == sum(v) + x,
{
    assert(v.push(x).drop_last() =~= v);
}

/// A number less leaves the rest of the sum.
pub proof fn lemma_sum_remove(v: Seq<int>, i: int)
    requires
        0 <= i < v.len(),
    ensures
        sum(v.remove(i)) == sum(v) - v[i],
    decreases v.len(),
{
    if i == v.len() - 1 {
        assert(v.remove(i) =~= v.drop_last());
    } else {
        lemma_sum_remove(v.drop_last(), i);
        assert(v.remove(i).drop_last() =~= v.drop_last().remove(i));
        assert(v.remove(i).last() == v.last());
    }
}

/// A number in place of another changes the sum by their difference.
pub proof fn lemma_sum_update(v: Seq<int>, i: int, x: int)
    requires
        0 <= i < v.len(),
    ensures
        sum(v.update(i, x)) == sum(v) - v[i] + x,
    decreases v.len(),
{
    if i == v.len() - 1 {
        assert(v.update(i, x).drop_last() =~= v.drop_last());
    } else {
        lemma_sum_update(v.drop_last(), i, x);
        assert(v.update(i, x).drop_last() =~= v.drop_last().update(i, x));
    }
}

/// Numbers that are not negative have a sum that is not negative.
pub proof fn lemma_sum_positive(v: Seq<int>)
    requires
        forall|i: int| 0 <= i < v.len() ==> 0 <= #[trigger] v[i],
    ensures
        0 <= sum(v),
    decreases v.len(),
{
    if v.len() > 0 {
        assert forall|i: int| 0 <= i < v.drop_last().len() implies 0 <= #[trigger] v.drop_last()[i] by {
            assert(v.drop_last()[i] == v[i]);
        }
        lemma_sum_positive(v.drop_last());
        assert(0 <= v[v.len() - 1]);
    }
}

/// None of such numbers exceeds the sum.
pub proof fn lemma_sum_covers(v: Seq<int>, i: int)
    requires
        forall|k: int| 0 <= k < v.len() ==> 0 <= #[trigger] v[k],
        0 <= i < v.len(),
    ensures
        0 <= v[i] <= sum(v),
{
    let r = v.remove(i);
    assert forall|k: int| 0 <= k < r.len() implies 0 <= #[trigger] r[k] by {
        assert(r[k] == if k < i {
            v[k]
        } else {
            v[k + 1]
        });
    }
    lemma_sum_positive(r);
    lemma_sum_remove(v, i);
}

/// Equal numbers have the sum of so many times one of them.
pub proof fn lemma_sum_of_equals(v: Seq<int>, x: int)
    requires
        forall|i: int| 0 <= i < v.len() ==> #[trigger] v[i] == x,
    ensures
        sum(v) == v.len() * x,
    decreases v.len(),
{
    if v.len() > 0 {
        assert forall|i: int| 0 <= i < v.drop_last().len() implies #[trigger] v.drop_last()[i] == x by {
            assert(v.drop_last()[i] == v[i]);
        }
        lemma_sum_of_equals(v.drop_last(), x);
        assert(v[v.len() - 1] == x);
        let n = v.len() as int;
        assert(n * x == (n - 1) * x + x) by (nonlinear_arith);
    }
}

} // verus!
