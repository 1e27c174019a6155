//! Stable sorting by an order that a type brings along.

use vstd::prelude::*;

verus! {

/// A type whose values can be put in order.
pub trait Ranked: Sized {
    /// Whether this value belongs before the other one.
    spec fn below(self, other: Self) -> bool;

    /// Whether this value belongs before the other one.
    fn is_below(&self, other: &Self) -> (r: bool)
        ensures
            r == (*self).below(*other),
    ;
}

/// Whether the order never contradicts itself on these values: of two values
/// not both come first, and a value that comes before another comes before or
/// after any third.
pub open spec fn orderly<T: Ranked>(v: Seq<T>) -> bool {
    &&& forall|i: int, j: int|
        #![trigger v[i], v[j]]
        0 <= i < v.len() && 0 <= j < v.len() && v[i].below(v[j]) ==> !v[j].below(v[i])
    &&& forall|i: int, j: int, k: int|
        #![trigger v[i], v[j], v[k]]
        0 <= i < v.len() && 0 <= j < v.len() && 0 <= k < v.len() && v[i].below(v[k]) ==> v[i].below(v[j]) || v[j].below(v[k])
}

/// Whether `p` names each of the first `n` places once.
pub open spec fn is_order(p: Seq<int>, n: nat) -> bool {
    &&& p.len() == n
    &&& forall|i: int| 0 <= i < n ==> 0 <= #[trigger] p[i] < n
    &&& forall|i: int, j: int| 0 <= i < j < n ==> #[trigger] p[i] != #[trigger] p[j]
    &&& forall|x: int| 0 <= x < n ==> #[trigger] p.contains(x)
}

/// Whether `new` holds the values of `old` in the order of the places `p`.
pub open spec fn arranged<T>(old_v: Seq<T>, new_v: Seq<T>, p: Seq<int>) -> bool {
    &&& is_order(p, old_v.len())
    &&& new_v.len() == old_v.len()
    &&& forall|i: int| 0 <= i < new_v.len() ==> #[trigger] new_v[i] == old_v[p[i]]
}

/// Whether the value at place `x` is to stand before that at place `y`: by the
/// order, and where the order leaves it open, by the places.
pub open spec fn stands_before<T: Ranked>(v: Seq<T>, x: int, y: int) -> bool {
    v[x].below(v[y]) || (!v[y].below(v[x]) && x < y)
}

/// Whether the places `p` are in order.
pub open spec fn in_order<T: Ranked>(v: Seq<T>, p: Seq<int>) -> bool {
    forall|i: int, j: int| #![trigger p[i], p[j]] 0 <= i < j < p.len() ==> stands_before(v, p[i], p[j])
}

/// Whether `new` is `old` sorted: the same values, and in order if the order
/// does not contradict itself on them. Values that the order does not tell
/// apart keep their sequence.
pub open spec fn sorted_from<T: Ranked>(old_v: Seq<T>, new_v: Seq<T>) -> bool {
    exists|p: Seq<int>| #[trigger] arranged(old_v, new_v, p) && (orderly(old_v) ==> in_order(old_v, p))
}

/// Moves place `i` forward to place `k`.
pub open spec fn moved<T>(v: Seq<T>, i: int, k: int) -> Seq<T> {
    v.remove(i).insert(k, v[i])
}

/// Moving a place keeps an arrangement.
proof fn lemma_moved<T>(old_v: Seq<T>, v: Seq<T>, p: Seq<int>, i: int, k: int)
    requires
        arranged(old_v, v, p),
        0 <= k <= i < v.len(),
    ensures
        arranged(old_v, moved(v, i, k), moved(p, i, k)),
{
    let q = moved(p, i, k);
    let w = moved(v, i, k);
    assert(q.len() == p.len() && w.len() == v.len());
    let src = |j: int| if j == k {
        i
    } else if j < k || j > i {
        j
    } else {
        j - 1
    };
    assert forall|j: int| 0 <= j < q.len() implies #[trigger] q[j] == p[src(j)] && w[j] == v[src(j)] && 0 <= src(j) < p.len() by {}
    assert forall|a: int, b: int| 0 <= a < b < q.len() implies #[trigger] q[a] != #[trigger] q[b] by {
        assert(q[a] == p[src(a)] && q[b] == p[src(b)]);
        assert(src(a) != src(b));
        if src(a) < src(b) {
            assert(p[src(a)] != p[src(b)]);
        } else {
            assert(p[src(b)] != p[src(a)]);
        }
    }
    assert forall|x: int| 0 <= x < old_v.len() implies #[trigger] q.contains(x) by {
        assert(p.contains(x));
        let j = choose|j: int| 0 <= j < p.len() && p[j] == x;
        let t = if j == i {
            k
        } else if j < k || j > i {
            j
        } else {
            j + 1
        };
        assert(q[t] == p[src(t)] && src(t) == j);
        assert(q[t] == x);
    }
    assert forall|j: int| 0 <= j < w.len() implies #[trigger] w[j] == old_v[q[j]] by {
        assert(q[j] == p[src(j)] && w[j] == v[src(j)]);
    }
    assert forall|j: int| 0 <= j < old_v.len() implies 0 <= #[trigger] q[j] < old_v.len() by {
        assert(q[j] == p[src(j)]);
    }
}

/// The places so far are in order among each other.
spec fn settled<T: Ranked>(v: Seq<T>, p: Seq<int>, n: int) -> bool {
    forall|a: int, b: int| #![trigger p[a], p[b]] 0 <= a < b < n ==> stands_before(v, p[a], p[b])
}

/// Putting the next place where it belongs settles it.
proof fn lemma_settles<T: Ranked>(v: Seq<T>, p: Seq<int>, i: int, k: int)
    requires
        orderly(v),
        is_order(p, v.len()),
        0 <= k <= i < p.len(),
        settled(v, p, i),
        p[i] == i,
        forall|a: int| 0 <= a < i ==> #[trigger] p[a] < i,
        forall|a: int| k <= a < i ==> v[i].below(v[#[trigger] p[a]]),
        k > 0 ==> !v[i].below(v[p[k - 1]]),
    ensures
        settled(v, moved(p, i, k), i + 1),
{
    let q = moved(p, i, k);
    assert forall|a: int, b: int| #![trigger q[a], q[b]] 0 <= a < b < i + 1 implies stands_before(v, q[a], q[b]) by {
        if a == k {
            assert(q[a] == i && q[b] == p[b - 1]);
            assert(v[i].below(v[p[b - 1]]));
        } else if b == k {
            assert(q[b] == i && q[a] == p[a]);
            let x = p[a];
            let y = p[k - 1];
            if a < k - 1 {
                assert(stands_before(v, p[a], p[k - 1]));
            }
            assert(!v[i].below(v[x])) by {
                if v[i].below(v[x]) {
                    assert(v[i].below(v[y]) || v[y].below(v[x]));
                    assert(v[x].below(v[y]) ==> !v[y].below(v[x]));
                }
            }
            assert(p[a] < i);
        } else {
            let a2 = if a < k {
                a
            } else {
                a - 1
            };
            let b2 = if b < k {
                b
            } else {
                b - 1
            };
            assert(q[a] == p[a2] && q[b] == p[b2]);
            assert(stands_before(v, p[a2], p[b2]));
        }
    }
}

/// Sorts. Values that the order does not tell apart keep their sequence.
pub fn sort<T: Ranked>(v: &mut Vec<T>)
    ensures
        sorted_from(old(v)@, final(v)@),
{
    let ghost old_v = v@;
    let ghost mut p = Seq::new(v@.len(), |j: int| j);
    let n: usize = v.len();
    let mut i: usize = 0;
    proof {
        assert forall|x: int| 0 <= x < old_v.len() implies #[trigger] p.contains(x) by {
            assert(p[x] == x);
        }
    }
    while i < n
        invariant
            n == old_v.len(),
            i <= n,
            arranged(old_v, v@, p),
            forall|a: int| i <= a < n ==> #[trigger] p[a] == a,
            forall|a: int| 0 <= a < i ==> #[trigger] p[a] < i,
            orderly(old_v) ==> settled(old_v, p, i as int),
        decreases n - i,
    {
        let mut k: usize = i;
        while k > 0 && v[i].is_below(&v[k - 1])
            invariant
                k <= i < n,
                n == old_v.len(),
                arranged(old_v, v@, p),
                p[i as int] == i,
                forall|a: int| k <= a < i ==> old_v[i as int].below(old_v[#[trigger] p[a]]),
            decreases k,
        {
            assert(v@[i as int] == old_v[p[i as int]]);
            assert(v@[k - 1] == old_v[p[k - 1]]);
            k = k - 1;
        }
        proof {
            if k > 0 {
                assert(v@[i as int] == old_v[p[i as int]]);
                assert(v@[k - 1] == old_v[p[k - 1]]);
            }
            lemma_moved(old_v, v@, p, i as int, k as int);
            if orderly(old_v) {
                lemma_settles(old_v, p, i as int, k as int);
            }
        }
        let x = v.remove(i);
        v.insert(k, x);
        proof {
            p = moved(p, i as int, k as int);
        }
        i = i + 1;
    }
    assert(arranged(old_v, v@, p) && (orderly(old_v) ==> in_order(old_v, p)));
}

/// There is only one way to put values in order.
pub proof fn order_is_unique<T: Ranked>(v: Seq<T>, p: Seq<int>, q: Seq<int>)
    requires
        orderly(v),
        is_order(p, v.len()),
        is_order(q, v.len()),
        in_order(v, p),
        in_order(v, q),
    ensures
        p == q,
{
    if p != q {
        assert(exists|k: int| 0 <= k < p.len() && p[k] != q[k]) by {
            if forall|k: int| 0 <= k < p.len() ==> p[k] == q[k] {
                assert(p =~= q);
            }
        }
        lemma_first_difference(p, q, (choose|k: int| 0 <= k < p.len() && p[k] != q[k]));
        let k = choose|k: int| 0 <= k < p.len() && p[k] != q[k] && (forall|j: int| 0 <= j < k ==> p[j] == q[j]);
        assert(q.contains(p[k]) && p.contains(q[k]));
        let a = choose|a: int| 0 <= a < q.len() && q[a] == p[k];
        let b = choose|b: int| 0 <= b < p.len() && p[b] == q[k];
        assert(a > k) by {
            if a < k {
                assert(p[a] == p[k]);
            }
        }
        assert(b > k) by {
            if b < k {
                assert(q[b] == q[k]);
            }
        }
        assert(stands_before(v, q[k], q[a]));
        assert(stands_before(v, p[k], p[b]));
        assert(v[p[k]].below(v[q[k]]) ==> !v[q[k]].below(v[p[k]]));
    }
}

/// The values sorted.
pub open spec fn sorted<T: Ranked>(v: Seq<T>) -> Seq<T> {
    choose|s: Seq<T>| sorted_from(v, s)
}

/// Sorting by an order that does not contradict itself has one result.
pub proof fn sorting_has_one_result<T: Ranked>(v: Seq<T>, s: Seq<T>)
    requires
        orderly(v),
        sorted_from(v, s),
    ensures
        s == sorted(v),
{
    let w = sorted(v);
    assert(sorted_from(v, w));
    let p = choose|p: Seq<int>| #[trigger] arranged(v, s, p) && (orderly(v) ==> in_order(v, p));
    let q = choose|q: Seq<int>| #[trigger] arranged(v, w, q) && (orderly(v) ==> in_order(v, q));
    order_is_unique(v, p, q);
    assert(s =~= w);
}

/// The place where place `i` belongs among the `k` first ones.
proof fn lemma_place<T: Ranked>(v: Seq<T>, p: Seq<int>, i: int, from: int) -> (k: int)
    requires
        0 <= from <= i < p.len(),
        forall|a: int| from <= a < i ==> v[i].below(v[#[trigger] p[a]]),
    ensures
        0 <= k <= i,
        forall|a: int| k <= a < i ==> v[i].below(v[#[trigger] p[a]]),
        k > 0 ==> !v[i].below(v[p[k - 1]]),
    decreases from,
{
    if from > 0 && v[i].below(v[p[from - 1]]) {
        lemma_place(v, p, i, from - 1)
    } else {
        from
    }
}

/// The first `n` places can be put in order.
proof fn lemma_sortable<T: Ranked>(v: Seq<T>, n: int) -> (p: Seq<int>)
    requires
        orderly(v),
        0 <= n <= v.len(),
    ensures
        is_order(p, v.len()),
        settled(v, p, n),
        forall|a: int| n <= a < p.len() ==> #[trigger] p[a] == a,
        forall|a: int| 0 <= a < n ==> #[trigger] p[a] < n,
    decreases n,
{
    if n == 0 {
        let p = Seq::new(v.len(), |j: int| j);
        assert forall|x: int| 0 <= x < v.len() implies #[trigger] p.contains(x) by {
            assert(p[x] == x);
        }
        p
    } else {
        let q = lemma_sortable(v, n - 1);
        let i = n - 1;
        let k = lemma_place(v, q, i, i);
        let w = Seq::new(v.len(), |j: int| v[q[j]]);
        assert(arranged(v, w, q));
        lemma_moved(v, w, q, i, k);
        lemma_settles(v, q, i, k);
        moved(q, i, k)
    }
}

/// What is called sorted is sorted.
pub proof fn sorted_is_sorted<T: Ranked>(v: Seq<T>)
    requires
        orderly(v),
    ensures
        sorted_from(v, sorted(v)),
{
    let p = lemma_sortable(v, v.len() as int);
    let w = Seq::new(v.len(), |j: int| v[p[j]]);
    assert(arranged(v, w, p) && in_order(v, p));
    assert(sorted_from(v, w));
}

/// Where two sequences differ, they differ somewhere first.
proof fn lemma_first_difference(p: Seq<int>, q: Seq<int>, k: int)
    requires
        p.len() == q.len(),
        0 <= k < p.len(),
        p[k] != q[k],
    ensures
        exists|k: int| 0 <= k < p.len() && #[trigger] p[k] != q[k] && (forall|j: int| 0 <= j < k ==> p[j] == q[j]),
    decreases k,
{
    if exists|j: int| 0 <= j < k && p[j] != q[j] {
        lemma_first_difference(p, q, (choose|j: int| 0 <= j < k && p[j] != q[j]));
    }
}

} // verus!
