//! Chooses among possible joins of chunks, and follows the chosen ones to
//! whole recordings. Chunks are named by their place in the list of parts.

use vstd::prelude::*;

use crate::order::{orderly, Ranked};
use crate::scan::indices;

verus! {

/// A choice is ambiguous if another one was worse by less than this.
pub const AMBIGUITY_MARGIN: i128 = 500_000_000;

/// A possible join: chunk `b` continues chunk `a`. The smaller the score, the
/// better it fits.
#[derive(Debug, Clone, Copy, PartialEq, Eq, Structural)]
pub struct Link {
    pub a: usize,
    pub b: usize,
    pub score: i128,
}

impl Ranked for Link {
    open spec fn below(self, other: Link) -> bool {
        self.score < other.score
    }

    fn is_below(&self, other: &Link) -> (r: bool) {
        self.score < other.score
    }
}

/// Sorting joins by score never contradicts itself.
pub proof fn links_are_orderly(l: Seq<Link>)
    ensures
        orderly(l),
{
}

/// Whether every join leads from one of `n` chunks to a later one.
pub open spec fn forward(l: Seq<Link>, n: int) -> bool {
    forall|k: int| 0 <= k < l.len() ==> (#[trigger] l[k]).a < l[k].b < n
}

/// What follows chunk `x` by the chosen joins `t`.
pub open spec fn next_in(l: Seq<Link>, t: Seq<int>, x: int) -> Option<int>
    decreases t.len(),
{
    if t.len() == 0 {
        None
    } else if l[t.last()].a == x {
        Some(l[t.last()].b as int)
    } else {
        next_in(l, t.drop_last(), x)
    }
}

/// What comes before chunk `x` by the chosen joins `t`.
pub open spec fn prev_in(l: Seq<Link>, t: Seq<int>, x: int) -> Option<int>
    decreases t.len(),
{
    if t.len() == 0 {
        None
    } else if l[t.last()].b == x {
        Some(l[t.last()].a as int)
    } else {
        prev_in(l, t.drop_last(), x)
    }
}

/// The joins chosen among the first `k`: each one whose chunks have no
/// successor or predecessor yet.
pub open spec fn taken(l: Seq<Link>, k: int) -> Seq<int>
    decreases k,
{
    if k <= 0 {
        Seq::empty()
    } else {
        let t = taken(l, k - 1);
        if next_in(l, t, l[k - 1].a as int) is None && prev_in(l, t, l[k - 1].b as int) is None {
            t.push(k - 1)
        } else {
            t
        }
    }
}

/// Whether two joins compete for a chunk.
pub open spec fn compete(x: Link, y: Link) -> bool {
    x.a == y.a || x.b == y.b
}

/// Whether another join that competes with join `c` was nearly as good.
pub open spec fn rivalled(l: Seq<Link>, c: int) -> bool {
    exists|j: int| 0 <= j < l.len() && j != c && compete(#[trigger] l[j], l[c]) && l[j].score - l[c].score < AMBIGUITY_MARGIN
}

/// Whether a chosen join at chunk `x` was nearly beaten by another one.
pub open spec fn doubtful(l: Seq<Link>, t: Seq<int>, x: int) -> bool {
    exists|q: int| 0 <= q < t.len() && (l[#[trigger] t[q]].a == x || l[t[q]].b == x) && rivalled(l, t[q])
}

/// No successor means that no chosen join starts there.
proof fn lemma_next_none(l: Seq<Link>, t: Seq<int>, x: int)
    ensures
        next_in(l, t, x) is None <==> (forall|q: int| 0 <= q < t.len() ==> l[#[trigger] t[q]].a != x),
        next_in(l, t, x) matches Some(y) ==> exists|q: int| 0 <= q < t.len() && l[#[trigger] t[q]].a == x && l[t[q]].b == y,
    decreases t.len(),
{
    if t.len() > 0 {
        let s = t.drop_last();
        lemma_next_none(l, s, x);
        assert(forall|q: int| 0 <= q < s.len() ==> s[q] == t[q]);
        assert(t[t.len() - 1] == t.last());
        if l[t.last()].a != x && next_in(l, s, x) is Some {
            let q = choose|q: int| 0 <= q < s.len() && l[#[trigger] s[q]].a == x && l[s[q]].b == next_in(l, s, x)->Some_0;
            assert(t[q] == s[q]);
        }
    }
}

/// No predecessor means that no chosen join ends there.
proof fn lemma_prev_none(l: Seq<Link>, t: Seq<int>, x: int)
    ensures
        prev_in(l, t, x) is None <==> (forall|q: int| 0 <= q < t.len() ==> l[#[trigger] t[q]].b != x),
        prev_in(l, t, x) matches Some(y) ==> exists|q: int| 0 <= q < t.len() && l[#[trigger] t[q]].b == x && l[t[q]].a == y,
    decreases t.len(),
{
    if t.len() > 0 {
        let s = t.drop_last();
        lemma_prev_none(l, s, x);
        assert(forall|q: int| 0 <= q < s.len() ==> s[q] == t[q]);
        assert(t[t.len() - 1] == t.last());
        if l[t.last()].b != x && prev_in(l, s, x) is Some {
            let q = choose|q: int| 0 <= q < s.len() && l[#[trigger] s[q]].b == x && l[s[q]].a == prev_in(l, s, x)->Some_0;
            assert(t[q] == s[q]);
        }
    }
}

/// Every chunk is continued at most once and continues at most one other: no
/// two chosen joins compete.
pub proof fn chosen_joins_do_not_compete(l: Seq<Link>, k: int)
    requires
        0 <= k <= l.len(),
    ensures
        forall|p: int| 0 <= p < taken(l, k).len() ==> 0 <= #[trigger] taken(l, k)[p] < k,
        forall|p: int, q: int|
            0 <= p < q < taken(l, k).len() ==> #[trigger] taken(l, k)[p] < #[trigger] taken(l, k)[q] && !compete(l[taken(l, k)[p]], l[taken(l, k)[q]]),
    decreases k,
{
    if k > 0 {
        chosen_joins_do_not_compete(l, k - 1);
        let t = taken(l, k - 1);
        let u = taken(l, k);
        lemma_next_none(l, t, l[k - 1].a as int);
        lemma_prev_none(l, t, l[k - 1].b as int);
        assert forall|p: int| 0 <= p < u.len() implies 0 <= #[trigger] u[p] < k by {
            if p < t.len() {
                assert(u[p] == t[p]);
            }
        }
        assert forall|p: int, q: int| 0 <= p < q < u.len() implies #[trigger] u[p] < #[trigger] u[q] && !compete(l[u[p]], l[u[q]]) by {
            assert(u[p] == t[p]);
            if q < t.len() {
                assert(u[q] == t[q]);
            }
        }
    }
}

/// A join is passed over only for one before it that competes with it.
pub proof fn choice_is_greedy(l: Seq<Link>, k: int, i: int)
    requires
        0 <= i < k <= l.len(),
        !taken(l, k).contains(i),
    ensures
        exists|p: int| 0 <= p < taken(l, k).len() && #[trigger] taken(l, k)[p] < i && compete(l[taken(l, k)[p]], l[i]),
    decreases k,
{
    let t = taken(l, k - 1);
    let u = taken(l, k);
    if i < k - 1 {
        assert(!t.contains(i)) by {
            if t.contains(i) {
                let p = choose|p: int| 0 <= p < t.len() && t[p] == i;
                assert(u[p] == i);
            }
        }
        choice_is_greedy(l, k - 1, i);
        let p = choose|p: int| 0 <= p < t.len() && #[trigger] t[p] < i && compete(l[t[p]], l[i]);
        assert(u[p] == t[p]);
    } else {
        lemma_next_none(l, t, l[i].a as int);
        lemma_prev_none(l, t, l[i].b as int);
        if next_in(l, t, l[i].a as int) is None && prev_in(l, t, l[i].b as int) is None {
            assert(u[t.len() as int] == i);
        } else {
            chosen_joins_do_not_compete(l, k - 1);
            assert(u == t);
            let p = choose|p: int| 0 <= p < t.len() && compete(l[#[trigger] t[p]], l[i]);
            assert(u[p] < i);
        }
    }
}

// ------------------------------------------------------------------ chains

/// Whether every successor is a later one of the `n` chunks.
pub open spec fn ahead(next: Seq<Option<int>>) -> bool {
    forall|x: int| 0 <= x < next.len() ==> (#[trigger] next[x] matches Some(y) ==> x < y < next.len())
}

/// Chunk `i` and all that follow it.
pub open spec fn chain_from(next: Seq<Option<int>>, i: int) -> Seq<int>
    decreases next.len() - i,
{
    if i < 0 || i >= next.len() {
        Seq::empty()
    } else {
        match next[i] {
            Some(j) => if i < j < next.len() {
                seq![i] + chain_from(next, j)
            } else {
                seq![i]
            },
            None => seq![i],
        }
    }
}

/// The chains of the first `n` chunks that nothing comes before.
pub open spec fn chains_of(next: Seq<Option<int>>, prev: Seq<Option<int>>, n: int) -> Seq<Seq<int>>
    decreases n,
{
    if n <= 0 {
        Seq::empty()
    } else if prev[n - 1] is None {
        chains_of(next, prev, n - 1).push(chain_from(next, n - 1))
    } else {
        chains_of(next, prev, n - 1)
    }
}

/// Successor and predecessor tell the same story.
pub open spec fn mirrored(next: Seq<Option<int>>, prev: Seq<Option<int>>) -> bool {
    &&& next.len() == prev.len()
    &&& ahead(next)
    &&& forall|x: int, y: int|
        #![trigger next[x], prev[y]]
        0 <= x < next.len() && 0 <= y < next.len() ==> (next[x] == Some(y) <==> prev[y] == Some(x))
    &&& forall|y: int| 0 <= y < prev.len() ==> (#[trigger] prev[y] matches Some(x) ==> 0 <= x < y)
}

/// A chain starts with its chunk, each further one follows the one before, and
/// nothing follows the last.
proof fn lemma_chain(next: Seq<Option<int>>, i: int)
    requires
        ahead(next),
        0 <= i < next.len(),
    ensures
        ({
            let c = chain_from(next, i);
            &&& c.len() > 0
            &&& c[0] == i
            &&& forall|q: int| 0 <= q < c.len() ==> i <= #[trigger] c[q] < next.len()
            &&& forall|q: int| 0 <= q < c.len() - 1 ==> next[#[trigger] c[q]] == Some(c[q + 1])
            &&& next[c.last()] is None
        }),
    decreases next.len() - i,
{
    match next[i] {
        Some(j) => {
            lemma_chain(next, j);
            let d = chain_from(next, j);
            let c = chain_from(next, i);
            assert forall|q: int| 0 <= q < c.len() implies i <= #[trigger] c[q] < next.len() by {
                if q > 0 {
                    assert(c[q] == d[q - 1]);
                }
            }
            assert forall|q: int| 0 <= q < c.len() - 1 implies next[#[trigger] c[q]] == Some(c[q + 1]) by {
                assert(c[q + 1] == d[q]);
                if q > 0 {
                    assert(c[q] == d[q - 1]);
                }
            }
            assert(c.last() == d.last());
        },
        None => {},
    }
}

/// The chain at some place of the list is that of a chunk that nothing comes before.
proof fn lemma_chains(next: Seq<Option<int>>, prev: Seq<Option<int>>, n: int)
    requires
        mirrored(next, prev),
        0 <= n <= next.len(),
    ensures
        ({
            let c = chains_of(next, prev, n);
            &&& forall|k: int| 0 <= k < c.len() ==> (#[trigger] c[k]).len() > 0 && 0 <= c[k][0] < n && prev[c[k][0]] is None && c[k] == chain_from(next, c[k][0])
            &&& forall|k: int, m: int| 0 <= k < m < c.len() ==> (#[trigger] c[k])[0] < (#[trigger] c[m])[0]
            &&& forall|x: int| 0 <= x < n && #[trigger] prev[x] is None ==> exists|k: int| 0 <= k < c.len() && (#[trigger] c[k])[0] == x
        }),
    decreases n,
{
    if n > 0 {
        lemma_chains(next, prev, n - 1);
        let b = chains_of(next, prev, n - 1);
        let c = chains_of(next, prev, n);
        lemma_chain(next, n - 1);
        assert forall|k: int| 0 <= k < c.len() implies (#[trigger] c[k]).len() > 0 && 0 <= c[k][0] < n && prev[c[k][0]] is None && c[k] == chain_from(
            next,
            c[k][0],
        ) by {
            if k < b.len() {
                assert(c[k] == b[k]);
            }
        }
        assert forall|k: int, m: int| 0 <= k < m < c.len() implies (#[trigger] c[k])[0] < (#[trigger] c[m])[0] by {
            assert(c[k] == b[k]);
            if m < b.len() {
                assert(c[m] == b[m]);
            }
        }
        assert forall|x: int| 0 <= x < n && #[trigger] prev[x] is None implies exists|k: int| 0 <= k < c.len() && (#[trigger] c[k])[0] == x by {
            if x < n - 1 {
                let k = choose|k: int| 0 <= k < b.len() && (#[trigger] b[k])[0] == x;
                assert(c[k] == b[k]);
            } else {
                assert(c[b.len() as int][0] == x);
            }
        }
    }
}

/// No chunk is lost: each is in one of the chains.
pub proof fn every_chunk_is_in_a_chain(next: Seq<Option<int>>, prev: Seq<Option<int>>, x: int)
    requires
        mirrored(next, prev),
        0 <= x < next.len(),
    ensures
        ({
            let c = chains_of(next, prev, next.len() as int);
            exists|k: int, q: int| 0 <= k < c.len() && 0 <= q < c[k].len() && #[trigger] c[k][q] == x
        }),
    decreases x,
{
    let n = next.len() as int;
    let c = chains_of(next, prev, n);
    lemma_chains(next, prev, n);
    match prev[x] {
        None => {
            let k = choose|k: int| 0 <= k < c.len() && (#[trigger] c[k])[0] == x;
            assert(c[k][0] == x);
        },
        Some(w) => {
            every_chunk_is_in_a_chain(next, prev, w);
            let (k, q) = choose|k: int, q: int| 0 <= k < c.len() && 0 <= q < c[k].len() && #[trigger] c[k][q] == w;
            lemma_chain(next, c[k][0]);
            assert(next[w] == Some(x));
            assert(q < c[k].len() - 1) by {
                if q == c[k].len() - 1 {
                    assert(c[k].last() == w);
                }
            }
            assert(next[c[k][q]] == Some(c[k][q + 1]));
            assert(c[k][q + 1] == x);
        },
    }
}

/// No chunk is used twice: it stands in one chain only, and there once.
pub proof fn no_chunk_is_used_twice(next: Seq<Option<int>>, prev: Seq<Option<int>>, k: int, q: int, m: int, r: int)
    requires
        mirrored(next, prev),
        ({
            let c = chains_of(next, prev, next.len() as int);
            &&& 0 <= k < c.len()
            &&& 0 <= m < c.len()
            &&& 0 <= q < c[k].len()
            &&& 0 <= r < c[m].len()
            &&& c[k][q] == c[m][r]
        }),
    ensures
        k == m,
        q == r,
    decreases q,
{
    let n = next.len() as int;
    let c = chains_of(next, prev, n);
    lemma_chains(next, prev, n);
    lemma_chain(next, c[k][0]);
    lemma_chain(next, c[m][0]);
    let x = c[k][q];
    if q > 0 {
        assert(next[c[k][q - 1]] == Some(c[k][q - 1 + 1]));
        assert(prev[x] == Some(c[k][q - 1]));
    }
    if r > 0 {
        assert(next[c[m][r - 1]] == Some(c[m][r - 1 + 1]));
        assert(prev[x] == Some(c[m][r - 1]));
    }
    if q == 0 {
        assert(prev[c[k][0]] is None);
        assert(r == 0);
        if k < m {
            assert(c[k][0] < c[m][0]);
        } else if m < k {
            assert(c[m][0] < c[k][0]);
        }
    } else {
        assert(r > 0) by {
            if r == 0 {
                assert(prev[c[m][0]] is None);
            }
        }
        no_chunk_is_used_twice(next, prev, k, q - 1, m, r - 1);
    }
}

/// Within a chain every chunk but the first follows the one before it.
pub proof fn chains_follow_joins(next: Seq<Option<int>>, prev: Seq<Option<int>>, k: int, q: int)
    requires
        mirrored(next, prev),
        0 <= k < chains_of(next, prev, next.len() as int).len(),
        0 < q < chains_of(next, prev, next.len() as int)[k].len(),
    ensures
        ({
            let c = chains_of(next, prev, next.len() as int)[k];
            next[c[q - 1]] == Some(c[q])
        }),
{
    let all = chains_of(next, prev, next.len() as int);
    lemma_chains(next, prev, next.len() as int);
    lemma_chain(next, all[k][0]);
    assert(next[all[k][q - 1]] == Some(all[k][q - 1 + 1]));
}

/// A chain is not empty and names chunks of the list.
pub proof fn chain_shape(next: Seq<Option<int>>, prev: Seq<Option<int>>, k: int)
    requires
        mirrored(next, prev),
        0 <= k < chains_of(next, prev, next.len() as int).len(),
    ensures
        ({
            let c = chains_of(next, prev, next.len() as int)[k];
            c.len() > 0 && (forall|q: int| 0 <= q < c.len() ==> 0 <= #[trigger] c[q] < next.len())
        }),
{
    let all = chains_of(next, prev, next.len() as int);
    lemma_chains(next, prev, next.len() as int);
    lemma_chain(next, all[k][0]);
}

/// The chosen join behind a successor.
pub proof fn join_behind(l: Seq<Link>, k: int, x: int) -> (i: int)
    requires
        0 <= k <= l.len(),
        next_in(l, taken(l, k), x) is Some,
    ensures
        0 <= i < k,
        l[i].a == x,
        Some(l[i].b as int) == next_in(l, taken(l, k), x),
{
    let t = taken(l, k);
    lemma_next_none(l, t, x);
    chosen_joins_do_not_compete(l, k);
    let q = choose|q: int| 0 <= q < t.len() && l[#[trigger] t[q]].a == x && l[t[q]].b == next_in(l, t, x)->Some_0;
    t[q]
}

// ------------------------------------------------------------------ choosing

/// A list of places or nothing as mathematical values.
pub open spec fn options_view(v: Seq<Option<usize>>) -> Seq<Option<int>> {
    v.map_values(
        |x: Option<usize>|
            match x {
                Some(i) => Some(i as int),
                None => None::<int>,
            },
    )
}

/// Which joins were chosen, and what follows and precedes each chunk.
#[derive(Debug)]
pub struct Joins {
    pub next: Vec<Option<usize>>,
    pub prev: Vec<Option<usize>>,
    pub chosen: Vec<usize>,
}

/// What follows each of `n` chunks by the joins `t`.
pub open spec fn nexts(l: Seq<Link>, t: Seq<int>, n: int) -> Seq<Option<int>> {
    Seq::new(n as nat, |x: int| next_in(l, t, x))
}

/// What precedes each of `n` chunks by the joins `t`.
pub open spec fn prevs(l: Seq<Link>, t: Seq<int>, n: int) -> Seq<Option<int>> {
    Seq::new(n as nat, |x: int| prev_in(l, t, x))
}

/// The chosen joins give successors and predecessors that match.
pub proof fn chosen_joins_are_mirrored(l: Seq<Link>, k: int, n: int)
    requires
        0 <= k <= l.len(),
        0 <= n,
        forward(l, n),
    ensures
        mirrored(nexts(l, taken(l, k), n), prevs(l, taken(l, k), n)),
{
    let t = taken(l, k);
    let next = nexts(l, t, n);
    let prev = prevs(l, t, n);
    chosen_joins_do_not_compete(l, k);
    assert forall|x: int| 0 <= x < next.len() implies (#[trigger] next[x] matches Some(y) ==> x < y < next.len()) by {
        lemma_next_none(l, t, x);
    }
    assert forall|y: int| 0 <= y < prev.len() implies (#[trigger] prev[y] matches Some(x) ==> 0 <= x < y) by {
        lemma_prev_none(l, t, y);
    }
    assert forall|x: int, y: int|
        #![trigger next[x], prev[y]]
        0 <= x < next.len() && 0 <= y < next.len() implies (next[x] == Some(y) <==> prev[y] == Some(x)) by {
        lemma_next_none(l, t, x);
        lemma_prev_none(l, t, y);
        if next[x] == Some(y) {
            let q = choose|q: int| 0 <= q < t.len() && l[#[trigger] t[q]].a == x && l[t[q]].b == y;
            assert(prev_in(l, t, y) is Some);
            let r = choose|r: int| 0 <= r < t.len() && l[#[trigger] t[r]].b == y && l[t[r]].a == prev_in(l, t, y)->Some_0;
            if q < r {
                assert(!compete(l[t[q]], l[t[r]]));
            } else if r < q {
                assert(!compete(l[t[r]], l[t[q]]));
            }
        }
        if prev[y] == Some(x) {
            let q = choose|q: int| 0 <= q < t.len() && l[#[trigger] t[q]].b == y && l[t[q]].a == x;
            assert(next_in(l, t, x) is Some);
            let r = choose|r: int| 0 <= r < t.len() && l[#[trigger] t[r]].a == x && l[t[r]].b == next_in(l, t, x)->Some_0;
            if q < r {
                assert(!compete(l[t[q]], l[t[r]]));
            } else if r < q {
                assert(!compete(l[t[r]], l[t[q]]));
            }
        }
    }
}

/// A list of `n` empty places.
fn nothing(n: usize) -> (r: Vec<Option<usize>>)
    ensures
        r.len() == n,
        forall|x: int| 0 <= x < n ==> #[trigger] r@[x] is None,
{
    let mut r: Vec<Option<usize>> = Vec::new();
    let mut i: usize = 0;
    while i < n
        invariant
            i <= n,
            r.len() == i,
            forall|x: int| 0 <= x < i ==> #[trigger] r@[x] is None,
        decreases n - i,
    {
        r.push(None);
        i = i + 1;
    }
    r
}

/// Takes the joins in the given order, each one whose chunks are still free.
pub fn choose_joins(l: &Vec<Link>, n: usize) -> (r: Joins)
    requires
        forward(l@, n as int),
    ensures
        indices(r.chosen@) == taken(l@, l.len() as int),
        options_view(r.next@) == nexts(l@, taken(l@, l.len() as int), n as int),
        options_view(r.prev@) == prevs(l@, taken(l@, l.len() as int), n as int),
{
    let mut next = nothing(n);
    let mut prev = nothing(n);
    let mut chosen: Vec<usize> = Vec::new();
    let mut i: usize = 0;
    assert(indices(chosen@) =~= taken(l@, 0));
    assert(options_view(next@) =~= nexts(l@, taken(l@, 0), n as int));
    assert(options_view(prev@) =~= prevs(l@, taken(l@, 0), n as int));
    while i < l.len()
        invariant
            i <= l.len(),
            forward(l@, n as int),
            next.len() == n,
            prev.len() == n,
            indices(chosen@) == taken(l@, i as int),
            options_view(next@) == nexts(l@, taken(l@, i as int), n as int),
            options_view(prev@) == prevs(l@, taken(l@, i as int), n as int),
        decreases l.len() - i,
    {
        let ghost t = taken(l@, i as int);
        let ghost u = taken(l@, i + 1);
        let ghost (c0, n0, p0) = (chosen@, next@, prev@);
        let a: usize = l[i].a;
        let b: usize = l[i].b;
        assert(options_view(next@)[a as int] == next_in(l@, t, a as int));
        assert(options_view(prev@)[b as int] == prev_in(l@, t, b as int));
        if next[a].is_none() && prev[b].is_none() {
            next.set(a, Some(b));
            prev.set(b, Some(a));
            chosen.push(i);
            proof {
                assert(u.drop_last() =~= t && u.last() == i);
                assert(indices(chosen@) =~= u);
                assert forall|x: int| 0 <= x < n implies options_view(next@)[x] == #[trigger] next_in(l@, u, x) by {
                    assert(options_view(n0)[x] == next_in(l@, t, x));
                }
                assert forall|x: int| 0 <= x < n implies options_view(prev@)[x] == #[trigger] prev_in(l@, u, x) by {
                    assert(options_view(p0)[x] == prev_in(l@, t, x));
                }
                assert(options_view(next@) =~= nexts(l@, u, n as int));
                assert(options_view(prev@) =~= prevs(l@, u, n as int));
            }
        }
        i = i + 1;
    }
    Joins { next, prev, chosen }
}

/// Whether join `c` was nearly beaten.
fn is_rivalled(l: &Vec<Link>, c: usize) -> (r: bool)
    requires
        c < l.len(),
    ensures
        r == rivalled(l@, c as int),
{
    let mut j: usize = 0;
    while j < l.len()
        invariant
            c < l.len(),
            j <= l.len(),
            forall|k: int| 0 <= k < j && k != c && compete(#[trigger] l@[k], l@[c as int]) ==> l@[k].score - l@[c as int].score >= AMBIGUITY_MARGIN,
        decreases l.len() - j,
    {
        if j != c && (l[j].a == l[c].a || l[j].b == l[c].b) {
            let near = if l[j].score < l[c].score {
                true
            } else {
                match l[c].score.checked_add(AMBIGUITY_MARGIN) {
                    Some(limit) => l[j].score < limit,
                    None => true,
                }
            };
            if near {
                assert(compete(l@[j as int], l@[c as int]));
                return true;
            }
        }
        j = j + 1;
    }
    false
}

/// Which of `n` chunks have a chosen join that was nearly beaten.
pub fn doubts(l: &Vec<Link>, chosen: &Vec<usize>, n: usize) -> (r: Vec<bool>)
    requires
        forward(l@, n as int),
        forall|q: int| 0 <= q < chosen.len() ==> #[trigger] chosen@[q] < l.len(),
    ensures
        r.len() == n,
        forall|x: int| 0 <= x < n ==> #[trigger] r@[x] == doubtful(l@, indices(chosen@), x),
{
    let ghost t = indices(chosen@);
    let mut r: Vec<bool> = Vec::new();
    let mut i: usize = 0;
    while i < n
        invariant
            i <= n,
            r.len() == i,
            forall|x: int| 0 <= x < i ==> !#[trigger] r@[x],
        decreases n - i,
    {
        r.push(false);
        i = i + 1;
    }
    let mut q: usize = 0;
    while q < chosen.len()
        invariant
            q <= chosen.len(),
            t == indices(chosen@),
            forward(l@, n as int),
            forall|k: int| 0 <= k < chosen.len() ==> #[trigger] chosen@[k] < l.len(),
            r.len() == n,
            forall|x: int|
                0 <= x < n ==> #[trigger] r@[x] == exists|k: int|
                    0 <= k < q && (l@[#[trigger] t[k]].a == x || l@[t[k]].b == x) && rivalled(l@, t[k]),
        decreases chosen.len() - q,
    {
        let c: usize = chosen[q];
        let ghost before = r@;
        assert(t[q as int] == c);
        if is_rivalled(l, c) {
            r.set(l[c].a, true);
            r.set(l[c].b, true);
        }
        proof {
            assert forall|x: int| 0 <= x < n implies #[trigger] r@[x] == exists|k: int|
                0 <= k < q + 1 && (l@[#[trigger] t[k]].a == x || l@[t[k]].b == x) && rivalled(l@, t[k]) by {
                let old_one = exists|k: int| 0 <= k < q && (l@[#[trigger] t[k]].a == x || l@[t[k]].b == x) && rivalled(l@, t[k]);
                assert(before[x] == old_one);
                if old_one {
                    let k = choose|k: int| 0 <= k < q && (l@[#[trigger] t[k]].a == x || l@[t[k]].b == x) && rivalled(l@, t[k]);
                    assert(0 <= k < q + 1 && (l@[t[k]].a == x || l@[t[k]].b == x) && rivalled(l@, t[k]));
                }
                if r@[x] && !old_one {
                    assert(l@[t[q as int]].a == x || l@[t[q as int]].b == x);
                }
            }
        }
        q = q + 1;
    }
    r
}

/// A list of lists of places as mathematical values.
pub open spec fn lists_view(v: Seq<Vec<usize>>) -> Seq<Seq<int>> {
    v.map_values(|x: Vec<usize>| indices(x@))
}

/// Follows the joins from every chunk that nothing comes before.
pub fn chains(j: &Joins) -> (r: Vec<Vec<usize>>)
    requires
        j.next.len() == j.prev.len(),
        ahead(options_view(j.next@)),
    ensures
        lists_view(r@) == chains_of(options_view(j.next@), options_view(j.prev@), j.next.len() as int),
{
    let ghost next = options_view(j.next@);
    let ghost prev = options_view(j.prev@);
    let mut out: Vec<Vec<usize>> = Vec::new();
    let mut i: usize = 0;
    assert(lists_view(out@) =~= Seq::<Seq<int>>::empty());
    while i < j.next.len()
        invariant
            i <= j.next.len() == j.prev.len(),
            next == options_view(j.next@),
            prev == options_view(j.prev@),
            ahead(next),
            lists_view(out@) == chains_of(next, prev, i as int),
        decreases j.next.len() - i,
    {
        assert(prev[i as int] is None == j.prev@[i as int] is None);
        if j.prev[i].is_none() {
            let ghost o = out@;
            let c = chain(j, i);
            out.push(c);
            assert(lists_view(out@) =~= lists_view(o).push(indices(c@)));
        }
        i = i + 1;
    }
    out
}

/// Chunk `i` and all that follow it.
fn chain(j: &Joins, i: usize) -> (r: Vec<usize>)
    requires
        ahead(options_view(j.next@)),
        i < j.next.len(),
    ensures
        indices(r@) == chain_from(options_view(j.next@), i as int),
{
    let ghost next = options_view(j.next@);
    let mut out: Vec<usize> = Vec::new();
    let mut cur: usize = i;
    out.push(i);
    assert(indices(out@) =~= seq![i as int]);
    proof {
        lemma_chain(next, i as int);
        assert(chain_from(next, i as int).skip(1) =~= chain_from(next, i as int).drop_first());
        lemma_chain_rest(next, i as int);
    }
    loop
        invariant
            next == options_view(j.next@),
            ahead(next),
            cur < j.next.len(),
            chain_from(next, i as int) == indices(out@) + chain_from(next, cur as int).skip(1),
        ensures
            indices(out@) == chain_from(next, i as int),
        decreases j.next.len() - cur,
    {
        assert(next[cur as int] == match j.next@[cur as int] {
            Some(x) => Some(x as int),
            None => None::<int>,
        });
        let ghost c = chain_from(next, cur as int);
        match j.next[cur] {
            Some(x) => {
                let ghost o = out@;
                out.push(x);
                proof {
                    lemma_chain(next, cur as int);
                    lemma_chain(next, x as int);
                    let d = chain_from(next, x as int);
                    assert(c.skip(1) =~= d);
                    assert(indices(out@) =~= indices(o).push(x as int));
                    assert(d =~= seq![x as int] + d.skip(1));
                    assert(indices(out@) + d.skip(1) =~= indices(o) + d);
                }
                cur = x;
            },
            None => {
                assert(c.skip(1) =~= Seq::<int>::empty());
                assert(indices(out@) + Seq::<int>::empty() =~= indices(out@));
                break;
            },
        }
    }
    out
}

/// A chain is its first chunk and the rest.
proof fn lemma_chain_rest(next: Seq<Option<int>>, i: int)
    requires
        ahead(next),
        0 <= i < next.len(),
    ensures
        chain_from(next, i) == seq![i] + chain_from(next, i).skip(1),
{
    lemma_chain(next, i);
    assert(chain_from(next, i) =~= seq![i] + chain_from(next, i).skip(1));
}

/// A chosen join puts its chunks one behind the other in a chain.
pub proof fn chosen_joins_are_in_chains(l: Seq<Link>, n: int, q: int)
    requires
        forward(l, n),
        0 <= n,
        0 <= q < taken(l, l.len() as int).len(),
    ensures
        ({
            let t = taken(l, l.len() as int);
            let c = chains_of(nexts(l, t, n), prevs(l, t, n), n);
            let x = l[t[q]];
            exists|k: int, m: int| 0 <= k < c.len() && 0 < m < c[k].len() && c[k][m - 1] == x.a && #[trigger] c[k][m] == x.b
        }),
{
    let k0 = l.len() as int;
    let t = taken(l, k0);
    let next = nexts(l, t, n);
    let prev = prevs(l, t, n);
    let c = chains_of(next, prev, n);
    chosen_joins_do_not_compete(l, k0);
    chosen_joins_are_mirrored(l, k0, n);
    let x = l[t[q]];
    assert(x.a < x.b < n);
    lemma_prev_none(l, t, x.b as int);
    let r = choose|r: int| 0 <= r < t.len() && l[#[trigger] t[r]].b == x.b && l[t[r]].a == prev_in(l, t, x.b as int)->Some_0;
    if q < r {
        assert(!compete(l[t[q]], l[t[r]]));
    } else if r < q {
        assert(!compete(l[t[r]], l[t[q]]));
    }
    assert(prev[x.b as int] == Some(x.a as int));
    every_chunk_is_in_a_chain(next, prev, x.b as int);
    let (k, m) = choose|k: int, m: int| 0 <= k < c.len() && 0 <= m < c[k].len() && #[trigger] c[k][m] == x.b;
    lemma_chains(next, prev, n);
    assert(m > 0) by {
        if m == 0 {
            assert(prev[c[k][0]] is None);
        }
    }
    chains_follow_joins(next, prev, k, m);
    chain_shape(next, prev, k);
    let w = c[k][m - 1];
    assert(next[w] == Some(x.b as int));
    assert(prev[x.b as int] == Some(w));
    assert(c[k][m] == x.b);
}

/// A chosen join is in doubt exactly if another one at either of its chunks was
/// worse by less than half a point.
pub proof fn close_calls_are_doubtful(l: Seq<Link>, c: int, j: int)
    requires
        0 <= j < l.len(),
        j != c,
        l[j].a == l[c].a || l[j].b == l[c].b,
        l[j].score < l[c].score + 500_000_000,
    ensures
        rivalled(l, c),
{
    assert(compete(l[j], l[c]));
}

/// Without a rival that close no join is in doubt.
pub proof fn clear_choices_are_not_doubtful(l: Seq<Link>, t: Seq<int>, x: int)
    requires
        forall|q: int, j: int|
            #![trigger t[q], l[j]]
            0 <= q < t.len() && 0 <= j < l.len() && j != t[q] && (l[j].a == l[t[q]].a || l[j].b == l[t[q]].b) ==> l[j].score >= l[t[q]].score + 500_000_000,
    ensures
        !doubtful(l, t, x),
{
    if doubtful(l, t, x) {
        let q = choose|q: int| 0 <= q < t.len() && (l[#[trigger] t[q]].a == x || l[t[q]].b == x) && rivalled(l, t[q]);
        let j = choose|j: int| 0 <= j < l.len() && j != t[q] && compete(#[trigger] l[j], l[t[q]]) && l[j].score - l[t[q]].score < AMBIGUITY_MARGIN;
        assert(l[j].score >= l[t[q]].score + 500_000_000);
    }
}

} // verus!
