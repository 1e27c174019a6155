//! Folders as lists of names, and where the results of a run go.

use vstd::prelude::*;

use crate::order::{arranged, in_order, orderly, sort, stands_before, Ranked};
use crate::text::{copy_texts, lex_less, lex_less_is_total_order, same, text_less, texts};

verus! {

/// A path: what it is rooted in (nothing for a relative one) and the names
/// below that.
#[derive(Debug, Clone)]
pub struct Place {
    pub root: String,
    pub parts: Vec<String>,
}

/// A path as mathematical values.
pub struct PlaceView {
    pub root: Seq<char>,
    pub parts: Seq<Seq<char>>,
}

impl View for Place {
    type V = PlaceView;

    open spec fn view(&self) -> PlaceView {
        PlaceView { root: self.root@, parts: texts(self.parts@) }
    }
}

impl PlaceView {
    /// The path of something inside this one.
    pub open spec fn child(self, name: Seq<char>) -> PlaceView {
        PlaceView { root: self.root, parts: self.parts.push(name) }
    }

    /// The path that this one lies in.
    pub open spec fn up(self) -> PlaceView {
        PlaceView { root: self.root, parts: self.parts.drop_last() }
    }

    /// Whether the last name of the path is this one.
    pub open spec fn is_named(self, name: Seq<char>) -> bool {
        self.parts.len() > 0 && self.parts.last() == name
    }
}

/// The paths of a list.
pub open spec fn places(v: Seq<Place>) -> Seq<PlaceView> {
    v.map_values(|p: Place| p@)
}

/// How many names two paths have in common from the start.
pub open spec fn common_len(a: Seq<Seq<char>>, b: Seq<Seq<char>>) -> nat
    decreases a.len(),
{
    if a.len() == 0 || b.len() == 0 || a[0] != b[0] {
        0
    } else {
        1 + common_len(a.drop_first(), b.drop_first())
    }
}

/// The names that all paths have in common from the start; none if they are
/// not rooted in the same place.
pub open spec fn shared(roots: Seq<PlaceView>) -> Seq<Seq<char>>
    decreases roots.len(),
{
    if roots.len() == 0 {
        Seq::empty()
    } else if roots.len() == 1 {
        roots[0].parts
    } else {
        let before = shared(roots.drop_last());
        if roots.last().root != roots[0].root {
            Seq::empty()
        } else {
            before.take(common_len(before, roots.last().parts) as int)
        }
    }
}

/// The folder that holds all of the given ones; the first one where they have
/// none in common.
pub open spec fn common_place(roots: Seq<PlaceView>) -> PlaceView {
    if shared(roots).len() == 0 {
        roots[0]
    } else {
        PlaceView { root: roots[0].root, parts: shared(roots) }
    }
}

/// Two paths have at most all their names in common, those are equal, and the
/// next ones differ.
proof fn lemma_common_len(a: Seq<Seq<char>>, b: Seq<Seq<char>>)
    ensures
        common_len(a, b) <= a.len(),
        common_len(a, b) <= b.len(),
        forall|i: int| 0 <= i < common_len(a, b) ==> a[i] == b[i],
        common_len(a, b) < a.len() && common_len(a, b) < b.len() ==> a[common_len(a, b) as int] != b[common_len(a, b) as int],
    decreases a.len(),
{
    if a.len() > 0 && b.len() > 0 && a[0] == b[0] {
        let x = a.drop_first();
        let y = b.drop_first();
        lemma_common_len(x, y);
        assert forall|i: int| 0 <= i < common_len(a, b) implies a[i] == b[i] by {
            if i > 0 {
                assert(a[i] == x[i - 1] && b[i] == y[i - 1]);
            }
        }
    }
}

/// The common names lead every path, if all are rooted in the same place.
pub proof fn shared_leads_all(roots: Seq<PlaceView>, k: int)
    requires
        0 <= k < roots.len(),
    ensures
        shared(roots).len() <= roots[k].parts.len(),
        shared(roots) == roots[k].parts.take(shared(roots).len() as int),
    decreases roots.len(),
{
    if roots.len() == 1 {
        assert(roots[0].parts.take(roots[0].parts.len() as int) =~= roots[0].parts);
    } else {
        let r = roots.drop_last();
        let before = shared(r);
        if roots.last().root != roots[0].root {
            assert(roots[k].parts.take(0) =~= Seq::<Seq<char>>::empty());
        } else {
            lemma_common_len(before, roots.last().parts);
            if k < r.len() {
                shared_leads_all(r, k);
                assert(shared(roots) =~= roots[k].parts.take(shared(roots).len() as int));
            } else {
                assert(shared(roots) =~= roots[k].parts.take(shared(roots).len() as int));
            }
        }
    }
}

/// No longer list of names leads every path.
pub proof fn shared_is_longest(roots: Seq<PlaceView>, n: nat)
    requires
        roots.len() > 0,
        forall|k: int| 0 <= k < roots.len() ==> (#[trigger] roots[k]).root == roots[0].root,
        forall|k: int| 0 <= k < roots.len() ==> n <= (#[trigger] roots[k]).parts.len() && roots[k].parts.take(n as int) == roots[0].parts.take(n as int),
    ensures
        n <= shared(roots).len(),
    decreases roots.len(),
{
    if roots.len() > 1 {
        let r = roots.drop_last();
        assert forall|k: int| 0 <= k < r.len() implies (#[trigger] r[k]).root == r[0].root && n <= r[k].parts.len() && r[k].parts.take(n as int)
            == r[0].parts.take(n as int) by {
            assert(r[k] == roots[k]);
        }
        shared_is_longest(r, n);
        shared_leads_all(r, 0);
        let before = shared(r);
        let last = roots.last();
        assert(roots[roots.len() - 1] == last);
        lemma_common_len(before, last.parts);
        let c = common_len(before, last.parts) as int;
        if c < n {
            assert(before[c] == roots[0].parts.take(before.len() as int)[c]);
            assert(roots[0].parts.take(n as int)[c] == last.parts.take(n as int)[c]);
        }
    }
}

impl Place {
    /// A copy of the path.
    pub fn copy(&self) -> (r: Place)
        ensures
            r@ == self@,
    {
        Place { root: self.root.clone(), parts: copy_texts(&self.parts) }
    }

    /// The path of something inside this one.
    pub fn child(&self, name: &str) -> (r: Place)
        ensures
            r@ == self@.child(name@),
    {
        let mut r = self.copy();
        let ghost before = texts(r.parts@);
        r.parts.push(name.to_string());
        assert(texts(r.parts@) =~= before.push(name@));
        r
    }

    /// The path that this one lies in.
    pub fn up(&self) -> (r: Place)
        requires
            self@.parts.len() > 0,
        ensures
            r@ == self@.up(),
    {
        let mut r = self.copy();
        let ghost before = texts(r.parts@);
        assert(before.len() == self@.parts.len());
        r.parts.pop();
        assert(texts(r.parts@) =~= before.drop_last());
        r
    }

    /// Whether the last name of the path is this one.
    pub fn is_named(&self, name: &str) -> (r: bool)
        ensures
            r == self@.is_named(name@),
    {
        let n: usize = self.parts.len();
        assert(n > 0 ==> self@.parts.last() == self.parts@[n - 1]@);
        n > 0 && same(self.parts[n - 1].as_str(), name)
    }

    /// Whether two paths are the same.
    pub fn is_same(&self, other: &Place) -> (r: bool)
        ensures
            r == (self@ == other@),
    {
        if !same(self.root.as_str(), other.root.as_str()) || self.parts.len() != other.parts.len() {
            assert(self@.parts.len() == self.parts.len());
            assert(other@.parts.len() == other.parts.len());
            return false;
        }
        let n: usize = lead(&self.parts, &other.parts);
        proof {
            lemma_common_len(self@.parts, other@.parts);
            if n == self.parts.len() {
                assert(self@.parts =~= other@.parts);
            }
        }
        n == self.parts.len()
    }
}

/// How many names two paths have in common from the start.
fn lead(a: &Vec<String>, b: &Vec<String>) -> (n: usize)
    ensures
        n == common_len(texts(a@), texts(b@)),
        n <= a.len(),
        n <= b.len(),
{
    let ghost x = texts(a@);
    let ghost y = texts(b@);
    let mut n: usize = 0;
    assert(x.skip(0) =~= x && y.skip(0) =~= y);
    while n < a.len() && n < b.len() && same(a[n].as_str(), b[n].as_str())
        invariant
            x == texts(a@),
            y == texts(b@),
            n <= a.len(),
            n <= b.len(),
            common_len(x, y) == n + common_len(x.skip(n as int), y.skip(n as int)),
        decreases a.len() - n,
    {
        assert(x.skip(n as int)[0] == a@[n as int]@ && y.skip(n as int)[0] == b@[n as int]@);
        assert(x.skip(n as int).drop_first() =~= x.skip(n + 1));
        assert(y.skip(n as int).drop_first() =~= y.skip(n + 1));
        n = n + 1;
    }
    proof {
        if n < a.len() && n < b.len() {
            assert(x.skip(n as int)[0] == a@[n as int]@ && y.skip(n as int)[0] == b@[n as int]@);
        }
    }
    n
}

/// The folder that holds all of the given ones; the first one where they have
/// none in common.
pub fn common_of(roots: &Vec<Place>) -> (r: Place)
    requires
        roots.len() > 0,
    ensures
        r@ == common_place(places(roots@)),
{
    let ghost all = places(roots@);
    let mut common = roots[0].copy();
    let mut i: usize = 1;
    assert(all.take(1).len() == 1 && all.take(1)[0] == roots@[0]@);
    while i < roots.len()
        invariant
            1 <= i <= roots.len(),
            all == places(roots@),
            common@.parts == shared(all.take(i as int)),
            common@.root == all[0].root,
        decreases roots.len() - i,
    {
        let ghost t = all.take(i + 1);
        assert(t.drop_last() =~= all.take(i as int));
        assert(t.last() == roots@[i as int]@ && t[0] == all[0]);
        let ghost before = common@.parts;
        let n: usize = if same(roots[i].root.as_str(), common.root.as_str()) {
            lead(&common.parts, &roots[i].parts)
        } else {
            0
        };
        common.parts.truncate(n);
        assert(common@.parts =~= before.take(n as int));
        assert(before.take(0) =~= Seq::<Seq<char>>::empty());
        i = i + 1;
    }
    assert(all.take(i as int) =~= all);
    if common.parts.len() == 0 {
        assert(common@.parts.len() == 0);
        return roots[0].copy();
    }
    assert(common@.parts.len() == common.parts.len());
    common
}

// ------------------------------------------------------------------ order

/// Whether a name comes before another: the way up before every other name, and
/// names by their letters.
pub open spec fn name_less(a: Seq<char>, b: Seq<char>) -> bool {
    if (a == ".."@) != (b == ".."@) {
        a == ".."@
    } else {
        lex_less(a, b)
    }
}

/// Whether names come before others: by the first that differs, and a path
/// before what lies in it.
pub open spec fn names_less(a: Seq<Seq<char>>, b: Seq<Seq<char>>) -> bool
    decreases a.len(),
{
    if b.len() == 0 {
        false
    } else if a.len() == 0 {
        true
    } else if a[0] != b[0] {
        name_less(a[0], b[0])
    } else {
        names_less(a.drop_first(), b.drop_first())
    }
}

/// Whether a path comes before another: rooted ones first, then by root, then by
/// names.
pub open spec fn place_less(a: PlaceView, b: PlaceView) -> bool {
    if (a.root.len() > 0) != (b.root.len() > 0) {
        a.root.len() > 0
    } else if a.root != b.root {
        lex_less(a.root, b.root)
    } else {
        names_less(a.parts, b.parts)
    }
}

/// The order of names is a strict total order.
proof fn lemma_names_order(a: Seq<Seq<char>>, b: Seq<Seq<char>>, c: Seq<Seq<char>>)
    ensures
        !names_less(a, a),
        a != b ==> names_less(a, b) || names_less(b, a),
        !(names_less(a, b) && names_less(b, a)),
        names_less(a, b) && names_less(b, c) ==> names_less(a, c),
    decreases a.len() + b.len() + c.len(),
{
    if a.len() > 0 {
        lemma_names_irreflexive(a);
    }
    if a.len() > 0 && b.len() > 0 {
        lex_less_is_total_order(a[0], b[0], a[0]);
        if c.len() > 0 {
            lex_less_is_total_order(a[0], b[0], c[0]);
            lemma_names_order(a.drop_first(), b.drop_first(), c.drop_first());
        } else {
            lemma_names_order(a.drop_first(), b.drop_first(), c);
        }
        if a[0] == b[0] && a.drop_first() == b.drop_first() {
            assert(a =~= seq![a[0]] + a.drop_first());
            assert(b =~= seq![b[0]] + b.drop_first());
        }
    } else if a.len() == 0 && b.len() == 0 {
        assert(a =~= b);
    }
}

/// No names come before themselves.
proof fn lemma_names_irreflexive(a: Seq<Seq<char>>)
    ensures
        !names_less(a, a),
    decreases a.len(),
{
    if a.len() > 0 {
        lemma_names_irreflexive(a.drop_first());
    }
}

/// The order of paths is a strict total order.
pub proof fn place_less_is_total_order(a: PlaceView, b: PlaceView, c: PlaceView)
    ensures
        !place_less(a, a),
        a != b ==> place_less(a, b) || place_less(b, a),
        !(place_less(a, b) && place_less(b, a)),
        place_less(a, b) && place_less(b, c) ==> place_less(a, c),
{
    lex_less_is_total_order(a.root, b.root, c.root);
    lemma_names_order(a.parts, b.parts, c.parts);
}

/// Whether names come before others.
fn parts_less(a: &Vec<String>, b: &Vec<String>) -> (r: bool)
    ensures
        r == names_less(texts(a@), texts(b@)),
{
    let ghost (u, v) = (texts(a@), texts(b@));
    let mut i: usize = 0;
    assert(u.skip(0) =~= u && v.skip(0) =~= v);
    while i < a.len() && i < b.len()
        invariant
            u == texts(a@),
            v == texts(b@),
            i <= u.len() == a.len(),
            i <= v.len() == b.len(),
            names_less(u, v) == names_less(u.skip(i as int), v.skip(i as int)),
        decreases a.len() - i,
    {
        let ghost (s, t) = (u.skip(i as int), v.skip(i as int));
        assert(s[0] == a@[i as int]@ && t[0] == b@[i as int]@);
        if !same(a[i].as_str(), b[i].as_str()) {
            let (x, y) = (same(a[i].as_str(), ".."), same(b[i].as_str(), ".."));
            return if x != y {
                x
            } else {
                text_less(a[i].as_str(), b[i].as_str())
            };
        }
        assert(s.drop_first() =~= u.skip(i + 1) && t.drop_first() =~= v.skip(i + 1));
        i = i + 1;
    }
    i < b.len()
}

/// A path of a list, and its place in it.
struct Spot {
    place: Place,
    at: usize,
}

impl Ranked for Spot {
    closed spec fn below(self, other: Spot) -> bool {
        place_less(self.place@, other.place@)
    }

    fn is_below(&self, other: &Spot) -> (r: bool) {
        let (a, b) = (&self.place, &other.place);
        assert(a.root@.len() == 0 <==> a.root@ =~= ""@) by {
            reveal_strlit("");
        }
        assert(b.root@.len() == 0 <==> b.root@ =~= ""@) by {
            reveal_strlit("");
        }
        let (x, y) = (!same(a.root.as_str(), ""), !same(b.root.as_str(), ""));
        if x != y {
            return x;
        }
        if !same(a.root.as_str(), b.root.as_str()) {
            return text_less(a.root.as_str(), b.root.as_str());
        }
        parts_less(&a.parts, &b.parts)
    }
}

/// Sorting paths never contradicts itself.
proof fn lemma_spots_orderly(v: Seq<Spot>)
    ensures
        orderly(v),
{
    assert forall|i: int, j: int| #![trigger v[i], v[j]] 0 <= i < v.len() && 0 <= j < v.len() && v[i].below(v[j]) implies !v[j].below(v[i]) by {
        place_less_is_total_order(v[i].place@, v[j].place@, v[i].place@);
    }
    assert forall|i: int, j: int, k: int|
        #![trigger v[i], v[j], v[k]]
        0 <= i < v.len() && 0 <= j < v.len() && 0 <= k < v.len() && v[i].below(v[k]) implies v[i].below(v[j]) || v[j].below(v[k]) by {
        let (a, b, c) = (v[i].place@, v[j].place@, v[k].place@);
        place_less_is_total_order(a, b, c);
        place_less_is_total_order(b, a, c);
        place_less_is_total_order(a, c, b);
        place_less_is_total_order(c, b, a);
        place_less_is_total_order(b, c, a);
        place_less_is_total_order(c, a, b);
    }
}

/// The places of a list of paths at which they stand in order, each path once.
pub fn in_sequence(v: &Vec<Place>) -> (r: Vec<usize>)
    ensures
        forall|k: int| 0 <= k < r.len() ==> #[trigger] r@[k] < v.len(),
        forall|j: int, k: int| 0 <= j < k < r.len() ==> place_less(v@[#[trigger] r@[j] as int]@, v@[#[trigger] r@[k] as int]@),
        forall|i: int| 0 <= i < v.len() ==> exists|k: int| 0 <= k < r.len() && v@[#[trigger] r@[k] as int]@ == (#[trigger] v@[i])@,
{
    let mut spots: Vec<Spot> = Vec::new();
    let mut i: usize = 0;
    while i < v.len()
        invariant
            i <= v.len(),
            spots.len() == i,
            forall|k: int| 0 <= k < i ==> (#[trigger] spots@[k]).at == k && spots@[k].place@ == v@[k]@,
        decreases v.len() - i,
    {
        spots.push(Spot { place: v[i].copy(), at: i });
        i = i + 1;
    }
    let ghost all = spots@;
    sort(&mut spots);
    let ghost q = choose|q: Seq<int>| #[trigger] arranged(all, spots@, q) && (orderly(all) ==> in_order(all, q));
    proof {
        lemma_spots_orderly(all);
        assert forall|k: int| 0 <= k < spots@.len() implies (#[trigger] spots@[k]).at < v.len() && spots@[k].place@ == v@[spots@[k].at as int]@ by {
            assert(spots@[k] == all[q[k]]);
        }
        assert forall|j: int, k: int| 0 <= j < k < spots@.len() implies !place_less((#[trigger] spots@[k]).place@, (#[trigger] spots@[j]).place@) by {
            assert(spots@[j] == all[q[j]] && spots@[k] == all[q[k]]);
            assert(stands_before(all, q[j], q[k]));
            place_less_is_total_order(spots@[j].place@, spots@[k].place@, spots@[j].place@);
        }
    }
    let mut r: Vec<usize> = Vec::new();
    let mut n: usize = 0;
    while n < spots.len()
        invariant
            n <= spots.len(),
            forall|k: int| 0 <= k < spots.len() ==> (#[trigger] spots@[k]).at < v.len() && spots@[k].place@ == v@[spots@[k].at as int]@,
            forall|j: int, k: int| 0 <= j < k < spots.len() ==> !place_less((#[trigger] spots@[k]).place@, (#[trigger] spots@[j]).place@),
            forall|k: int| 0 <= k < r.len() ==> #[trigger] r@[k] < v.len(),
            forall|j: int, k: int| 0 <= j < k < r.len() ==> place_less(v@[#[trigger] r@[j] as int]@, v@[#[trigger] r@[k] as int]@),
            n == 0 ==> r.len() == 0,
            n > 0 ==> r.len() > 0 && v@[r@[r.len() - 1] as int]@ == spots@[n - 1].place@,
            forall|i: int| 0 <= i < n ==> exists|k: int| 0 <= k < r.len() && v@[#[trigger] r@[k] as int]@ == (#[trigger] spots@[i]).place@,
        decreases spots.len() - n,
    {
        let ghost r0 = r@;
        if n == 0 || !spots[n].place.is_same(&spots[n - 1].place) {
            r.push(spots[n].at);
            proof {
                let last = r0.len() as int;
                assert(r@[last] == spots@[n as int].at);
                if n > 0 {
                    let (a, b) = (spots@[n - 1].place@, spots@[n as int].place@);
                    assert(!place_less(b, a));
                    place_less_is_total_order(a, b, a);
                    assert forall|j: int| 0 <= j < last implies place_less(v@[#[trigger] r@[j] as int]@, b) by {
                        if j < last - 1 {
                            assert(r@[j] == r0[j]);
                            place_less_is_total_order(v@[r0[j] as int]@, v@[r0[last - 1] as int]@, b);
                        } else {
                            assert(r@[j] == r0[last - 1]);
                        }
                    }
                }
                assert forall|j: int, k: int| 0 <= j < k < r@.len() implies place_less(v@[#[trigger] r@[j] as int]@, v@[#[trigger] r@[k] as int]@) by {
                    if k < last {
                        assert(r@[j] == r0[j] && r@[k] == r0[k]);
                    }
                }
                assert forall|i: int| 0 <= i <= n implies exists|k: int| 0 <= k < r@.len() && v@[#[trigger] r@[k] as int]@ == (#[trigger] spots@[i]).place@ by {
                    if i < n {
                        let k = choose|k: int| 0 <= k < r0.len() && v@[#[trigger] r0[k] as int]@ == spots@[i].place@;
                        assert(r@[k] == r0[k]);
                    } else {
                        assert(v@[r@[last] as int]@ == spots@[i].place@);
                    }
                }
            }
        }
        n = n + 1;
    }
    proof {
        assert forall|i: int| 0 <= i < v@.len() implies exists|k: int| 0 <= k < r@.len() && v@[#[trigger] r@[k] as int]@ == (#[trigger] v@[i])@ by {
            assert(q.contains(i));
            let m = choose|m: int| 0 <= m < q.len() && q[m] == i;
            assert(spots@[m] == all[q[m]]);
            assert(spots@[m].place@ == v@[i]@);
        }
    }
    r
}

/// One folder holds itself; of two folders in the same place that is the place,
/// unless it is where paths begin.
pub proof fn neighbours_share_their_folder(p: PlaceView, a: Seq<char>, b: Seq<char>)
    ensures
        common_place(seq![p]) == p,
        a != b && p.parts.len() > 0 ==> common_place(seq![p.child(a), p.child(b)]) == p,
        common_place(seq![p, p.child(a)]) == p,
        p.child(a).up() == p,
        p.child(a).is_named(b) <==> a == b,
{
    assert(p.child(a).parts.drop_last() =~= p.parts);
    assert(seq![p][0] == p);
    assert(shared(seq![p]) == p.parts);
    let v = seq![p.child(a), p.child(b)];
    assert(v.drop_last() =~= seq![p.child(a)]);
    assert(shared(v.drop_last()) == v.drop_last()[0].parts);
    lemma_common_ends(p.parts, a, b);
    assert(shared(v) == p.child(a).parts.take(common_len(p.child(a).parts, p.child(b).parts) as int));
    if a != b {
        assert(shared(v) =~= p.parts);
    }
    let w = seq![p, p.child(a)];
    assert(w.drop_last() =~= seq![p]);
    assert(shared(w.drop_last()) == w.drop_last()[0].parts);
    assert(shared(w) == p.parts.take(common_len(p.parts, p.child(a).parts) as int));
    assert(shared(w) =~= p.parts);
}

proof fn lemma_common_ends(s: Seq<Seq<char>>, a: Seq<char>, b: Seq<char>)
    ensures
        a != b ==> common_len(s.push(a), s.push(b)) == s.len(),
        common_len(s, s.push(a)) == s.len(),
    decreases s.len(),
{
    if s.len() > 0 {
        lemma_common_ends(s.drop_first(), a, b);
        assert(s.push(a).drop_first() =~= s.drop_first().push(a));
        assert(s.push(b).drop_first() =~= s.drop_first().push(b));
    }
}

} // verus!
