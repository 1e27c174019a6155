//! What a run is to do with each chosen entry of a plan: the chosen ones are
//! picked, each gets a name in the target folder, and is written, is there
//! already, or fails.

use vstd::prelude::*;

use crate::outcome::{first_free_number_is_next, brief, briefs, bytes_sum, carried_on, carried_through, concluded, distinct_paths, fits, ids_of, next_number, nth_name, opt_text, promise, promises, says, settle, total_bytes, trimmed, unwritten, Brief, Job, Occupant, Outcome, Run, Status, Target, NAME_TRIES};
use crate::items::has_text;
use crate::text::texts;

verus! {

// ------------------------------------------------------------------ the chosen entries

/// An entry of a plan: the file that is wanted of it, or why there can be none.
#[derive(Debug)]
pub struct Wanted {
    /// Which entry of the plan it is.
    pub entry: usize,
    pub id: usize,
    pub name: String,
    pub bytes: u64,
    pub refusal: Option<String>,
}

/// An entry of a plan as mathematical values.
pub struct WantedView {
    pub entry: usize,
    pub id: usize,
    pub name: Seq<char>,
    pub bytes: u64,
    pub refusal: Option<Seq<char>>,
}

impl View for Wanted {
    type V = WantedView;

    open spec fn view(&self) -> WantedView {
        WantedView { entry: self.entry, id: self.id, name: self.name@, bytes: self.bytes, refusal: opt_text(self.refusal) }
    }
}

/// The entries of a list.
pub open spec fn wanted_views(v: Seq<Wanted>) -> Seq<WantedView> {
    v.map_values(|w: Wanted| w@)
}

/// The numbers of entries.
pub open spec fn wanted_ids(v: Seq<WantedView>) -> Seq<usize> {
    v.map_values(|w: WantedView| w.id)
}

/// The entries among the first `n` whose numbers are chosen.
pub open spec fn picked(all: Seq<WantedView>, ids: Seq<usize>, n: int) -> Seq<WantedView>
    decreases n,
{
    if n <= 0 {
        Seq::empty()
    } else if ids.contains(all[n - 1].id) {
        picked(all, ids, n - 1).push(all[n - 1])
    } else {
        picked(all, ids, n - 1)
    }
}

/// Whether a number is in a list.
fn has_id(ids: &Vec<usize>, id: usize) -> (r: bool)
    ensures
        r == ids@.contains(id),
{
    let mut i: usize = 0;
    while i < ids.len()
        invariant
            i <= ids.len(),
            forall|k: int| 0 <= k < i ==> ids@[k] != id,
        decreases ids.len() - i,
    {
        if ids[i] == id {
            assert(ids@[i as int] == id);
            return true;
        }
        i = i + 1;
    }
    false
}

/// The entries whose numbers are chosen, in the order of the plan.
pub fn pick(all: Vec<Wanted>, ids: &Vec<usize>) -> (r: Vec<Wanted>)
    ensures
        wanted_views(r@) == picked(wanted_views(all@), ids@, all.len() as int),
{
    let ghost v = wanted_views(all@);
    let mut r: Vec<Wanted> = Vec::new();
    let mut i: usize = 0;
    assert(wanted_views(r@) =~= Seq::<WantedView>::empty());
    while i < all.len()
        invariant
            i <= all.len(),
            v == wanted_views(all@),
            wanted_views(r@) == picked(v, ids@, i as int),
        decreases all.len() - i,
    {
        let w = &all[i];
        let ghost r0 = r@;
        assert(v[i as int] == w@);
        if has_id(ids, w.id) {
            let refusal: Option<String> = match &w.refusal {
                Some(t) => Some(t.as_str().to_string()),
                None => None,
            };
            let x = Wanted { entry: w.entry, id: w.id, name: w.name.as_str().to_string(), bytes: w.bytes, refusal };
            r.push(x);
            assert(x@ == w@);
            assert(wanted_views(r@) =~= wanted_views(r0).push(x@));
        }
        i = i + 1;
    }
    r
}

/// An entry is picked exactly where its number is chosen, and numbers that stand
/// once in the plan are picked once.
pub proof fn chosen_entries_are_picked(all: Seq<WantedView>, ids: Seq<usize>, n: int)
    requires
        0 <= n <= all.len(),
    ensures
        forall|x: usize| #[trigger] wanted_ids(picked(all, ids, n)).contains(x) <==> (ids.contains(x) && wanted_ids(all.take(n)).contains(x)),
        wanted_ids(all.take(n)).no_duplicates() ==> wanted_ids(picked(all, ids, n)).no_duplicates(),
    decreases n,
{
    let p = wanted_ids(picked(all, ids, n));
    let a = wanted_ids(all.take(n));
    if n > 0 {
        chosen_entries_are_picked(all, ids, n - 1);
        let p0 = wanted_ids(picked(all, ids, n - 1));
        let a0 = wanted_ids(all.take(n - 1));
        let id = all[n - 1].id;
        assert(a =~= a0.push(id));
        lemma_push_contains(a0, id);
        if ids.contains(id) {
            assert(p =~= p0.push(id));
            lemma_push_contains(p0, id);
        }
        if a.no_duplicates() {
            assert forall|i: int, j: int| 0 <= i < a0.len() && 0 <= j < a0.len() && i != j implies a0[i] != a0[j] by {
                assert(a[i] != a[j]);
            }
            assert(!a0.contains(id)) by {
                if a0.contains(id) {
                    let k = choose|k: int| 0 <= k < a0.len() && a0[k] == id;
                    assert(a[k] != a[n - 1]);
                }
            }
        }
    }
}

/// Each entry whose number is chosen is picked.
pub proof fn lemma_picked(all: Seq<WantedView>, ids: Seq<usize>, n: int, i: int)
    requires
        0 <= i < n <= all.len(),
        ids.contains(all[i].id),
    ensures
        picked(all, ids, n).contains(all[i]),
    decreases n,
{
    let p = picked(all, ids, n);
    if i == n - 1 {
        assert(p[p.len() - 1] == all[i]);
    } else {
        lemma_picked(all, ids, n - 1, i);
        let q = picked(all, ids, n - 1);
        let k = choose|k: int| 0 <= k < q.len() && q[k] == all[i];
        assert(p[k] == all[i]);
    }
}

/// A list with one more number holds it and what it held.
proof fn lemma_push_contains(v: Seq<usize>, id: usize)
    ensures
        forall|x: usize| #[trigger] v.push(id).contains(x) <==> (v.contains(x) || x == id),
        v.no_duplicates() && !v.contains(id) ==> v.push(id).no_duplicates(),
{
    assert forall|x: usize| #[trigger] v.push(id).contains(x) <==> (v.contains(x) || x == id) by {
        if v.contains(x) {
            let k = choose|k: int| 0 <= k < v.len() && v[k] == x;
            assert(v.push(id)[k] == x);
        }
        assert(v.push(id)[v.len() as int] == id);
    }
}

// ------------------------------------------------------------------ a batch

/// The chosen entries of a plan while names are looked for.
#[derive(Debug)]
pub struct Batch {
    /// What stands before every name in a path of the target folder.
    pub dir: String,
    pub suffix: String,
    pub wanted: Vec<Wanted>,
    /// The entry at hand.
    pub at: usize,
    /// The next number to try for its name.
    pub n: u64,
    pub reserved: Vec<String>,
    pub jobs: Vec<Job>,
    pub outcomes: Vec<Outcome>,
}

/// Whether paths are made of reserved names.
pub open spec fn reserved_paths(dir: Seq<char>, reserved: Seq<Seq<char>>, b: Seq<Brief>) -> bool {
    forall|i: int| 0 <= i < b.len() ==> ((#[trigger] b[i]).path matches Some(p) ==> exists|k: int| 0 <= k < reserved.len() && p == dir + #[trigger] reserved[k])
}

/// Whether a file that is to be written is the one wanted of an entry.
pub open spec fn is_job_of(j: Job, w: WantedView) -> bool {
    j.entry == w.entry && j.id == w.id && j.bytes == w.bytes
}

/// Whether outcomes say that an entry failed, if it can have no file, and why.
pub open spec fn tells_refusal(v: Seq<Outcome>, w: WantedView) -> bool {
    w.refusal matches Some(m) ==> exists|i: int| 0 <= i < v.len() && says(#[trigger] v[i], w.id as int, Status::Failed, None, Some(m))
}

/// Whether the outcomes are those of the entries with these numbers, each once if
/// each number stands there once.
pub open spec fn is_of(b: Seq<Brief>, ids: Seq<usize>) -> bool {
    &&& b.len() == ids.len()
    &&& forall|x: usize| #[trigger] ids_of(b).contains(x) <==> ids.contains(x)
    &&& ids.no_duplicates() ==> ids_of(b).no_duplicates()
}

/// The name that an entry is offered next, from number `n` on, if there is one.
pub open spec fn next_name(w: WantedView, suffix: Seq<char>, reserved: Seq<Seq<char>>, n: int) -> Option<(int, Seq<char>)> {
    let stem = trimmed(w.name, suffix);
    let k = next_number(stem, suffix, reserved, n);
    if w.refusal is None && k < NAME_TRIES {
        Some((k, nth_name(stem, suffix, k)))
    } else {
        None
    }
}

/// What is said of an entry that gets no file.
pub open spec fn failure(w: WantedView) -> Seq<char> {
    match w.refusal {
        Some(t) => t,
        None => "kein freier Dateiname"@,
    }
}

impl Batch {
    /// The outcomes so far, and what comes of the files that are to be written.
    pub open spec fn account(self) -> Seq<Brief> {
        briefs(self.outcomes@) + promises(self.jobs@)
    }

    /// Whether each entry before the one at hand has its outcome or is to be
    /// written, a path is told exactly of files that are written or there, and no
    /// path twice. An entry that can have no file failed.
    pub open spec fn wf(self) -> bool {
        let w = wanted_views(self.wanted@);
        let b = self.account();
        &&& self.at <= w.len()
        &&& is_of(b, wanted_ids(w.take(self.at as int)))
        &&& fits(b)
        &&& distinct_paths(b)
        &&& reserved_paths(self.dir@, texts(self.reserved@), b)
        &&& forall|i: int| 0 <= i < self.jobs@.len() ==> exists|k: int| 0 <= k < self.at && is_job_of(#[trigger] self.jobs@[i], #[trigger] w[k])
        &&& forall|k: int| 0 <= k < self.at ==> tells_refusal(self.outcomes@, #[trigger] w[k])
    }

    /// Begins with the first entry.
    pub fn start(dir: String, suffix: &str, wanted: Vec<Wanted>) -> (r: Batch)
        ensures
            r.wf(),
            r.dir@ == dir@,
            r.suffix@ == suffix@,
            r.wanted@ == wanted@,
            r.at == 0,
            r.n == 1,
            r.reserved.len() == 0,
            r.jobs.len() == 0,
            r.outcomes.len() == 0,
    {
        let r = Batch { dir, suffix: suffix.to_string(), wanted, at: 0, n: 1, reserved: Vec::new(), jobs: Vec::new(), outcomes: Vec::new() };
        assert(r.account() =~= Seq::<Brief>::empty());
        assert(ids_of(r.account()) =~= wanted_ids(wanted_views(wanted@).take(0)));
        r
    }

    /// The next name for the entry at hand, to be looked at in the target folder.
    /// An entry that can have no file, or for which no name is left, fails, and
    /// the next entry is at hand.
    pub fn offer(&mut self) -> (r: Option<String>)
        requires
            old(self).wf(),
            old(self).at < old(self).wanted.len(),
        ensures
            final(self).wf(),
            final(self).dir@ == old(self).dir@,
            final(self).suffix@ == old(self).suffix@,
            final(self).wanted@ == old(self).wanted@,
            final(self).reserved@ == old(self).reserved@,
            final(self).jobs@ == old(self).jobs@,
            ({
                let w = old(self).wanted@[old(self).at as int];
                match next_name(w@, old(self).suffix@, texts(old(self).reserved@), old(self).n as int) {
                    Some((k, name)) => {
                        &&& opt_text(r) == Some(name)
                        &&& !texts(old(self).reserved@).contains(name)
                        &&& final(self).n == k + 1
                        &&& final(self).at == old(self).at
                        &&& final(self).outcomes@ == old(self).outcomes@
                    },
                    None => {
                        &&& r is None
                        &&& final(self).n == 1
                        &&& final(self).at == old(self).at + 1
                        &&& final(self).outcomes@.drop_last() == old(self).outcomes@
                        &&& final(self).outcomes@.len() > 0
                        &&& says(final(self).outcomes@.last(), w.id as int, Status::Failed, None, Some(failure(w@)))
                    },
                }
            }),
    {
        let ghost b = self.account();
        let w = &self.wanted[self.at];
        let id: usize = w.id;
        let o = match &w.refusal {
            Some(t) => Outcome { id, status: Status::Failed, path: None, message: Some(t.as_str().to_string()) },
            None => {
                let mut target = Target::new(w.name.as_str(), self.suffix.as_str());
                target.n = self.n;
                match target.offer(&self.reserved) {
                    Some(name) => {
                        self.n = target.n;
                        return Some(name);
                    },
                    None => unwritten(id, None),
                }
            },
        };
        let ghost before = self.outcomes@;
        self.outcomes.push(o);
        self.at = self.at + 1;
        self.n = 1;
        proof {
            assert(self.outcomes@.drop_last() =~= before);
            assert(briefs(self.outcomes@) =~= briefs(before).push(brief(o)));
            assert(self.account() =~= b.insert(before.len() as int, brief(o)));
            assert(self.outcomes@[before.len() as int] == o);
            lemma_entered(*old(self), *self, before.len() as int, brief(o));
        }
        None
    }

    /// Decides on a name for the entry at hand by what stands there: a free name
    /// is written to, the same file counts as done, and any other file is left
    /// alone. Says whether the name was decided on.
    pub fn settle(&mut self, name: &str, found: Occupant) -> (r: bool)
        requires
            old(self).wf(),
            old(self).at < old(self).wanted.len(),
            old(self).wanted@[old(self).at as int].refusal is None,
        ensures
            final(self).wf(),
            r == (found !is Other && !texts(old(self).reserved@).contains(name@)),
            final(self).dir@ == old(self).dir@,
            final(self).suffix@ == old(self).suffix@,
            final(self).wanted@ == old(self).wanted@,
            !r ==> *final(self) == *old(self),
            r ==> ({
                let w = old(self).wanted@[old(self).at as int];
                let path = old(self).dir@ + name@;
                &&& texts(final(self).reserved@) == texts(old(self).reserved@).push(name@)
                &&& final(self).at == old(self).at + 1
                &&& final(self).n == 1
                &&& if found is Free {
                    let j = final(self).jobs@.last();
                    &&& final(self).outcomes@ == old(self).outcomes@
                    &&& final(self).jobs@.len() > 0
                    &&& final(self).jobs@.drop_last() == old(self).jobs@
                    &&& is_job_of(j, w@)
                    &&& j.name@ == name@
                    &&& j.path@ == path
                } else {
                    &&& final(self).jobs@ == old(self).jobs@
                    &&& final(self).outcomes@.len() > 0
                    &&& final(self).outcomes@.drop_last() == old(self).outcomes@
                    &&& says(final(self).outcomes@.last(), w.id as int, Status::Existing, Some(path), None)
                }
            }),
    {
        if found == Occupant::Other || has_text(&self.reserved, name) {
            return false;
        }
        let ghost b = self.account();
        let ghost n = self.outcomes@.len() as int;
        let _ = settle(&mut self.reserved, name, found);
        let (entry, id, bytes) = (self.wanted[self.at].entry, self.wanted[self.at].id, self.wanted[self.at].bytes);
        let mut path = self.dir.as_str().to_string();
        path.append(name);
        self.at = self.at + 1;
        self.n = 1;
        if found == Occupant::Free {
            let ghost before = self.jobs@;
            let j = Job { entry, id, name: name.to_string(), path, bytes };
            self.jobs.push(j);
            proof {
                assert(self.jobs@.drop_last() =~= before);
                assert(promises(self.jobs@) =~= promises(before).push(promise(j)));
                assert(self.account() =~= b.insert(b.len() as int, promise(j)));
                lemma_entered(*old(self), *self, b.len() as int, promise(j));
            }
        } else {
            let ghost before = self.outcomes@;
            let o = unwritten(id, Some(path));
            self.outcomes.push(o);
            proof {
                assert(self.outcomes@.drop_last() =~= before);
                assert(briefs(self.outcomes@) =~= briefs(before).push(brief(o)));
                assert(self.account() =~= b.insert(n, brief(o)));
                lemma_entered(*old(self), *self, n, brief(o));
            }
        }
        true
    }

    /// The run over the files that are to be written, if their bytes can be
    /// counted.
    pub fn into_run(self) -> (r: Option<Run>)
        requires
            self.wf(),
        ensures
            match r {
                Some(run) => {
                    &&& run.wf()
                    &&& run.account() == self.account()
                    &&& run.jobs@ == self.jobs@
                    &&& run.outcomes@ == self.outcomes@
                    &&& run.known == self.outcomes@.len()
                    &&& run.total == bytes_sum(self.jobs@, self.jobs.len() as int)
                    &&& run.at == 0 && run.done == 0 && !run.cancelled
                },
                None => bytes_sum(self.jobs@, self.jobs.len() as int) > u64::MAX,
            },
    {
        let total = match total_bytes(&self.jobs) {
            Some(t) => t,
            None => {
                return None;
            },
        };
        proof {
            let b = briefs(self.outcomes@);
            assert forall|i: int| 0 <= i < b.len() implies ((#[trigger] b[i]).path is Some <==> (b[i].status == Status::Written || b[i].status
                == Status::Existing)) by {
                assert(self.account()[i] == b[i]);
            }
        }
        Some(Run::start(self.jobs, total, self.outcomes))
    }
}

/// Entering what comes of the entry at hand keeps the order of things.
proof fn lemma_entered(a: Batch, c: Batch, k: int, x: Brief)
    requires
        a.wf(),
        a.at < a.wanted@.len(),
        c.wanted@ == a.wanted@,
        c.dir@ == a.dir@,
        c.at == a.at + 1,
        0 <= k <= a.account().len(),
        c.account() == a.account().insert(k, x),
        x.id == a.wanted@[a.at as int].id,
        x.path is Some <==> (x.status == Status::Written || x.status == Status::Existing),
        match x.path {
            None => texts(c.reserved@) == texts(a.reserved@),
            Some(p) => exists|name: Seq<char>|
                !texts(a.reserved@).contains(name) && p == #[trigger] (a.dir@ + name) && texts(c.reserved@) == texts(a.reserved@).push(name),
        },
        c.jobs@ == a.jobs@ || (c.jobs@.len() == a.jobs@.len() + 1 && c.jobs@.drop_last() == a.jobs@ && is_job_of(
            c.jobs@.last(),
            a.wanted@[a.at as int]@,
        )),
        a.outcomes@.len() <= c.outcomes@.len(),
        forall|i: int| 0 <= i < a.outcomes@.len() ==> #[trigger] c.outcomes@[i] == a.outcomes@[i],
        tells_refusal(c.outcomes@, a.wanted@[a.at as int]@),
    ensures
        c.wf(),
{
    let w = wanted_views(a.wanted@);
    let (b, d) = (a.account(), c.account());
    let (r0, r1) = (texts(a.reserved@), texts(c.reserved@));
    let ids0 = wanted_ids(w.take(a.at as int));
    let ids1 = wanted_ids(w.take(c.at as int));
    assert(w[a.at as int] == a.wanted@[a.at as int]@);
    assert(ids1 =~= ids0.push(x.id));
    lemma_push_contains(ids0, x.id);
    assert forall|i: int| 0 <= i < d.len() implies d[i] == if i < k {
        b[i]
    } else if i == k {
        x
    } else {
        b[i - 1]
    } by {}
    // The numbers.
    assert forall|y: usize| #[trigger] ids_of(d).contains(y) <==> ids1.contains(y) by {
        if ids_of(d).contains(y) {
            let i = choose|i: int| 0 <= i < ids_of(d).len() && ids_of(d)[i] == y;
            if i < k {
                assert(ids_of(b)[i] == y);
                assert(ids_of(b).contains(y));
            } else if i > k {
                assert(ids_of(b)[i - 1] == y);
                assert(ids_of(b).contains(y));
            }
        }
        if ids0.contains(y) {
            assert(ids_of(b).contains(y));
            let i = choose|i: int| 0 <= i < ids_of(b).len() && ids_of(b)[i] == y;
            if i < k {
                assert(ids_of(d)[i] == y);
            } else {
                assert(ids_of(d)[i + 1] == y);
            }
        }
        if y == x.id {
            assert(ids_of(d)[k] == y);
        }
    }
    if ids1.no_duplicates() {
        assert forall|i: int, j: int| 0 <= i < ids0.len() && 0 <= j < ids0.len() && i != j implies ids0[i] != ids0[j] by {
            assert(ids1[i] != ids1[j]);
        }
        assert(!ids0.contains(x.id)) by {
            if ids0.contains(x.id) {
                let i = choose|i: int| 0 <= i < ids0.len() && ids0[i] == x.id;
                assert(ids1[i] != ids1[ids0.len() as int]);
            }
        }
        assert(!ids_of(b).contains(x.id));
        assert forall|i: int, j: int| 0 <= i < ids_of(d).len() && 0 <= j < ids_of(d).len() && i != j implies ids_of(d)[i] != ids_of(d)[j] by {
            let i0 = if i < k { i } else { i - 1 };
            let j0 = if j < k { j } else { j - 1 };
            if i == k {
                assert(ids_of(b)[j0] == d[j].id);
            } else if j == k {
                assert(ids_of(b)[i0] == d[i].id);
            } else {
                assert(ids_of(b)[i0] != ids_of(b)[j0]);
            }
        }
    }
    // The paths.
    assert forall|i: int| 0 <= i < d.len() implies ((#[trigger] d[i]).path is Some <==> (d[i].status == Status::Written || d[i].status
        == Status::Existing)) by {
        if i < k {
            assert(d[i] == b[i]);
        } else if i > k {
            assert(d[i] == b[i - 1]);
        }
    }
    lemma_paths_entered(a, c, k, x);
    assert forall|i: int| 0 <= i < c.jobs@.len() implies exists|m: int| 0 <= m < c.at && is_job_of(#[trigger] c.jobs@[i], #[trigger] w[m]) by {
        if i < a.jobs@.len() {
            assert(c.jobs@[i] == a.jobs@[i]);
            let m = choose|m: int| 0 <= m < a.at && is_job_of(a.jobs@[i], #[trigger] w[m]);
            assert(is_job_of(c.jobs@[i], w[m]));
        } else {
            assert(is_job_of(c.jobs@[i], w[a.at as int]));
        }
    }
    assert forall|m: int| 0 <= m < c.at implies tells_refusal(c.outcomes@, #[trigger] w[m]) by {
        if m < a.at && w[m].refusal is Some {
            assert(tells_refusal(a.outcomes@, w[m]));
            let t = w[m].refusal->0;
            let i = choose|i: int| 0 <= i < a.outcomes@.len() && says(#[trigger] a.outcomes@[i], w[m].id as int, Status::Failed, None, Some(t));
            assert(says(c.outcomes@[i], w[m].id as int, Status::Failed, None, Some(t)));
        }
    }
}

/// Entering an outcome keeps the paths apart.
proof fn lemma_paths_entered(a: Batch, c: Batch, k: int, x: Brief)
    requires
        a.wf(),
        c.dir@ == a.dir@,
        0 <= k <= a.account().len(),
        c.account() == a.account().insert(k, x),
        match x.path {
            None => texts(c.reserved@) == texts(a.reserved@),
            Some(p) => exists|name: Seq<char>|
                !texts(a.reserved@).contains(name) && p == #[trigger] (a.dir@ + name) && texts(c.reserved@) == texts(a.reserved@).push(name),
        },
    ensures
        distinct_paths(c.account()),
        reserved_paths(c.dir@, texts(c.reserved@), c.account()),
{
    let (b, d) = (a.account(), c.account());
    let (r0, r1) = (texts(a.reserved@), texts(c.reserved@));
    let dir = a.dir@;
    assert forall|i: int| 0 <= i < b.len() && b[i].path is Some && x.path is Some implies (#[trigger] b[i]).path != x.path by {
        let name = choose|name: Seq<char>| !r0.contains(name) && x.path->0 == #[trigger] (dir + name) && r1 == r0.push(name);
        let m = choose|m: int| 0 <= m < r0.len() && b[i].path->0 == dir + #[trigger] r0[m];
        if b[i].path == x.path {
            assert((dir + name).skip(dir.len() as int) =~= name);
            assert((dir + r0[m]).skip(dir.len() as int) =~= r0[m]);
            assert(r0.contains(name));
        }
    }
    assert forall|i: int, j: int| #![trigger d[i], d[j]] 0 <= i < j < d.len() && d[i].path is Some && d[j].path is Some implies d[i].path
        != d[j].path by {
        let i0 = if i < k { i } else { i - 1 };
        let j0 = if j < k { j } else { j - 1 };
        if i == k {
            assert(d[j] == b[j0]);
        } else if j == k {
            assert(d[i] == b[i0]);
        } else {
            assert(d[i] == b[i0] && d[j] == b[j0]);
        }
    }
    assert forall|i: int| 0 <= i < d.len() implies ((#[trigger] d[i]).path matches Some(p) ==> exists|m: int|
        0 <= m < r1.len() && p == dir + #[trigger] r1[m]) by {
        if d[i].path is Some {
            let p = d[i].path->0;
            if i == k {
                let name = choose|name: Seq<char>| !r0.contains(name) && x.path->0 == #[trigger] (dir + name) && r1 == r0.push(name);
                assert(r1[r0.len() as int] == name);
                assert(p == dir + r1[r0.len() as int]);
            } else {
                let i0 = if i < k { i } else { i - 1 };
                assert(d[i] == b[i0]);
                let m = choose|m: int| 0 <= m < r0.len() && b[i0].path->0 == dir + #[trigger] r0[m];
                assert(r1[m] == r0[m]);
                assert(p == dir + r1[m]);
            }
        }
    }
}

/// Every chosen entry of a plan has exactly one outcome, in the order of their
/// numbers, and no other entry has one. A path is told exactly of files that were
/// written or are there, and no path twice.
pub proof fn every_chosen_entry_has_one_outcome(all: Seq<WantedView>, ids: Seq<usize>, batch: Batch, r: Seq<Brief>)
    requires
        wanted_ids(all).no_duplicates(),
        batch.wf(),
        batch.at == batch.wanted@.len(),
        wanted_views(batch.wanted@) == picked(all, ids, all.len() as int),
        carried_through(batch.account(), r),
    ensures
        forall|x: usize| #[trigger] ids_of(r).contains(x) <==> (ids.contains(x) && wanted_ids(all).contains(x)),
        forall|i: int, j: int| #![trigger r[i], r[j]] 0 <= i < j < r.len() ==> r[i].id < r[j].id,
        fits(r),
        distinct_paths(r),
{
    let n = all.len() as int;
    let w = wanted_views(batch.wanted@);
    let b = choose|b: Seq<Brief>| #[trigger] carried_on(batch.account(), b) && fits(b) && concluded(b, r);
    assert(all.take(n) =~= all);
    assert(w.take(w.len() as int) =~= w);
    chosen_entries_are_picked(all, ids, n);
    assert forall|x: usize| #[trigger] ids_of(r).contains(x) <==> ids_of(b).contains(x) by {
        if ids_of(r).contains(x) {
            let i = choose|i: int| 0 <= i < ids_of(r).len() && ids_of(r)[i] == x;
            assert(r.contains(r[i]));
            let k = choose|k: int| 0 <= k < b.len() && b[k] == r[i];
            assert(ids_of(b)[k] == x);
        }
        if ids_of(b).contains(x) {
            let k = choose|k: int| 0 <= k < ids_of(b).len() && ids_of(b)[k] == x;
            assert(b.contains(b[k]));
            assert(r.contains(b[k]));
            let i = choose|i: int| 0 <= i < r.len() && r[i] == b[k];
            assert(ids_of(r)[i] == x);
        }
    }
}

/// An entry that can have no file is offered no name; any other is offered the
/// first that is not reserved: the name itself, or the name with a number.
pub proof fn entries_are_offered_the_first_free_name(w: WantedView, suffix: Seq<char>, reserved: Seq<Seq<char>>)
    ensures
        w.refusal is Some ==> next_name(w, suffix, reserved, 1) is None,
        w.refusal is None && !reserved.contains(trimmed(w.name, suffix) + suffix) ==> next_name(w, suffix, reserved, 1) == Some(
            (1int, trimmed(w.name, suffix) + suffix),
        ),
        next_name(w, suffix, reserved, 1) matches Some((k, name)) ==> !reserved.contains(name) && 1 <= k < 1000 && (k == 1 <==> !reserved.contains(
            trimmed(w.name, suffix) + suffix,
        )),
        next_name(w, suffix, reserved, 1) is None && w.refusal is None ==> forall|k: int|
            1 <= k < 1000 ==> reserved.contains(#[trigger] nth_name(trimmed(w.name, suffix), suffix, k)),
        w.refusal matches Some(m) ==> failure(w) == m,
{
    let stem = trimmed(w.name, suffix);
    first_free_number_is_next(stem, suffix, reserved, 1);
    assert(nth_name(stem, suffix, 1) == stem + suffix);
}

} // verus!
