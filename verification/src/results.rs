//! Results of mastering: whether a file is an earlier result, how much room
//! results need, how far all files are, and what came of each.

use vstd::prelude::*;

use crate::batch::{lemma_picked, picked, tells_refusal, wanted_views, Batch, Wanted, WantedView};
use crate::loudness::{capped, Loudness, Work};
use crate::master::AudioFile;
use crate::order::{arranged, in_order, orderly, sort, sorted_from, stands_before, Ranked};
use crate::outcome::{brief, carried_on, carried_through, ids_of, opt_text, promise, says, sorting_concludes, Brief, Status};
use crate::text::same;

verus! {

/// Bytes per second of a result.
pub const BYTES_PER_SECOND: u64 = 24_000;

/// Bytes of a result besides its audio.
pub const RESULT_EXTRA: u64 = 65_536;

/// Bytes that the result of so many frames needs at most.
pub open spec fn result_size(frames: int, rate: int) -> int {
    capped(frames * BYTES_PER_SECOND / rate + RESULT_EXTRA)
}

/// Bytes that the result of so many frames needs at most.
pub fn result_bytes(frames: u64, rate: u32) -> (r: u64)
    requires
        rate > 0,
    ensures
        r == result_size(frames as int, rate as int),
{
    let x: u128 = frames as u128 * 24_000 / rate as u128 + 65_536;
    if x > u64::MAX as u128 {
        u64::MAX
    } else {
        x as u64
    }
}

/// The distance of two numbers.
pub open spec fn apart(a: int, b: int) -> int {
    if a >= b {
        a - b
    } else {
        b - a
    }
}

/// Whether an MP3 file of `len` bytes is about as long as a source: to two
/// percent, or to one second for short ones. In parts of a second by the sample
/// rate and the bit rate.
pub open spec fn same_length(len: int, frames: int, rate: int) -> bool {
    apart(len * rate, frames * BYTES_PER_SECOND) <= (if frames * 480 > BYTES_PER_SECOND * rate {
        frames * 480
    } else {
        BYTES_PER_SECOND * rate
    })
}

/// A complete MP3 file is found again by a later run: one that holds all frames
/// of its source and no more than four blocks of 1152 beyond them, at the bit
/// rate of results, behind a tag of no more than 4096 bytes.
pub proof fn complete_results_are_found_again(len: int, tag: int, frames: int, rate: int)
    requires
        0 <= tag <= 4096,
        8000 <= rate,
        frames * BYTES_PER_SECOND <= (len - tag) * rate <= (frames + 4608) * BYTES_PER_SECOND,
    ensures
        same_length(len, frames, rate),
{
    assert(len * rate == (len - tag) * rate + tag * rate) by (nonlinear_arith);
    assert(0 <= tag * rate <= 4096 * rate) by (nonlinear_arith)
        requires
            0 <= tag <= 4096,
            0 <= rate,
    ;
}

/// Whether an MP3 file of `len` bytes is about as long as a source.
pub fn is_same_length(len: u64, frames: u64, rate: u32) -> (r: bool)
    ensures
        r == same_length(len as int, frames as int, rate as int),
{
    let l: u128 = len as u128;
    let q: u128 = rate as u128;
    assert(0 <= l * q <= 0x1_0000_0000_0000_0000_0000_0000) by (nonlinear_arith)
        requires
            0 <= l <= 0xFFFF_FFFF_FFFF_FFFF,
            0 <= q <= 0xFFFF_FFFF,
    ;
    let a: u128 = l * q;
    let b: u128 = frames as u128 * 24_000;
    let d: u128 = if a >= b {
        a - b
    } else {
        b - a
    };
    let x: u128 = frames as u128 * 480;
    let y: u128 = 24_000 * q;
    d <= if x > y {
        x
    } else {
        y
    }
}

// ------------------------------------------------------------------ progress

/// What is done of the first `n` files, as far as it can be counted.
pub open spec fn done_sum(v: Seq<Work>, n: int) -> int
    decreases n,
{
    if n <= 0 {
        0
    } else {
        capped(done_sum(v, n - 1) + v[n - 1].done)
    }
}

/// What there is of the first `n` files, as far as it can be counted.
pub open spec fn total_sum(v: Seq<Work>, n: int) -> int
    decreases n,
{
    if n <= 0 {
        0
    } else {
        capped(total_sum(v, n - 1) + v[n - 1].total)
    }
}

/// How far all files are, with so many of them finished: there is always
/// something, and all of it is done only when every file is finished.
pub fn overall(v: &Vec<Work>, finished: usize) -> (r: (u64, u64))
    ensures
        ({
            let d = done_sum(v@, v.len() as int);
            let t = total_sum(v@, v.len() as int);
            let most = if finished < v.len() {
                r.1 - 1
            } else {
                r.1 as int
            };
            &&& r.1 == (if t > 1 {
                t
            } else {
                1
            })
            &&& r.0 == (if d < most {
                d
            } else {
                most
            })
        }),
        finished < v.len() ==> r.0 < r.1,
        r.0 <= r.1,
{
    let mut done: u64 = 0;
    let mut total: u64 = 0;
    let mut i: usize = 0;
    while i < v.len()
        invariant
            i <= v.len(),
            done == done_sum(v@, i as int),
            total == total_sum(v@, i as int),
        decreases v.len() - i,
    {
        done = done.saturating_add(v[i].done);
        total = total.saturating_add(v[i].total);
        i = i + 1;
    }
    if total < 1 {
        total = 1;
    }
    let most: u64 = if finished < v.len() {
        total - 1
    } else {
        total
    };
    if done > most {
        done = most;
    }
    (done, total)
}

// ------------------------------------------------------------------ outcomes

/// What came of a file, where it is, and how loud it is.
#[derive(Debug)]
pub struct MasterOutcome {
    pub id: usize,
    pub status: Status,
    pub path: Option<String>,
    pub message: Option<String>,
    pub result: Option<Loudness>,
}

/// What came of all files.
#[derive(Debug)]
pub struct MasterSummary {
    pub out_dir: String,
    pub outcomes: Vec<MasterOutcome>,
    pub cancelled: bool,
}

/// Whether an outcome says this.
pub open spec fn tells(o: MasterOutcome, id: int, status: Status, path: Option<Seq<char>>, message: Option<Seq<char>>, result: Option<Loudness>) -> bool {
    o.id == id && o.status == status && opt_text(o.path) == path && opt_text(o.message) == message && o.result == result
}

impl Ranked for MasterOutcome {
    open spec fn below(self, other: Self) -> bool {
        self.id < other.id
    }

    fn is_below(&self, other: &Self) -> (r: bool) {
        self.id < other.id
    }
}

/// What is said of a file that cannot be mastered.
pub open spec fn refusal_of(f: AudioFile) -> Seq<char> {
    match opt_text(f.note) {
        Some(n) => n,
        None => "keine messbare Lautheit"@,
    }
}

/// What is wanted of a file: its result, or nothing where it has no gain.
pub open spec fn wanted_result(f: AudioFile, i: int) -> WantedView {
    WantedView {
        entry: i as usize,
        id: f.id,
        name: f.out_name@,
        bytes: result_size(f.frames as int, if f.sample_rate > 0 {
            f.sample_rate as int
        } else {
            1
        }) as u64,
        refusal: if f.gain is None {
            Some(refusal_of(f))
        } else {
            None
        },
    }
}

/// What is wanted of files.
pub fn wanted_results(files: &Vec<AudioFile>) -> (r: Vec<Wanted>)
    ensures
        r.len() == files.len(),
        forall|i: int| 0 <= i < r.len() ==> (#[trigger] r@[i])@ == wanted_result(files@[i], i),
{
    let mut r: Vec<Wanted> = Vec::new();
    let mut i: usize = 0;
    while i < files.len()
        invariant
            i <= files.len(),
            r.len() == i,
            forall|k: int| 0 <= k < r.len() ==> (#[trigger] r@[k])@ == wanted_result(files@[k], k),
        decreases files.len() - i,
    {
        let f = &files[i];
        let rate: u32 = if f.sample_rate > 0 {
            f.sample_rate
        } else {
            1
        };
        let refusal: Option<String> = if f.gain.is_some() {
            None
        } else {
            match &f.note {
                Some(n) => Some(n.as_str().to_string()),
                None => Some("keine messbare Lautheit".to_string()),
            }
        };
        r.push(Wanted { entry: i, id: f.id, name: f.out_name.as_str().to_string(), bytes: result_bytes(f.frames, rate), refusal });
        i = i + 1;
    }
    r
}

/// Whether an outcome is that of a file that was worked on: `end` is how loud the
/// result is or why there is none, and nothing if the work broke off.
pub open spec fn tells_end(o: MasterOutcome, id: int, path: Seq<char>, end: Option<Result<Loudness, String>>) -> bool {
    match end {
        Some(Ok(l)) => tells(o, id, Status::Written, Some(path), None, Some(l)),
        Some(Err(e)) => if e@ == "Abgebrochen."@ {
            tells(o, id, Status::Cancelled, None, None, None)
        } else {
            tells(o, id, Status::Failed, None, Some(e@), None)
        },
        None => tells(o, id, Status::Failed, None, Some("abgebrochen (interner Fehler)"@), None),
    }
}

/// What came of a file that was worked on.
pub fn ended(id: usize, path: &str, end: &Option<Result<Loudness, String>>) -> (r: MasterOutcome)
    ensures
        tells_end(r, id as int, path@, *end),
{
    match end {
        Some(Ok(l)) => MasterOutcome { id, status: Status::Written, path: Some(path.to_string()), message: None, result: Some(*l) },
        Some(Err(e)) => if same(e.as_str(), "Abgebrochen.") {
            MasterOutcome { id, status: Status::Cancelled, path: None, message: None, result: None }
        } else {
            MasterOutcome { id, status: Status::Failed, path: None, message: Some(e.as_str().to_string()), result: None }
        },
        None => MasterOutcome { id, status: Status::Failed, path: None, message: Some("abgebrochen (interner Fehler)".to_string()), result: None },
    }
}

/// Numbers, statuses and paths of outcomes.
pub open spec fn told(v: Seq<MasterOutcome>) -> Seq<Brief> {
    v.map_values(|o: MasterOutcome| Brief { id: o.id, status: o.status, path: opt_text(o.path) })
}

/// Whether these are the outcomes of a batch whose files were worked on: those
/// that it has already, and then those of its files.
pub open spec fn outcomes_of(batch: Batch, ends: Seq<Option<Result<Loudness, String>>>, v: Seq<MasterOutcome>) -> bool {
    let n = batch.outcomes@.len() as int;
    &&& v.len() == n + batch.jobs@.len()
    &&& forall|i: int|
        0 <= i < n ==> ({
            let o = batch.outcomes@[i];
            tells(#[trigger] v[i], o.id as int, o.status, opt_text(o.path), opt_text(o.message), None)
        })
    &&& forall|i: int|
        n <= i < v.len() ==> tells_end(#[trigger] v[i], batch.jobs@[i - n].id as int, batch.jobs@[i - n].path@, ends[i - n])
}

/// What came of all files, sorted by their numbers.
pub fn summary(out_dir: String, outcomes: Vec<MasterOutcome>, cancelled: bool) -> (r: MasterSummary)
    ensures
        r.out_dir@ == out_dir@,
        sorted_from(outcomes@, r.outcomes@),
        r.cancelled == cancelled,
{
    let mut v = outcomes;
    sort(&mut v);
    MasterSummary { out_dir, outcomes: v, cancelled }
}

/// A text or nothing, once more.
fn again(s: &Option<String>) -> (r: Option<String>)
    ensures
        opt_text(r) == opt_text(*s),
{
    match s {
        Some(t) => Some(t.as_str().to_string()),
        None => None,
    }
}

/// What came of a batch whose files were worked on, sorted by their numbers.
pub fn conclude(batch: &Batch, ends: &Vec<Option<Result<Loudness, String>>>, out_dir: String, cancelled: bool) -> (r: MasterSummary)
    requires
        batch.wf(),
        ends.len() == batch.jobs.len(),
    ensures
        r.out_dir@ == out_dir@,
        r.cancelled == cancelled,
        exists|v: Seq<MasterOutcome>| #[trigger] outcomes_of(*batch, ends@, v) && sorted_from(v, r.outcomes@),
        carried_through(batch.account(), told(r.outcomes@)),
        forall|k: int| 0 <= k < batch.at ==> tells_failure(r.outcomes@, (#[trigger] batch.wanted@[k])@),
{
    let mut v: Vec<MasterOutcome> = Vec::new();
    let mut i: usize = 0;
    while i < batch.outcomes.len()
        invariant
            i <= batch.outcomes.len(),
            v.len() == i,
            forall|k: int|
                0 <= k < i ==> ({
                    let o = batch.outcomes@[k];
                    tells(#[trigger] v@[k], o.id as int, o.status, opt_text(o.path), opt_text(o.message), None)
                }),
        decreases batch.outcomes.len() - i,
    {
        let o = &batch.outcomes[i];
        v.push(MasterOutcome { id: o.id, status: o.status, path: again(&o.path), message: again(&o.message), result: None });
        i = i + 1;
    }
    let ghost n = batch.outcomes@.len() as int;
    let mut i: usize = 0;
    while i < batch.jobs.len()
        invariant
            n == batch.outcomes@.len(),
            ends.len() == batch.jobs.len(),
            i <= batch.jobs.len(),
            v@.len() == n + i,
            forall|k: int|
                0 <= k < n ==> ({
                    let o = batch.outcomes@[k];
                    tells(#[trigger] v@[k], o.id as int, o.status, opt_text(o.path), opt_text(o.message), None)
                }),
            forall|k: int|
                n <= k < v@.len() ==> tells_end(#[trigger] v@[k], batch.jobs@[k - n].id as int, batch.jobs@[k - n].path@, ends@[k - n]),
        decreases batch.jobs.len() - i,
    {
        let j = &batch.jobs[i];
        v.push(ended(j.id, j.path.as_str(), &ends[i]));
        i = i + 1;
    }
    let ghost all = v@;
    let r = summary(out_dir, v, cancelled);
    proof {
        assert(outcomes_of(*batch, ends@, all));
        lemma_carried_through(*batch, ends@, all, r.outcomes@);
        assert forall|k: int| 0 <= k < batch.at implies tells_failure(r.outcomes@, (#[trigger] batch.wanted@[k])@) by {
            lemma_failure_is_told(*batch, ends@, all, r.outcomes@, k);
        }
    }
    r
}

/// Whether outcomes say that a file failed, if it cannot be mastered, and why.
pub open spec fn tells_failure(v: Seq<MasterOutcome>, w: WantedView) -> bool {
    w.refusal matches Some(m) ==> exists|i: int| 0 <= i < v.len() && tells(#[trigger] v[i], w.id as int, Status::Failed, None, Some(m), None)
}

/// Why a file cannot be mastered is told.
proof fn lemma_failure_is_told(batch: Batch, ends: Seq<Option<Result<Loudness, String>>>, v: Seq<MasterOutcome>, r: Seq<MasterOutcome>, k: int)
    requires
        batch.wf(),
        outcomes_of(batch, ends, v),
        sorted_from(v, r),
        0 <= k < batch.at,
    ensures
        tells_failure(r, batch.wanted@[k]@),
{
    let w = batch.wanted@[k]@;
    assert(wanted_views(batch.wanted@)[k] == w);
    assert(tells_refusal(batch.outcomes@, w));
    if let Some(m) = w.refusal {
        let i = choose|i: int| 0 <= i < batch.outcomes@.len() && says(#[trigger] batch.outcomes@[i], w.id as int, Status::Failed, None, Some(m));
        assert(tells(v[i], w.id as int, Status::Failed, None, Some(m), None));
        let p = choose|p: Seq<int>| #[trigger] arranged(v, r, p) && (orderly(v) ==> in_order(v, p));
        assert(p.contains(i));
        let j = choose|j: int| 0 <= j < p.len() && p[j] == i;
        assert(r[j] == v[i]);
    }
}

/// The outcomes of a batch carry on what it has.
proof fn lemma_carried_through(batch: Batch, ends: Seq<Option<Result<Loudness, String>>>, v: Seq<MasterOutcome>, r: Seq<MasterOutcome>)
    requires
        batch.wf(),
        ends.len() == batch.jobs@.len(),
        outcomes_of(batch, ends, v),
        sorted_from(v, r),
    ensures
        carried_through(batch.account(), told(r)),
{
    let a = batch.account();
    let b = told(v);
    let n = batch.outcomes@.len() as int;
    assert forall|i: int| 0 <= i < a.len() implies (#[trigger] b[i]).id == a[i].id && (b[i] == a[i] || (b[i].path is None && b[i].status
        != Status::Written && b[i].status != Status::Existing)) by {
        assert(b[i].id == v[i].id && b[i].status == v[i].status && b[i].path == opt_text(v[i].path));
        if i < n {
            assert(a[i] == brief(batch.outcomes@[i]));
        } else {
            assert(a[i] == promise(batch.jobs@[i - n]));
        }
    }
    assert(ids_of(b) =~= ids_of(a));
    assert forall|i: int| 0 <= i < b.len() implies ((#[trigger] b[i]).path is Some <==> (b[i].status == Status::Written || b[i].status
        == Status::Existing)) by {
        assert(a[i].path is Some <==> (a[i].status == Status::Written || a[i].status == Status::Existing));
    }
    assert forall|i: int, j: int| #![trigger b[i], b[j]] 0 <= i < j < b.len() && b[i].path is Some && b[j].path is Some implies b[i].path
        != b[j].path by {
        assert(b[i] == a[i] && b[j] == a[j]);
    }
    let p = choose|p: Seq<int>| #[trigger] arranged(v, r, p) && (orderly(v) ==> in_order(v, p));
    assert(arranged(b, told(r), p)) by {
        assert forall|i: int| 0 <= i < told(r).len() implies #[trigger] told(r)[i] == b[p[i]] by {
            assert(r[i] == v[p[i]]);
        }
    }
    assert forall|i: int, j: int| #![trigger told(r)[i], told(r)[j]] 0 <= i < j < told(r).len() implies told(r)[i].id <= told(r)[j].id by {
        assert(r[i] == v[p[i]] && r[j] == v[p[j]]);
        assert(stands_before(v, p[i], p[j]));
    }
    sorting_concludes(b, told(r), p);
    assert(carried_on(a, b));
}

/// A chosen file that has no gain fails, and its note says why.
pub proof fn files_without_gain_fail(files: Seq<AudioFile>, ids: Seq<usize>, batch: Batch, r: Seq<MasterOutcome>, i: int)
    requires
        wanted_views(batch.wanted@) == picked(Seq::new(files.len(), |k: int| wanted_result(files[k], k)), ids, files.len() as int),
        forall|k: int| 0 <= k < batch.wanted@.len() ==> tells_failure(r, (#[trigger] batch.wanted@[k])@),
        0 <= i < files.len(),
        ids.contains(files[i].id),
        files[i].gain is None,
    ensures
        exists|j: int| 0 <= j < r.len() && tells(#[trigger] r[j], files[i].id as int, Status::Failed, None, Some(refusal_of(files[i])), None),
{
    let all = Seq::new(files.len(), |k: int| wanted_result(files[k], k));
    lemma_picked(all, ids, files.len() as int, i);
    let w = wanted_views(batch.wanted@);
    let k = choose|k: int| 0 <= k < w.len() && w[k] == all[i];
    assert(w[k] == batch.wanted@[k]@);
    assert(tells_failure(r, batch.wanted@[k]@));
}

/// The order of outcomes never contradicts itself.
pub proof fn outcomes_are_orderly(v: Seq<MasterOutcome>)
    ensures
        orderly(v),
{
}

/// Room for a result is planned with 192 kbit per second of its source and 64
/// KiB on top, and longer sources get no less.
pub proof fn room_is_planned_by_the_second(secs: int, rate: int, frames: int, more: int)
    requires
        0 < rate,
        0 <= secs <= 1_000_000_000_000,
        0 <= frames <= more,
    ensures
        result_size(secs * rate, rate) == secs * 192_000 / 8 + 64 * 1024,
        result_size(frames, rate) <= result_size(more, rate),
{
    let n = secs * rate * BYTES_PER_SECOND;
    assert(n == rate * (secs * 24_000)) by (nonlinear_arith)
        requires
            n == secs * rate * 24_000,
    ;
    vstd::arithmetic::div_mod::lemma_div_multiples_vanish(secs * 24_000, rate);
    assert(n / rate == secs * 24_000);
    vstd::arithmetic::div_mod::lemma_div_is_ordered(frames * BYTES_PER_SECOND, more * BYTES_PER_SECOND, rate);
}

/// A result of so many seconds is as long as a source of up to 50 seconds if
/// they differ by no more than one second, and as long as a longer source if
/// they differ by no more than a fiftieth of it.
pub proof fn lengths_agree_to_a_second_or_two_percent(x: int, y: int, rate: int)
    requires
        0 < rate,
        0 <= x,
        0 <= y,
    ensures
        y <= 50 ==> (same_length(x * 24_000, y * rate, rate) <==> -1 <= x - y <= 1),
        y > 50 ==> (same_length(x * 24_000, y * rate, rate) <==> -y <= 50 * (x - y) <= y),
{
    let a = x * 24_000 * rate;
    let b = y * rate * BYTES_PER_SECOND;
    let c = y * rate * 480;
    let u = 24_000 * rate;
    assert(a == x * u && b == y * u && c * 50 == y * u) by (nonlinear_arith)
        requires
            a == x * 24_000 * rate,
            b == y * rate * 24_000,
            c == y * rate * 480,
            u == 24_000 * rate,
    ;
    assert((x - y) * u == a - b) by (nonlinear_arith)
        requires
            a == x * u,
            b == y * u,
    ;
    lemma_scaled(x - y, 1, u);
    lemma_scaled(-(x - y), 1, u);
    lemma_scaled(y, 50, u);
    lemma_scaled(50 * (x - y), y, u);
    lemma_scaled(-(50 * (x - y)), y, u);
    assert((50 * (x - y)) * u == 50 * (a - b) && (-(50 * (x - y))) * u == -(50 * (a - b)) && (-(x - y)) * u == -(a - b)) by (nonlinear_arith)
        requires
            (x - y) * u == a - b,
    ;
}

proof fn lemma_scaled(p: int, q: int, u: int)
    requires
        u > 0,
    ensures
        p <= q <==> p * u <= q * u,
{
    if p <= q {
        assert(p * u <= q * u) by (nonlinear_arith)
            requires
                u > 0,
                p <= q,
        ;
    } else {
        assert(p * u > q * u) by (nonlinear_arith)
            requires
                u > 0,
                p > q,
        ;
    }
}

/// As long as it can be counted, what is done of all files is what is done of
/// each, added up, and so is what there is of them.
pub proof fn work_adds_up(v: Seq<Work>, n: int)
    requires
        0 < n <= v.len(),
    ensures
        done_sum(v, n) == done_sum(v, n - 1) + v[n - 1].done || done_sum(v, n) == u64::MAX,
        total_sum(v, n) == total_sum(v, n - 1) + v[n - 1].total || total_sum(v, n) == u64::MAX,
        done_sum(v, n) <= u64::MAX && total_sum(v, n) <= u64::MAX,
        done_sum(v, 0) == 0 && total_sum(v, 0) == 0,
{
}

} // verus!
