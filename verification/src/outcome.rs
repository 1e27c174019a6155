//! Writing files: which name each gets in the target folder, whether there is
//! room, how a run over several files goes on, and what came of each.

use vstd::prelude::*;

use crate::items::has_text;
use crate::order::{arranged, in_order, orderly, sort, sorted_from, stands_before, Ranked};
use crate::text::{dec, ends_with, from_chars, has_suffix, push_dec, texts, to_chars};

verus! {

/// Names that are tried for a file before giving up, counted from one; this
/// number is not tried any more.
pub const NAME_TRIES: u64 = 1000;

/// Bytes that must stay free in the target folder.
pub const SPARE_BYTES: u64 = 67_108_864;

// ------------------------------------------------------------------ progress

/// A stage of an analysis.
#[derive(Debug, Clone, Copy, PartialEq, Eq, Structural)]
pub enum Stage {
    FindTracks,
    Envelope,
    Pairs,
    FindAudio,
    Measure,
}

/// How far an analysis is.
#[derive(Debug, Clone)]
pub struct SyncProgress {
    pub stage: &'static str,
    pub done: u64,
    pub total: u64,
    pub text: String,
}

impl Stage {
    /// The stage for the display.
    pub open spec fn name(self) -> Seq<char> {
        match self {
            Stage::FindTracks => "load"@,
            Stage::Envelope => "envelope"@,
            Stage::Pairs => "pairs"@,
            Stage::FindAudio => "load"@,
            Stage::Measure => "measure"@,
        }
    }

    /// The stage in words.
    pub open spec fn words(self) -> Seq<char> {
        match self {
            Stage::FindTracks => "Suche Tracks"@,
            Stage::Envelope => "Frequenzanalyse der Tracks"@,
            Stage::Pairs => "Suche gemeinsame Ereignisse"@,
            Stage::FindAudio => "Suche Audiodateien"@,
            Stage::Measure => "Lautheit messen (EBU R128)"@,
        }
    }

    /// How far an analysis is in this stage.
    pub fn progress(&self, done: u64, total: u64) -> (r: SyncProgress)
        ensures
            r.stage@ == self.name(),
            r.text@ == self.words(),
            r.done == done,
            r.total == total,
    {
        let (stage, text) = match *self {
            Stage::FindTracks => ("load", "Suche Tracks"),
            Stage::Envelope => ("envelope", "Frequenzanalyse der Tracks"),
            Stage::Pairs => ("pairs", "Suche gemeinsame Ereignisse"),
            Stage::FindAudio => ("load", "Suche Audiodateien"),
            Stage::Measure => ("measure", "Lautheit messen (EBU R128)"),
        };
        SyncProgress { stage, done, total, text: text.to_string() }
    }
}

// ------------------------------------------------------------------ names

/// A name without the suffix it ends with, however often.
pub open spec fn trimmed(name: Seq<char>, suffix: Seq<char>) -> Seq<char>
    decreases name.len(),
{
    if suffix.len() > 0 && has_suffix(name, suffix) {
        trimmed(name.take(name.len() - suffix.len()), suffix)
    } else {
        name
    }
}

/// A name without the suffix it ends with, however often.
pub fn trim_suffix(name: &str, suffix: &str) -> (r: String)
    ensures
        r@ == trimmed(name@, suffix@),
{
    let mut s = name.to_string();
    let p = to_chars(suffix);
    while p.len() > 0 && ends_with(s.as_str(), suffix)
        invariant
            p@ == suffix@,
            trimmed(s@, suffix@) == trimmed(name@, suffix@),
        decreases s@.len(),
    {
        let v = to_chars(s.as_str());
        s = from_chars(&v, 0, v.len() - p.len());
        assert(s@ =~= v@.take(v@.len() - p@.len()));
    }
    s
}

/// The `n`-th name of a file.
pub open spec fn nth_name(stem: Seq<char>, suffix: Seq<char>, n: int) -> Seq<char> {
    if n == 1 {
        stem + suffix
    } else {
        stem + "_"@ + dec(n as nat) + suffix
    }
}

/// The first number from `n` on whose name is not reserved; the limit if there
/// is none below it.
pub open spec fn next_number(stem: Seq<char>, suffix: Seq<char>, reserved: Seq<Seq<char>>, n: int) -> int
    decreases NAME_TRIES - n,
{
    if n >= NAME_TRIES {
        NAME_TRIES as int
    } else if reserved.contains(nth_name(stem, suffix, n)) {
        next_number(stem, suffix, reserved, n + 1)
    } else {
        n
    }
}

/// The search for a name in the target folder.
#[derive(Debug)]
pub struct Target {
    pub stem: String,
    pub suffix: String,
    /// The next number to try.
    pub n: u64,
}

/// What stands at a name in the target folder.
#[derive(Debug, Clone, Copy, PartialEq, Eq, Structural)]
pub enum Occupant {
    /// Nothing.
    Free,
    /// The same file from an earlier run.
    Same,
    /// Another file.
    Other,
}

impl Target {
    /// The search for a name like this one.
    pub fn new(name: &str, suffix: &str) -> (r: Target)
        ensures
            r.stem@ == trimmed(name@, suffix@),
            r.suffix@ == suffix@,
            r.n == 1,
    {
        Target { stem: trim_suffix(name, suffix), suffix: suffix.to_string(), n: 1 }
    }

    /// The next name that is not reserved, as long as there is one to try.
    pub fn offer(&mut self, reserved: &Vec<String>) -> (r: Option<String>)
        ensures
            final(self).stem@ == old(self).stem@,
            final(self).suffix@ == old(self).suffix@,
            ({
                let k = next_number(old(self).stem@, old(self).suffix@, texts(reserved@), old(self).n as int);
                if k < NAME_TRIES {
                    &&& r matches Some(s) && s@ == nth_name(old(self).stem@, old(self).suffix@, k)
                    &&& !texts(reserved@).contains(nth_name(old(self).stem@, old(self).suffix@, k))
                    &&& final(self).n == k + 1
                } else {
                    r is None
                }
            }),
    {
        let ghost k = next_number(self.stem@, self.suffix@, texts(reserved@), self.n as int);
        let ghost stem = self.stem@;
        let ghost suffix = self.suffix@;
        while self.n < NAME_TRIES
            invariant
                stem == self.stem@,
                suffix == self.suffix@,
                self.stem@ == old(self).stem@,
                self.suffix@ == old(self).suffix@,
                k == next_number(old(self).stem@, old(self).suffix@, texts(reserved@), old(self).n as int),
                k == next_number(stem, suffix, texts(reserved@), self.n as int),
            decreases NAME_TRIES - self.n + 1,
        {
            let mut s = self.stem.as_str().to_string();
            if self.n != 1 {
                s.append("_");
                push_dec(&mut s, self.n);
            }
            s.append(self.suffix.as_str());
            assert(s@ =~= nth_name(stem, suffix, self.n as int));
            let taken = has_text(reserved, s.as_str());
            self.n = self.n + 1;
            if !taken {
                return Some(s);
            }
        }
        None
    }
}

/// Decides on a name by what stands there: a free name is written to, the same
/// file counts as done, and any other file is left alone. A name that is
/// decided on is reserved.
pub fn settle(reserved: &mut Vec<String>, name: &str, found: Occupant) -> (r: Option<bool>)
    ensures
        r == match found {
            Occupant::Free => Some(false),
            Occupant::Same => Some(true),
            Occupant::Other => None,
        },
        texts(final(reserved)@) == if found is Other {
            texts(old(reserved)@)
        } else {
            texts(old(reserved)@).push(name@)
        },
        texts(old(reserved)@).no_duplicates() && !texts(old(reserved)@).contains(name@) ==> texts(final(reserved)@).no_duplicates(),
{
    match found {
        Occupant::Other => None,
        _ => {
            reserved.push(name.to_string());
            assert(texts(reserved@) =~= texts(old(reserved)@).push(name@));
            Some(found == Occupant::Same)
        },
    }
}

// ------------------------------------------------------------------ a second run

/// A file that is wanted: its name without the suffix, and the suffix.
pub struct WantedName {
    pub stem: Seq<char>,
    pub suffix: Seq<char>,
}

/// The name that is decided on for a file and whether the file is there already,
/// from number `n` on: the first name that is not reserved and at which no other
/// file stands. `at` says what stands at a name.
pub open spec fn decided(w: WantedName, reserved: Seq<Seq<char>>, at: spec_fn(Seq<char>) -> Occupant, n: int) -> Option<(Seq<char>, bool)>
    decreases NAME_TRIES - n,
{
    let k = next_number(w.stem, w.suffix, reserved, n);
    let name = nth_name(w.stem, w.suffix, k);
    if n >= NAME_TRIES || k < n || k >= NAME_TRIES {
        None
    } else {
        match at(name) {
            Occupant::Other => decided(w, reserved, at, k + 1),
            Occupant::Free => Some((name, false)),
            Occupant::Same => Some((name, true)),
        }
    }
}

/// The decision follows the offers: each offer takes the next number, and what
/// stands at its name settles the matter or leads to the next one.
pub proof fn decisions_follow_offers(w: WantedName, reserved: Seq<Seq<char>>, at: spec_fn(Seq<char>) -> Occupant, n: int)
    requires
        n < NAME_TRIES,
    ensures
        ({
            let k = next_number(w.stem, w.suffix, reserved, n);
            let name = nth_name(w.stem, w.suffix, k);
            decided(w, reserved, at, n) == if k < NAME_TRIES {
                match at(name) {
                    Occupant::Other => decided(w, reserved, at, k + 1),
                    Occupant::Free => Some((name, false)),
                    Occupant::Same => Some((name, true)),
                }
            } else {
                None
            }
        }),
{
    lemma_next_number(w.stem, w.suffix, reserved, n);
}

/// The names reserved after the first `m` files were decided on. `at` says what
/// stands at a name, as seen from a file.
pub open spec fn reserved_by(w: Seq<WantedName>, at: spec_fn(int, Seq<char>) -> Occupant, m: int) -> Seq<Seq<char>>
    decreases m,
{
    if m <= 0 {
        Seq::empty()
    } else {
        let before = reserved_by(w, at, m - 1);
        match decided(w[m - 1], before, |name: Seq<char>| at(m - 1, name), 1) {
            Some((name, _)) => before.push(name),
            None => before,
        }
    }
}

/// What a run decides on file `i`.
pub open spec fn verdict(w: Seq<WantedName>, at: spec_fn(int, Seq<char>) -> Occupant, i: int) -> Option<(Seq<char>, bool)> {
    decided(w[i], reserved_by(w, at, i), |name: Seq<char>| at(i, name), 1)
}

/// Whether a run writes to a name.
pub open spec fn is_written(w: Seq<WantedName>, at: spec_fn(int, Seq<char>) -> Occupant, name: Seq<char>) -> bool {
    exists|j: int| 0 <= j < w.len() && #[trigger] verdict(w, at, j) == Some((name, false))
}

/// A name that is decided on is not reserved, and no other file stands there.
proof fn lemma_decided(w: WantedName, reserved: Seq<Seq<char>>, at: spec_fn(Seq<char>) -> Occupant, n: int)
    ensures
        decided(w, reserved, at, n) matches Some((name, there)) ==> !reserved.contains(name) && at(name) == (if there {
            Occupant::Same
        } else {
            Occupant::Free
        }),
    decreases NAME_TRIES - n,
{
    let k = next_number(w.stem, w.suffix, reserved, n);
    lemma_next_number(w.stem, w.suffix, reserved, n);
    if n < NAME_TRIES && k < NAME_TRIES && at(nth_name(w.stem, w.suffix, k)) == Occupant::Other {
        lemma_decided(w, reserved, at, k + 1);
    }
}

/// The next number is no smaller, and its name is not reserved.
proof fn lemma_next_number(stem: Seq<char>, suffix: Seq<char>, reserved: Seq<Seq<char>>, n: int)
    ensures
        n < NAME_TRIES ==> n <= next_number(stem, suffix, reserved, n) <= NAME_TRIES,
        next_number(stem, suffix, reserved, n) < NAME_TRIES ==> !reserved.contains(nth_name(stem, suffix, next_number(stem, suffix, reserved, n))),
    decreases NAME_TRIES - n,
{
    if n < NAME_TRIES && reserved.contains(nth_name(stem, suffix, n)) {
        lemma_next_number(stem, suffix, reserved, n + 1);
    }
}

/// With the same names reserved, a file is decided on as before: where another
/// file stood one still stands, and what was decided on is there now.
proof fn lemma_decided_again(
    w: WantedName,
    reserved: Seq<Seq<char>>,
    before: spec_fn(Seq<char>) -> Occupant,
    after: spec_fn(Seq<char>) -> Occupant,
    n: int,
)
    requires
        forall|name: Seq<char>| !reserved.contains(name) && #[trigger] before(name) == Occupant::Other ==> after(name) == Occupant::Other,
        decided(w, reserved, before, n) matches Some((name, _)) ==> after(name) == Occupant::Same,
    ensures
        decided(w, reserved, after, n) == match decided(w, reserved, before, n) {
            Some((name, _)) => Some((name, true)),
            None => None,
        },
    decreases NAME_TRIES - n,
{
    let k = next_number(w.stem, w.suffix, reserved, n);
    let name = nth_name(w.stem, w.suffix, k);
    lemma_next_number(w.stem, w.suffix, reserved, n);
    if n < NAME_TRIES && k < NAME_TRIES && before(name) == Occupant::Other {
        lemma_decided_again(w, reserved, before, after, k + 1);
    }
}

/// A second run finds every file that the first one wrote or found, under the
/// same name, and so writes none. Between the runs only the first one touched
/// the folder: what it wrote counts as the file that it was written for, and all
/// else is as before. A name is free for every file or for none.
pub proof fn a_second_run_finds_all(
    w: Seq<WantedName>,
    before: spec_fn(int, Seq<char>) -> Occupant,
    after: spec_fn(int, Seq<char>) -> Occupant,
    i: int,
)
    requires
        0 <= i < w.len(),
        forall|j: int, k: int, name: Seq<char>|
            #![trigger before(j, name), before(k, name)]
            before(j, name) == Occupant::Free ==> before(k, name) == Occupant::Free,
        forall|j: int, name: Seq<char>| !is_written(w, before, name) ==> #[trigger] after(j, name) == before(j, name),
        forall|j: int|
            0 <= j < w.len() ==> (#[trigger] verdict(w, before, j) matches Some((name, there)) ==> !there ==> after(j, name) == Occupant::Same),
    ensures
        verdict(w, after, i) == match verdict(w, before, i) {
            Some((name, _)) => Some((name, true)),
            None => None,
        },
        reserved_by(w, after, i) == reserved_by(w, before, i),
    decreases i, 1int,
{
    lemma_reserved_again(w, before, after, i);
    let reserved = reserved_by(w, before, i);
    let one = |name: Seq<char>| before(i, name);
    let two = |name: Seq<char>| after(i, name);
    lemma_decided(w[i], reserved, one, 1);
    assert forall|name: Seq<char>| !reserved.contains(name) && #[trigger] one(name) == Occupant::Other implies two(name) == Occupant::Other by {
        if is_written(w, before, name) {
            let j = choose|j: int| 0 <= j < w.len() && #[trigger] verdict(w, before, j) == Some((name, false));
            lemma_decided(w[j], reserved_by(w, before, j), |x: Seq<char>| before(j, x), 1);
            assert(before(j, name) == Occupant::Free);
            assert(before(i, name) == Occupant::Free);
        }
        assert(after(i, name) == before(i, name));
    }
    if let Some((name, there)) = verdict(w, before, i) {
        if there {
            if is_written(w, before, name) {
                let j = choose|j: int| 0 <= j < w.len() && #[trigger] verdict(w, before, j) == Some((name, false));
                lemma_decided(w[j], reserved_by(w, before, j), |x: Seq<char>| before(j, x), 1);
                assert(before(j, name) == Occupant::Free);
                assert(before(i, name) == Occupant::Free);
            }
            assert(after(i, name) == before(i, name));
        }
        assert(two(name) == Occupant::Same);
    }
    lemma_decided_again(w[i], reserved, one, two, 1);
}

/// The second run reserves the same names.
proof fn lemma_reserved_again(
    w: Seq<WantedName>,
    before: spec_fn(int, Seq<char>) -> Occupant,
    after: spec_fn(int, Seq<char>) -> Occupant,
    m: int,
)
    requires
        0 <= m <= w.len(),
        forall|j: int, k: int, name: Seq<char>|
            #![trigger before(j, name), before(k, name)]
            before(j, name) == Occupant::Free ==> before(k, name) == Occupant::Free,
        forall|j: int, name: Seq<char>| !is_written(w, before, name) ==> #[trigger] after(j, name) == before(j, name),
        forall|j: int|
            0 <= j < w.len() ==> (#[trigger] verdict(w, before, j) matches Some((name, there)) ==> !there ==> after(j, name) == Occupant::Same),
    ensures
        reserved_by(w, after, m) == reserved_by(w, before, m),
    decreases m, 0int,
{
    if m > 0 {
        a_second_run_finds_all(w, before, after, m - 1);
        assert(verdict(w, before, m - 1) == decided(w[m - 1], reserved_by(w, before, m - 1), |name: Seq<char>| before(m - 1, name), 1));
        assert(verdict(w, after, m - 1) == decided(w[m - 1], reserved_by(w, after, m - 1), |name: Seq<char>| after(m - 1, name), 1));
    }
}

/// A WAV file that passed the check after writing counts as the same file in a
/// later run.
pub proof fn written_wavs_are_found_again(len: int, repaired: bool, bytes: int)
    requires
        as_planned(len, repaired, bytes),
    ensures
        same_wav(len, Some(repaired), bytes),
{
}

// ------------------------------------------------------------------ room

/// Whether a file of `len` bytes counts as the same WAV file of `bytes` bytes
/// from an earlier run: by its size, if its header was read and is in order.
pub open spec fn same_wav(len: int, repaired: Option<bool>, bytes: int) -> bool {
    len == bytes && repaired == Some(false)
}

/// Whether a file that was written is as planned.
pub open spec fn as_planned(len: int, repaired: bool, bytes: int) -> bool {
    !repaired && len == bytes
}

/// Whether a file of `len` bytes counts as the same WAV file of `bytes` bytes
/// from an earlier run. `repaired` tells whether its header had to be repaired,
/// and is nothing where it could not be read.
pub fn is_same_wav(len: u64, repaired: Option<bool>, bytes: u64) -> (r: bool)
    ensures
        r == same_wav(len as int, repaired, bytes as int),
{
    match repaired {
        Some(x) => len == bytes && !x,
        None => false,
    }
}

/// Checks a file that was written, by its size and whether its header had to be
/// repaired: it is as planned, or it failed.
pub fn check_written(len: u64, repaired: bool, bytes: u64) -> (r: Result<(), String>)
    ensures
        match r {
            Ok(_) => as_planned(len as int, repaired, bytes as int),
            Err(e) => !as_planned(len as int, repaired, bytes as int) && e@ == "Kontrolle der geschriebenen Datei fehlgeschlagen"@,
        },
{
    if repaired || len != bytes {
        return Err("Kontrolle der geschriebenen Datei fehlgeschlagen".to_string());
    }
    Ok(())
}

/// Whether the target folder lacks room for files of `need` bytes.
pub fn lacks_room(wanted: bool, need: u64, free: u64) -> (r: bool)
    ensures
        r == (wanted && free < need + SPARE_BYTES),
        wanted ==> (r <==> free - need < 64 * 1024 * 1024),
        !wanted ==> !r,
{
    wanted && (free as u128) < need as u128 + SPARE_BYTES as u128
}

/// What is said when the target folder lacks room.
pub fn room_message(need: &str, free: &str) -> (r: String)
    ensures
        r@ == "Zu wenig Speicherplatz im Zielordner: benötigt "@ + need@ + ", frei "@ + free@ + "."@,
{
    let mut s = "Zu wenig Speicherplatz im Zielordner: benötigt ".to_string();
    s.append(need);
    s.append(", frei ");
    s.append(free);
    s.append(".");
    s
}

// ------------------------------------------------------------------ outcomes

/// What came of a file.
#[derive(Debug, Clone, Copy, PartialEq, Eq, Structural)]
pub enum Status {
    Written,
    Existing,
    Failed,
    Cancelled,
}

/// What came of a file, and where it is.
#[derive(Debug, Clone)]
pub struct Outcome {
    pub id: usize,
    pub status: Status,
    pub path: Option<String>,
    pub message: Option<String>,
}

/// A text or nothing.
pub open spec fn opt_text(s: Option<String>) -> Option<Seq<char>> {
    match s {
        Some(t) => Some(t@),
        None => None,
    }
}

/// Whether an outcome says this.
pub open spec fn says(o: Outcome, id: int, status: Status, path: Option<Seq<char>>, message: Option<Seq<char>>) -> bool {
    o.id == id && o.status == status && opt_text(o.path) == path && opt_text(o.message) == message
}

/// Number, status and path of an outcome.
pub struct Brief {
    pub id: usize,
    pub status: Status,
    pub path: Option<Seq<char>>,
}

/// Number, status and path of an outcome.
pub open spec fn brief(o: Outcome) -> Brief {
    Brief { id: o.id, status: o.status, path: opt_text(o.path) }
}

/// Numbers, statuses and paths of outcomes.
pub open spec fn briefs(v: Seq<Outcome>) -> Seq<Brief> {
    v.map_values(|o: Outcome| brief(o))
}

/// The numbers of outcomes.
pub open spec fn ids_of(b: Seq<Brief>) -> Seq<usize> {
    b.map_values(|x: Brief| x.id)
}

/// Whether a path is told exactly of files that were written or are there.
pub open spec fn fits(b: Seq<Brief>) -> bool {
    forall|i: int| 0 <= i < b.len() ==> ((#[trigger] b[i]).path is Some <==> (b[i].status == Status::Written || b[i].status == Status::Existing))
}

/// Whether no two outcomes tell the same path.
pub open spec fn distinct_paths(b: Seq<Brief>) -> bool {
    forall|i: int, j: int| #![trigger b[i], b[j]] 0 <= i < j < b.len() && b[i].path is Some && b[j].path is Some ==> b[i].path != b[j].path
}

/// Whether the outcomes `r` are the outcomes `b` by their numbers: the same
/// numbers, in ascending order, each once if each was there once, and as much
/// told of paths.
pub open spec fn concluded(b: Seq<Brief>, r: Seq<Brief>) -> bool {
    &&& r.len() == b.len()
    &&& forall|x: Brief| #[trigger] r.contains(x) <==> b.contains(x)
    &&& forall|i: int, j: int| #![trigger r[i], r[j]] 0 <= i < j < r.len() ==> r[i].id <= r[j].id
    &&& ids_of(b).no_duplicates() ==> forall|i: int, j: int| #![trigger r[i], r[j]] 0 <= i < j < r.len() ==> r[i].id < r[j].id
    &&& fits(b) ==> fits(r)
    &&& distinct_paths(b) ==> distinct_paths(r)
}

/// Sorting outcomes by their numbers concludes them.
pub proof fn sorting_concludes(b: Seq<Brief>, r: Seq<Brief>, q: Seq<int>)
    requires
        arranged(b, r, q),
        forall|i: int, j: int| #![trigger r[i], r[j]] 0 <= i < j < r.len() ==> r[i].id <= r[j].id,
    ensures
        concluded(b, r),
{
    assert forall|x: Brief| #[trigger] r.contains(x) <==> b.contains(x) by {
        if r.contains(x) {
            let i = choose|i: int| 0 <= i < r.len() && r[i] == x;
            assert(b[q[i]] == x);
        }
        if b.contains(x) {
            let k = choose|k: int| 0 <= k < b.len() && b[k] == x;
            assert(q.contains(k));
            let i = choose|i: int| 0 <= i < q.len() && q[i] == k;
            assert(r[i] == x);
        }
    }
    if ids_of(b).no_duplicates() {
        assert forall|i: int, j: int| #![trigger r[i], r[j]] 0 <= i < j < r.len() implies r[i].id < r[j].id by {
            assert(r[i] == b[q[i]] && r[j] == b[q[j]] && q[i] != q[j]);
            assert(ids_of(b)[q[i]] == r[i].id && ids_of(b)[q[j]] == r[j].id);
        }
    }
    if fits(b) {
        assert forall|i: int| 0 <= i < r.len() implies ((#[trigger] r[i]).path is Some <==> (r[i].status == Status::Written || r[i].status
            == Status::Existing)) by {
            assert(r[i] == b[q[i]]);
        }
    }
    if distinct_paths(b) {
        assert forall|i: int, j: int| #![trigger r[i], r[j]] 0 <= i < j < r.len() && r[i].path is Some && r[j].path is Some implies r[i].path
            != r[j].path by {
            assert(r[i] == b[q[i]] && r[j] == b[q[j]] && q[i] != q[j]);
        }
    }
}

impl Ranked for Outcome {
    open spec fn below(self, other: Self) -> bool {
        self.id < other.id
    }

    fn is_below(&self, other: &Self) -> (r: bool) {
        self.id < other.id
    }
}

/// What came of a file whose name was settled without writing: it is there
/// already, or no name was free.
pub fn unwritten(id: usize, existing: Option<String>) -> (r: Outcome)
    ensures
        match opt_text(existing) {
            Some(p) => says(r, id as int, Status::Existing, Some(p), None),
            None => says(r, id as int, Status::Failed, None, Some("kein freier Dateiname"@)),
        },
{
    match existing {
        Some(p) => Outcome { id, status: Status::Existing, path: Some(p), message: None },
        None => Outcome { id, status: Status::Failed, path: None, message: Some("kein freier Dateiname".to_string()) },
    }
}

// ------------------------------------------------------------------ a run

/// A file to write.
#[derive(Debug)]
pub struct Job {
    /// Which entry of a plan it is for.
    pub entry: usize,
    pub id: usize,
    pub name: String,
    pub path: String,
    pub bytes: u64,
}

/// What comes of a file that is written.
pub open spec fn promise(j: Job) -> Brief {
    Brief { id: j.id, status: Status::Written, path: Some(j.path@) }
}

/// What comes of files that are written.
pub open spec fn promises(v: Seq<Job>) -> Seq<Brief> {
    v.map_values(|j: Job| promise(j))
}

/// How writing one file ended.
#[derive(Debug)]
pub enum Written {
    Done,
    Cancelled,
    Failed { text: String },
}

/// How far a run is.
#[derive(Debug, Clone)]
pub struct Progress {
    pub index: usize,
    pub count: usize,
    pub id: usize,
    pub name: String,
    pub done: u64,
    pub total: u64,
    pub milestone: bool,
}

/// A run over several files.
#[derive(Debug)]
pub struct Run {
    pub jobs: Vec<Job>,
    /// The file that is next.
    pub at: usize,
    pub done: u64,
    pub total: u64,
    pub cancelled: bool,
    pub outcomes: Vec<Outcome>,
    /// How many outcomes were known before.
    pub known: usize,
}

/// Bytes of the first `n` files.
pub open spec fn bytes_sum(v: Seq<Job>, n: int) -> int
    decreases n,
{
    if n <= 0 {
        0
    } else {
        bytes_sum(v, n - 1) + v[n - 1].bytes
    }
}

/// Bytes of more files are no fewer.
proof fn lemma_bytes_grow(v: Seq<Job>, m: int, n: int)
    requires
        0 <= m <= n <= v.len(),
    ensures
        0 <= bytes_sum(v, m) <= bytes_sum(v, n),
    decreases n,
{
    if m < n {
        lemma_bytes_grow(v, m, n - 1);
    } else if m > 0 {
        lemma_bytes_grow(v, m - 1, m - 1);
    }
}

/// Bytes of all files, if they can be counted.
pub fn total_bytes(v: &Vec<Job>) -> (r: Option<u64>)
    ensures
        match r {
            Some(t) => t == bytes_sum(v@, v.len() as int),
            None => bytes_sum(v@, v.len() as int) > u64::MAX,
        },
{
    let mut sum: u64 = 0;
    let mut i: usize = 0;
    while i < v.len()
        invariant
            i <= v.len(),
            sum == bytes_sum(v@, i as int),
        decreases v.len() - i,
    {
        proof {
            lemma_bytes_grow(v@, i + 1, v.len() as int);
        }
        if sum > u64::MAX - v[i].bytes {
            return None;
        }
        sum = sum + v[i].bytes;
        i = i + 1;
    }
    Some(sum)
}

/// Whether outcomes were carried on: for the same numbers, and without paths
/// that were not told before.
pub open spec fn carried_on(a: Seq<Brief>, b: Seq<Brief>) -> bool {
    ids_of(b) == ids_of(a) && (distinct_paths(a) ==> distinct_paths(b))
}

/// What is carried on step by step is carried on in all.
pub proof fn carrying_on_adds_up(a: Seq<Brief>, b: Seq<Brief>, c: Seq<Brief>)
    requires
        carried_on(a, b),
        carried_on(b, c),
    ensures
        carried_on(a, c),
{
}

/// Whether the outcomes `r` conclude what was carried on from `a`.
pub open spec fn carried_through(a: Seq<Brief>, r: Seq<Brief>) -> bool {
    exists|b: Seq<Brief>| #[trigger] carried_on(a, b) && fits(b) && concluded(b, r)
}

/// The outcome of the file at hand carries the outcomes on.
proof fn lemma_carried_on(a: Seq<Brief>, run: Run, before: Seq<Outcome>)
    requires
        0 < run.at <= run.jobs@.len(),
        run.outcomes@.len() == before.len() + 1,
        run.outcomes@.drop_last() == before,
        a == briefs(before) + promises(run.jobs@.skip(run.at - 1)),
        fits(a),
        ({
            let o = brief(run.outcomes@.last());
            let j = run.jobs@[run.at - 1];
            o.id == j.id && (o == promise(j) || (o.path is None && o.status != Status::Written && o.status != Status::Existing))
        }),
    ensures
        carried_on(a, run.account()),
        fits(run.account()),
{
    let b = run.account();
    let n = before.len() as int;
    let o = brief(run.outcomes@.last());
    assert(b =~= a.update(n, o)) by {
        assert forall|i: int| 0 <= i < b.len() implies b[i] == a.update(n, o)[i] by {
            if i < n {
                assert(run.outcomes@[i] == before[i]);
            }
        }
    }
    assert(a[n] == promise(run.jobs@[run.at - 1]));
    assert(ids_of(b) =~= ids_of(a));
    assert forall|i: int| 0 <= i < b.len() implies ((#[trigger] b[i]).path is Some <==> (b[i].status == Status::Written || b[i].status
        == Status::Existing)) by {
        assert(a[i].path is Some <==> (a[i].status == Status::Written || a[i].status == Status::Existing));
    }
    if distinct_paths(a) {
        assert forall|i: int, j: int| #![trigger b[i], b[j]] 0 <= i < j < b.len() && b[i].path is Some && b[j].path is Some implies b[i].path
            != b[j].path by {
            assert(a[i].path != a[j].path || a[i].path is None || a[j].path is None);
        }
    }
}

impl Run {
    /// The outcomes so far, and what comes of the files that are left if they
    /// are written.
    pub open spec fn account(self) -> Seq<Brief> {
        briefs(self.outcomes@) + promises(self.jobs@.skip(self.at as int))
    }

    /// Whether the counters fit: every file before the next one has its outcome,
    /// in sequence, no more bytes are done than those files have, and a path is
    /// told exactly of files that were written or are there.
    pub open spec fn wf(self) -> bool {
        &&& fits(self.account())
        &&& self.at <= self.jobs@.len()
        &&& self.total == bytes_sum(self.jobs@, self.jobs@.len() as int)
        &&& self.done <= bytes_sum(self.jobs@, self.at as int)
        &&& self.outcomes@.len() == self.known + self.at
        &&& forall|i: int| 0 <= i < self.at ==> (#[trigger] self.outcomes@[self.known + i]).id == self.jobs@[i].id
    }

    /// A run over these files; the outcomes of others are known already.
    pub fn start(jobs: Vec<Job>, total: u64, outcomes: Vec<Outcome>) -> (r: Run)
        requires
            total == bytes_sum(jobs@, jobs.len() as int),
            fits(briefs(outcomes@)),
        ensures
            r.wf(),
            r.account() == briefs(outcomes@) + promises(jobs@),
            r.jobs@ == jobs@,
            r.outcomes@ == outcomes@,
            r.at == 0,
            r.done == 0,
            r.known == outcomes.len(),
            !r.cancelled,
    {
        let known = outcomes.len();
        let r = Run { jobs, at: 0, done: 0, total, cancelled: false, outcomes, known };
        proof {
            let b = briefs(outcomes@);
            let a = r.account();
            assert(jobs@.skip(0) =~= jobs@);
            assert forall|i: int| 0 <= i < a.len() implies ((#[trigger] a[i]).path is Some <==> (a[i].status == Status::Written || a[i].status
                == Status::Existing)) by {
                if i < b.len() {
                    assert(a[i] == b[i]);
                }
            }
        }
        r
    }

    /// Begins the next file, unless the run was cancelled: a file that a
    /// cancelled run does not begin has its outcome at once.
    pub fn begin(&mut self, cancel: bool) -> (r: bool)
        requires
            old(self).wf(),
            old(self).at < old(self).jobs.len(),
        ensures
            final(self).wf(),
            r == (!old(self).cancelled && !cancel),
            r ==> *final(self) == *old(self),
            !r ==> ({
                &&& final(self).cancelled
                &&& final(self).at == old(self).at + 1
                &&& final(self).outcomes@.drop_last() == old(self).outcomes@
                &&& says(final(self).outcomes@.last(), old(self).jobs@[old(self).at as int].id as int, Status::Cancelled, None, None)
            }),
            final(self).jobs@ == old(self).jobs@,
            carried_on(old(self).account(), final(self).account()),
            final(self).done == old(self).done,
            final(self).total == old(self).total,
            final(self).known == old(self).known,
    {
        if !self.cancelled && !cancel {
            return true;
        }
        let ghost before = self.outcomes@;
        let ghost a0 = self.account();
        self.cancelled = true;
        let id: usize = self.jobs[self.at].id;
        self.outcomes.push(Outcome { id, status: Status::Cancelled, path: None, message: None });
        proof {
            lemma_bytes_grow(self.jobs@, self.at as int, self.at + 1);
            assert(self.outcomes@.drop_last() =~= before);
            assert forall|i: int| 0 <= i < self.at + 1 implies (#[trigger] self.outcomes@[self.known + i]).id == self.jobs@[i].id by {
                if i < self.at {
                    assert(self.outcomes@[self.known + i] == before[self.known + i]);
                }
            }
        }
        self.at = self.at + 1;
        proof {
            lemma_carried_on(a0, *self, before);
        }
        false
    }

    /// How far the run is once `d` bytes of the file at hand are written.
    pub fn progress(&self, d: u64, milestone: bool) -> (r: Progress)
        requires
            self.wf(),
            self.at < self.jobs.len(),
            d <= self.jobs@[self.at as int].bytes,
        ensures
            r.index == self.at,
            r.count == self.jobs.len(),
            r.id == self.jobs@[self.at as int].id,
            r.name@ == self.jobs@[self.at as int].name@,
            r.done == self.done + d,
            r.total == self.total,
            r.done <= r.total,
            r.milestone == milestone,
    {
        proof {
            lemma_bytes_grow(self.jobs@, self.at + 1, self.jobs@.len() as int);
        }
        let j = &self.jobs[self.at];
        Progress { index: self.at, count: self.jobs.len(), id: j.id, name: j.name.as_str().to_string(), done: self.done + d, total: self.total, milestone }
    }

    /// Ends the file at hand.
    pub fn finish(&mut self, how: Written)
        requires
            old(self).wf(),
            old(self).at < old(self).jobs.len(),
            !old(self).cancelled,
        ensures
            final(self).wf(),
            final(self).at == old(self).at + 1,
            final(self).done == old(self).done + old(self).jobs@[old(self).at as int].bytes,
            final(self).cancelled == (how is Cancelled),
            final(self).outcomes@.drop_last() == old(self).outcomes@,
            ({
                let j = old(self).jobs@[old(self).at as int];
                let o = final(self).outcomes@.last();
                match how {
                    Written::Done => says(o, j.id as int, Status::Written, Some(j.path@), None),
                    Written::Cancelled => says(o, j.id as int, Status::Cancelled, None, None),
                    Written::Failed { text } => says(o, j.id as int, Status::Failed, None, Some(text@)),
                }
            }),
            final(self).jobs@ == old(self).jobs@,
            carried_on(old(self).account(), final(self).account()),
            final(self).total == old(self).total,
            final(self).known == old(self).known,
    {
        let ghost before = self.outcomes@;
        let ghost a0 = self.account();
        let j = &self.jobs[self.at];
        let bytes: u64 = j.bytes;
        let o = match how {
            Written::Done => Outcome { id: j.id, status: Status::Written, path: Some(j.path.as_str().to_string()), message: None },
            Written::Cancelled => {
                self.cancelled = true;
                Outcome { id: self.jobs[self.at].id, status: Status::Cancelled, path: None, message: None }
            },
            Written::Failed { text } => Outcome { id: j.id, status: Status::Failed, path: None, message: Some(text) },
        };
        proof {
            lemma_bytes_grow(self.jobs@, self.at + 1, self.jobs@.len() as int);
        }
        self.done = self.done + bytes;
        self.outcomes.push(o);
        proof {
            assert(self.outcomes@.drop_last() =~= before);
            assert forall|i: int| 0 <= i < self.at + 1 implies (#[trigger] self.outcomes@[self.known + i]).id == self.jobs@[i].id by {
                if i < self.at {
                    assert(self.outcomes@[self.known + i] == before[self.known + i]);
                }
            }
        }
        self.at = self.at + 1;
        proof {
            lemma_carried_on(a0, *self, before);
        }
    }

    /// What came of all files, sorted by their numbers.
    pub fn conclude(self) -> (r: (Vec<Outcome>, bool))
        requires
            self.wf(),
            self.at == self.jobs.len(),
        ensures
            sorted_from(self.outcomes@, r.0@),
            concluded(self.account(), briefs(r.0@)),
            r.0.len() == self.known + self.jobs.len(),
            r.1 == self.cancelled,
    {
        let mut v = self.outcomes;
        let ghost o = v@;
        sort(&mut v);
        proof {
            outcomes_are_orderly(o);
            let q = choose|q: Seq<int>| #[trigger] arranged(o, v@, q) && (orderly(o) ==> in_order(o, q));
            let (b, c) = (briefs(o), briefs(v@));
            assert(self.account() =~= b);
            assert(arranged(b, c, q));
            assert forall|i: int, j: int| #![trigger c[i], c[j]] 0 <= i < j < c.len() implies c[i].id <= c[j].id by {
                assert(v@[i] == o[q[i]] && v@[j] == o[q[j]]);
                assert(stands_before(o, q[i], q[j]));
            }
            sorting_concludes(b, c, q);
        }
        (v, self.cancelled)
    }
}

/// The order of outcomes never contradicts itself.
pub proof fn outcomes_are_orderly(v: Seq<Outcome>)
    ensures
        orderly(v),
{
}

/// The first name that is not reserved is offered: every number before it is
/// taken, and it is not.
pub proof fn first_free_number_is_next(stem: Seq<char>, suffix: Seq<char>, reserved: Seq<Seq<char>>, n: int)
    requires
        1 <= n <= 1000,
    ensures
        ({
            let k = next_number(stem, suffix, reserved, n);
            &&& n <= k <= 1000
            &&& k < 1000 ==> !reserved.contains(nth_name(stem, suffix, k))
            &&& forall|j: int| n <= j < k ==> reserved.contains(#[trigger] nth_name(stem, suffix, j))
        }),
    decreases 1000 - n,
{
    if n < 1000 && reserved.contains(nth_name(stem, suffix, n)) {
        first_free_number_is_next(stem, suffix, reserved, n + 1);
    }
}

/// The first file of a name has the name itself; later ones have a number
/// between the name and the suffix.
pub proof fn names_keep_their_suffix(stem: Seq<char>, suffix: Seq<char>, n: int)
    requires
        suffix.len() > 0,
        !has_suffix(stem, suffix),
    ensures
        trimmed(stem, suffix) == stem,
        trimmed(stem + suffix, suffix) == stem,
        nth_name(trimmed(stem + suffix, suffix), suffix, 1) == stem + suffix,
        n != 1 ==> nth_name(stem, suffix, n) == stem + seq!['_'] + dec(n as nat) + suffix,
        has_suffix(nth_name(stem, suffix, n), suffix),
{
    reveal_strlit("_");
    assert("_"@ =~= seq!['_']);
    let name = stem + suffix;
    assert(name.skip(name.len() - suffix.len()) =~= suffix);
    assert(name.take(name.len() - suffix.len()) =~= stem);
    reveal_with_fuel(trimmed, 2);
    let x = nth_name(stem, suffix, n);
    assert(x.skip(x.len() - suffix.len()) =~= suffix);
}

/// A file counts as the same only with the same size and a header in order, and
/// what was written counts only if it is such a file.
pub proof fn other_files_are_not_the_same(len: int, repaired: Option<bool>, bytes: int)
    ensures
        len != bytes ==> !same_wav(len, repaired, bytes) && !as_planned(len, false, bytes),
        repaired != Some(false) ==> !same_wav(len, repaired, bytes),
        !as_planned(len, true, bytes),
        same_wav(bytes, Some(false), bytes),
        as_planned(bytes, false, bytes),
{
}

} // verus!
