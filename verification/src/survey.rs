//! A scan as a whole: from the files found to the recordings they hold.

use vstd::prelude::*;

use crate::group::{all_parts_are_counted, all_usable, arrange, built, candidates, group, grouped, joins_lead_forward, marked, part_count, scored, usable};
use crate::joins::Link;
use crate::names::{dji_from, is_own_output, own_shape};
use crate::order::{arranged, in_order, orderly, sorted_from};
use crate::paths::{in_sequence, place_less, places, Place, PlaceView};
use crate::recording::{countable, recording_views, Recording};
use crate::scan::{copies, dedupe, default_out_dir, load_error, load_part, nothing_is_lost, originals, part_made, part_views, skipped_views, tracks_place, Options, Part, PartView, Skipped, SkippedView};
use crate::wav::WavInfo;

verus! {

/// Whether a file is a result of an earlier run.
pub open spec fn is_result(v: PlaceView) -> bool {
    v.parts.len() > 0 && own_shape(v.parts.last())
}

/// The files found that a scan looks at: in the order of their paths, each once,
/// and without results of earlier runs, which are neither input nor noise.
pub fn seen(v: &Vec<Place>) -> (r: Vec<usize>)
    ensures
        forall|k: int| 0 <= k < r.len() ==> #[trigger] r@[k] < v.len() && !is_result(v@[r@[k] as int]@),
        forall|j: int, k: int| 0 <= j < k < r.len() ==> place_less(v@[#[trigger] r@[j] as int]@, v@[#[trigger] r@[k] as int]@),
        forall|i: int| 0 <= i < v.len() && !is_result(v@[i]@) ==> exists|k: int| 0 <= k < r.len() && v@[#[trigger] r@[k] as int]@ == (#[trigger] v@[i])@,
{
    let all = in_sequence(v);
    let mut r: Vec<usize> = Vec::new();
    let ghost mut from: Seq<int> = Seq::empty();
    let mut n: usize = 0;
    while n < all.len()
        invariant
            n <= all.len(),
            forall|k: int| 0 <= k < all.len() ==> #[trigger] all@[k] < v.len(),
            forall|j: int, k: int| 0 <= j < k < all.len() ==> place_less(v@[#[trigger] all@[j] as int]@, v@[#[trigger] all@[k] as int]@),
            from.len() == r.len(),
            forall|k: int| 0 <= k < r.len() ==> 0 <= #[trigger] from[k] < n && r@[k] == all@[from[k]] && !is_result(v@[r@[k] as int]@),
            forall|j: int, k: int| 0 <= j < k < r.len() ==> #[trigger] from[j] < #[trigger] from[k],
            forall|i: int| 0 <= i < n && !is_result(v@[#[trigger] all@[i] as int]@) ==> r@.contains(all@[i]),
        decreases all.len() - n,
    {
        let x = &v[all[n]];
        let m: usize = x.parts.len();
        let ghost r0 = r@;
        assert(x@.parts.len() == m);
        if m == 0 || !is_own_output(x.parts[m - 1].as_str()) {
            r.push(all[n]);
            proof {
                from = from.push(n as int);
                assert(r@.last() == all@[n as int]);
                assert forall|i: int| 0 <= i <= n && !is_result(v@[#[trigger] all@[i] as int]@) implies r@.contains(all@[i]) by {
                    if i < n {
                        let k = choose|k: int| 0 <= k < r0.len() && r0[k] == all@[i];
                        assert(r@[k] == all@[i]);
                    }
                }
            }
        }
        n = n + 1;
    }
    proof {
        assert forall|k: int| 0 <= k < r@.len() implies #[trigger] r@[k] < v.len() && !is_result(v@[r@[k] as int]@) by {
            assert(0 <= from[k] < n);
        }
        assert forall|j: int, k: int| 0 <= j < k < r@.len() implies place_less(v@[#[trigger] r@[j] as int]@, v@[#[trigger] r@[k] as int]@) by {
            assert(from[j] < from[k]);
        }
        assert forall|i: int| 0 <= i < v@.len() && !is_result(v@[i]@) implies exists|k: int|
            0 <= k < r@.len() && v@[#[trigger] r@[k] as int]@ == (#[trigger] v@[i])@ by {
            let m = choose|m: int| 0 <= m < all@.len() && v@[#[trigger] all@[m] as int]@ == v@[i]@;
            assert(r@.contains(all@[m]));
            let k = choose|k: int| 0 <= k < r@.len() && r@[k] == all@[m];
            assert(v@[r@[k] as int]@ == v@[i]@);
        }
    }
    r
}

/// A WAV file that a scan came upon, and what reading its header gave.
#[derive(Debug)]
pub struct Candidate {
    pub path: String,
    pub name: String,
    pub folder: Place,
    pub header: Result<WavInfo, String>,
}

/// The parts among the first `n` files.
pub open spec fn loaded(c: Seq<Candidate>, n: int) -> Seq<PartView>
    decreases n,
{
    if n <= 0 {
        Seq::empty()
    } else {
        let x = c[n - 1];
        if load_error(x.name@, x.header) is None {
            loaded(c, n - 1).push(part_made(n - 1, x.path@, x.name@, x.folder@, (x.header->Ok_0)@))
        } else {
            loaded(c, n - 1)
        }
    }
}

/// The files among the first `n` that are no parts, and why.
pub open spec fn unloaded(c: Seq<Candidate>, n: int) -> Seq<SkippedView>
    decreases n,
{
    if n <= 0 {
        Seq::empty()
    } else {
        let x = c[n - 1];
        match load_error(x.name@, x.header) {
            Some(reason) => unloaded(c, n - 1).push(SkippedView { path: x.path@, reason }),
            None => unloaded(c, n - 1),
        }
    }
}

/// Whether the headers that could be read are sound.
pub open spec fn headers_sound(c: Seq<Candidate>) -> bool {
    forall|i: int| 0 <= i < c.len() ==> ((#[trigger] c[i]).header matches Ok(info) ==> info@.sound())
}

/// Makes the files found parts, each numbered by its place in the list. Those
/// that are none join the files that were `ignored` already.
pub fn load_parts(found: &Vec<Candidate>, ignored: Vec<Skipped>) -> (r: (Vec<Part>, Vec<Skipped>))
    requires
        headers_sound(found@),
    ensures
        part_views(r.0@) == loaded(found@, found.len() as int),
        skipped_views(r.1@) == skipped_views(ignored@) + unloaded(found@, found.len() as int),
        all_usable(part_views(r.0@)),
{
    let ghost before = skipped_views(ignored@);
    let mut skipped = ignored;
    let mut parts: Vec<Part> = Vec::new();
    let mut i: usize = 0;
    assert(part_views(parts@) =~= Seq::empty());
    assert(before + unloaded(found@, 0) =~= before);
    while i < found.len()
        invariant
            i <= found.len(),
            headers_sound(found@),
            part_views(parts@) == loaded(found@, i as int),
            skipped_views(skipped@) == before + unloaded(found@, i as int),
            forall|k: int| 0 <= k < parts.len() ==> usable((#[trigger] parts@[k])@),
        decreases found.len() - i,
    {
        let f = &found[i];
        let ghost p0 = parts@;
        let ghost s0 = skipped@;
        let header: Result<WavInfo, String> = match &f.header {
            Ok(info) => Ok(info.copy()),
            Err(e) => Err(e.clone()),
        };
        assert(load_error(f.name@, header) == load_error(f.name@, f.header));
        match load_part(i, f.path.as_str(), f.name.as_str(), f.folder.copy(), header) {
            Ok(p) => {
                parts.push(p);
                assert(part_views(parts@) =~= part_views(p0).push(p@));
            },
            Err(reason) => {
                let k = Skipped { path: f.path.clone(), reason };
                skipped.push(k);
                assert(skipped_views(skipped@) =~= skipped_views(s0).push(k@));
                assert(skipped_views(skipped@) =~= before + unloaded(found@, i + 1));
            },
        }
        i = i + 1;
    }
    (parts, skipped)
}

/// Leaves the copies out, sorts the parts by start and path, and marks the full
/// chunks. `prints` are the fingerprints of the parts.
pub fn prepare(parts: &Vec<Part>, prints: &Vec<Option<u64>>, opt: &Options) -> (r: (Vec<Part>, Vec<Skipped>))
    requires
        prints.len() == parts.len(),
    ensures
        exists|u: Seq<Part>, v: Seq<Part>|
            part_views(u) == originals(part_views(parts@), prints@, parts.len() as int) && #[trigger] sorted_from(u, v) && part_views(r.0@) == marked(
                part_views(v),
                opt.min_chunk_bytes as int,
            ),
        skipped_views(r.1@) == copies(part_views(parts@), prints@, parts.len() as int),
{
    let (kept, duplicates) = dedupe(parts, prints);
    (arrange(kept, opt), duplicates)
}

/// What a scan found.
#[derive(Debug)]
pub struct Scan {
    pub roots: Vec<Place>,
    pub default_out_dir: Place,
    pub files_seen: usize,
    pub recordings: Vec<Recording>,
    pub duplicates: Vec<Skipped>,
    pub ignored: Vec<Skipped>,
}

/// The files that a scan of some folders left aside.
#[derive(Debug)]
pub struct Aside {
    pub duplicates: Vec<Skipped>,
    pub ignored: Vec<Skipped>,
}

/// Puts the parts of a scan together. `costs` says of each of the
/// [`links`](crate::group::links) how badly the audio breaks there.
pub fn conclude(roots: Vec<Place>, files_seen: usize, parts: &Vec<Part>, opt: &Options, costs: &Vec<Option<i64>>, aside: Aside) -> (r: Scan)
    requires
        roots.len() > 0,
        countable(part_views(parts@)),
        costs.len() == candidates(part_views(parts@), *opt, parts.len() as int).len(),
    ensures
        r.roots == roots,
        r.default_out_dir@ == tracks_place(places(roots@)),
        r.files_seen == files_seen,
        grouped(part_views(parts@), *opt, costs@, recording_views(r.recordings@)),
        r.duplicates == aside.duplicates,
        r.ignored == aside.ignored,
{
    let default_out_dir = default_out_dir(&roots);
    let recordings = group(parts, opt, costs);
    Scan { roots, default_out_dir, files_seen, recordings, duplicates: aside.duplicates, ignored: aside.ignored }
}

/// Every file that a scan came upon is a part or was skipped.
pub proof fn every_file_counts(c: Seq<Candidate>, n: int)
    requires
        0 <= n <= c.len(),
    ensures
        loaded(c, n).len() + unloaded(c, n).len() == n,
    decreases n,
{
    if n > 0 {
        every_file_counts(c, n - 1);
    }
}

/// Every file that a scan looked at is accounted for: it is a part of one of
/// the recordings, a copy, or was skipped. `u` are the parts without copies,
/// `v` those sorted, and `l` the joins in the order in which they are taken.
pub proof fn every_file_is_accounted_for(
    c: Seq<Candidate>,
    prints: Seq<Option<u64>>,
    opt: Options,
    costs: Seq<Option<i64>>,
    u: Seq<Part>,
    v: Seq<Part>,
    l: Seq<Link>,
)
    requires
        part_views(u) == originals(loaded(c, c.len() as int), prints, loaded(c, c.len() as int).len() as int),
        sorted_from(u, v),
        ({
            let p = marked(part_views(v), opt.min_chunk_bytes as int);
            p.len() <= usize::MAX && sorted_from(scored(p, candidates(p, opt, p.len() as int), costs), l)
        }),
    ensures
        ({
            let parts = loaded(c, c.len() as int);
            let r = built(marked(part_views(v), opt.min_chunk_bytes as int), l);
            c.len() == part_count(r, r.len() as int) + copies(parts, prints, parts.len() as int).len() + unloaded(c, c.len() as int).len()
        }),
{
    let parts = loaded(c, c.len() as int);
    let p = marked(part_views(v), opt.min_chunk_bytes as int);
    every_file_counts(c, c.len() as int);
    nothing_is_lost(parts, prints, parts.len() as int);
    let q = choose|q: Seq<int>| #[trigger] arranged(u, v, q) && (orderly(u) ==> in_order(u, q));
    assert(part_views(u).len() == u.len() && part_views(v).len() == v.len());
    joins_lead_forward(p, opt, costs, l);
    all_parts_are_counted(p, l);
}

/// Each file with a recorder's name whose header could be read and announces
/// audio is a part, in the order found: it tells its place in the list, its path
/// and name, and begins when its name says.
pub proof fn parts_tell_their_file(c: Seq<Candidate>, n: int)
    requires
        0 <= n <= c.len(),
    ensures
        forall|k: int|
            0 <= k < loaded(c, n).len() ==> ({
                let x = #[trigger] loaded(c, n)[k];
                &&& 0 <= x.file < n
                &&& x.path == c[x.file].path@ && x.name == c[x.file].name@ && x.folder_path == c[x.file].folder@
                &&& dji_from(x.name, 0) == Some((x.seq, x.start_secs))
                &&& c[x.file].header matches Ok(info) && info.data_len > 0 && x.info == info@ && x.size == info.file_size
            }),
        forall|j: int, k: int| 0 <= j < k < loaded(c, n).len() ==> (#[trigger] loaded(c, n)[j]).file < (#[trigger] loaded(c, n)[k]).file,
    decreases n,
{
    if n > 0 {
        parts_tell_their_file(c, n - 1);
        let v = loaded(c, n);
        let w = loaded(c, n - 1);
        assert forall|k: int| 0 <= k < v.len() implies ({
            let x = #[trigger] v[k];
            &&& 0 <= x.file < n
            &&& x.path == c[x.file].path@ && x.name == c[x.file].name@ && x.folder_path == c[x.file].folder@
            &&& dji_from(x.name, 0) == Some((x.seq, x.start_secs))
            &&& c[x.file].header matches Ok(info) && info.data_len > 0 && x.info == info@ && x.size == info.file_size
        }) by {
            if k < w.len() {
                assert(v[k] == w[k]);
            }
        }
        assert(forall|k: int| 0 <= k < w.len() ==> v[k] == w[k]);
    }
}

} // verus!
