//! What is about to be written, as a whole: the plan of synchronising and the
//! plan of mastering.

use vstd::prelude::*;

use crate::audio::{default_out_dir, master_place};
use crate::engine::engine_label;
use crate::coverage::lasting;
use crate::items::{arranged_items, clocks_ok, final_pieces, nothing_lost, plan_items, Item};
use crate::loudness::{BITRATE_KBPS, CEILING_DBTP, TARGET_LUFS};
use crate::master::{audio_views, entries, left_out, levels_ok, plan_files, AudioFile, FoundAudio};
use crate::order::sorted_from;
use crate::pairing::{label_texts, labels, labels_seen, sync_place, Label};
use crate::paths::{places, Place};
use crate::plan::{piece_ok, plannable, Pair};
use crate::scan::{skipped_views, Skipped};
use crate::track::{track_views, Source, Track, TrackView};

verus! {

// ------------------------------------------------------------------ synchronising

/// What is to be synchronised.
#[derive(Debug)]
pub struct SyncPlan {
    pub roots: Vec<Place>,
    pub default_out_dir: Place,
    pub source: Source,
    /// The recorders, in order.
    pub labels: Vec<Label>,
    pub tracks: Vec<Track>,
    pub pairs: Vec<Pair>,
    pub items: Vec<Item>,
    pub ignored: Vec<Skipped>,
}

/// Whether `v` are the files planned for the tracks and their pairs, without a
/// loss of audio where the stretches that become stereo last.
pub open spec fn planned(t: Seq<TrackView>, p: Seq<Pair>, v: Seq<Item>) -> bool {
    arranged_items(t, final_pieces(t, p), v) && (lasting(t, p) ==> nothing_lost(t, p, v))
}

/// Whether `v` are the recorders of the tracks, in order.
pub open spec fn ordered_labels(t: Seq<TrackView>, v: Seq<Label>) -> bool {
    exists|u: Seq<Label>| label_texts(u) == labels_seen(t, t.len() as int) && #[trigger] sorted_from(u, v)
}

/// Plans the synchronising of tracks whose pairs were compared.
pub fn sync_plan(roots: Vec<Place>, source: Source, tracks: Vec<Track>, pairs: Vec<Pair>, ignored: Vec<Skipped>) -> (r: SyncPlan)
    requires
        roots.len() > 0,
        plannable(track_views(tracks@), pairs@),
        clocks_ok(track_views(tracks@)),
    ensures
        r.roots == roots,
        r.default_out_dir@ == sync_place(places(roots@)),
        r.source == source,
        ordered_labels(track_views(tracks@), r.labels@),
        r.tracks == tracks,
        r.pairs == pairs,
        planned(track_views(tracks@), pairs@, r.items@),
        forall|i: int| 0 <= i < r.items.len() ==> piece_ok(track_views(tracks@), pairs@, (#[trigger] r.items@[i]).piece@),
        r.ignored == ignored,
{
    let default_out_dir = crate::pairing::default_out_dir(&roots);
    let labels = labels(&tracks);
    let items = plan_items(&tracks, &pairs);
    SyncPlan { roots, default_out_dir, source, labels, tracks, pairs, items, ignored }
}

// ------------------------------------------------------------------ mastering

/// What is to be mastered.
#[derive(Debug)]
pub struct MasterPlan {
    pub roots: Vec<Place>,
    pub default_out_dir: Place,
    pub target_lufs: i64,
    pub ceiling_dbtp: i64,
    pub bitrate_kbps: u32,
    pub files: Vec<AudioFile>,
    pub ignored: Vec<Skipped>,
    /// What does the work.
    pub engine: String,
}

/// Plans the mastering of the files found; those that were `ignored` already
/// stay so.
pub fn master_plan(roots: Vec<Place>, found: &Vec<FoundAudio>, ignored: Vec<Skipped>) -> (r: Result<MasterPlan, String>)
    requires
        roots.len() > 0,
        levels_ok(found@),
    ensures
        ({
            let n = found.len() as int;
            match r {
                Ok(p) => {
                    &&& entries(found@, n).0.len() > 0
                    &&& p.roots == roots
                    &&& p.default_out_dir@ == master_place(places(roots@))
                    &&& p.target_lufs == -16_000_000 && p.ceiling_dbtp == -1_500_000 && p.bitrate_kbps == 192
                    &&& p.target_lufs == TARGET_LUFS
                    &&& p.ceiling_dbtp == CEILING_DBTP
                    &&& p.bitrate_kbps == BITRATE_KBPS
                    &&& audio_views(p.files@) == entries(found@, n).0
                    &&& skipped_views(p.ignored@) == skipped_views(ignored@) + left_out(found@, n)
                    &&& p.engine@ == "Symphonia · ebur128 · LAME 3.100"@
                },
                Err(e) => entries(found@, n).0.len() == 0 && e@ == "Keine lesbaren Audiodateien gefunden."@,
            }
        }),
{
    match plan_files(found, ignored) {
        Ok(m) => {
            let default_out_dir = default_out_dir(&roots);
            Ok(
                MasterPlan {
                    roots,
                    default_out_dir,
                    target_lufs: TARGET_LUFS,
                    ceiling_dbtp: CEILING_DBTP,
                    bitrate_kbps: BITRATE_KBPS,
                    files: m.files,
                    ignored: m.ignored,
                    engine: engine_label(),
                },
            )
        },
        Err(e) => Err(e),
    }
}

} // verus!
