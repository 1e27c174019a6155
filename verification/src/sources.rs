//! The inputs of synchronising: which folders are looked into and which files
//! count.

use vstd::prelude::*;

use crate::audio::{folders_of, roots_of};
use crate::names::{is_wav_name, wav_name};
use crate::paths::{places, Place, PlaceView};
use crate::scan::{given_views, indices, name_of, push_unique, wavs_of, Given, Visit};
use crate::text::{has_prefix, same, starts_with};

verus! {

/// Folders below a given one that are looked into.
pub const MAX_DEPTH: usize = 24;

/// Hidden entries and the folder of results are left out, other folders are
/// entered, WAV files are taken.
pub fn visit(name: &str, is_dir: bool, is_file: bool, depth: usize) -> (r: Visit)
    ensures
        r is Take ==> is_file && !is_dir && wav_name(name@),
        r is Enter <==> is_dir && depth < 24 && name@ != "sync"@ && !has_prefix(name@, "."@),
        has_prefix(name@, "."@) ==> r is Leave,
        r == if has_prefix(name@, "."@) {
            Visit::Leave
        } else if is_dir {
            if name@ != "sync"@ && depth < MAX_DEPTH {
                Visit::Enter
            } else {
                Visit::Leave
            }
        } else if is_file && wav_name(name@) {
            Visit::Take
        } else {
            Visit::Leave
        },
{
    if starts_with(name, ".") {
        Visit::Leave
    } else if is_dir {
        if !same(name, "sync") && depth < MAX_DEPTH {
            Visit::Enter
        } else {
            Visit::Leave
        }
    } else if is_file && is_wav_name(name) {
        Visit::Take
    } else {
        Visit::Leave
    }
}

/// What synchronising starts from.
#[derive(Debug)]
pub struct TrackIntake {
    /// The folders given and those the given files lie in, each once.
    pub roots: Vec<Place>,
    /// Which of the inputs are folders to look into.
    pub walk: Vec<usize>,
    /// Which of the inputs are WAV files.
    pub files: Vec<usize>,
}

/// Sorts the inputs of synchronising into folders and WAV files. Without any folder there is nothing to synchronise.
pub fn intake(inputs: &Vec<Given>) -> (r: Result<TrackIntake, String>)
    ensures
        ({
            let g = given_views(inputs@);
            let n = g.len() as int;
            match r {
                Ok(k) => {
                    &&& roots_of(g, n).len() > 0
                    &&& places(k.roots@) == roots_of(g, n)
                    &&& indices(k.walk@) == folders_of(g, n)
                    &&& indices(k.files@) == wavs_of(g, n)
                },
                Err(e) => roots_of(g, n).len() == 0 && e@ == "Keine Ordner oder Dateien angegeben."@,
            }
        }),
{
    let ghost g = given_views(inputs@);
    let mut roots: Vec<Place> = Vec::new();
    let mut walk: Vec<usize> = Vec::new();
    let mut files: Vec<usize> = Vec::new();
    let mut i: usize = 0;
    assert(places(roots@) =~= Seq::<PlaceView>::empty());
    assert(indices(walk@) =~= Seq::<int>::empty());
    assert(indices(files@) =~= Seq::<int>::empty());
    while i < inputs.len()
        invariant
            i <= inputs.len(),
            g == given_views(inputs@),
            places(roots@) == roots_of(g, i as int),
            indices(walk@) == folders_of(g, i as int),
            indices(files@) == wavs_of(g, i as int),
        decreases inputs.len() - i,
    {
        let ghost w0 = walk@;
        let ghost f0 = files@;
        assert(g[i as int] == inputs@[i as int]@);
        if inputs[i].is_dir {
            push_unique(&mut roots, inputs[i].place.copy());
            walk.push(i);
            assert(indices(walk@) =~= indices(w0).push(i as int));
        } else {
            assert(inputs@[i as int].place@.parts.len() == inputs@[i as int].place.parts.len());
            if inputs[i].place.parts.len() > 0 {
                push_unique(&mut roots, inputs[i].place.up());
            }
            let name = name_of(&inputs[i].place);
            if is_wav_name(name.as_str()) {
                files.push(i);
                assert(indices(files@) =~= indices(f0).push(i as int));
            }
        }
        i = i + 1;
    }
    assert(places(roots@).len() == roots.len());
    if roots.len() == 0 {
        return Err("Keine Ordner oder Dateien angegeben.".to_string());
    }
    Ok(TrackIntake { roots, walk, files })
}

} // verus!
