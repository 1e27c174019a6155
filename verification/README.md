# PrepareAudio

PrepareAudio takes the recordings of clip-on recorders from the memory card to
finished files, in three steps:

1. **Merge.** The chunks that a recorder splits each recording into become one
   WAV file per recording.
2. **Synchronise.** Where two recorders heard the same events, their tracks
   become one stereo file; all other time stays in mono files.
3. **Master.** Files of any common format become MP3 files of equal loudness.

## Layout

- `src/` is the library. From what was found and measured it decides which files
  count, which chunk follows which, whether two recorders share an offset, which
  stretches are shared, what each file is called and which bytes it is made of,
  and how gain and limiter are tuned. Each function states what it returns, and
  Verus proves it. What holds of several functions together stands next to them
  as public proof functions.
- `tests/` runs the library on concrete values.
- `app/` is what surrounds it: files, threads, the window, and the arithmetic on
  floating-point samples. What the library decides by is measured there: how
  badly the audio breaks at a join, the offset and drift of two clocks, how alike
  two tracks sound, how loud a second is, and the loudness of a file.

The library counts in integers: times in nanoseconds, levels in millionths of a
decibel, scores and shares in billionths, samples by their bits.

## Modules

| Step | Modules |
| --- | --- |
| WAV files | `wav`, `bytes` |
| Names, dates, paths, order, sums | `text`, `calendar`, `names`, `paths`, `order`, `sums` |
| Merging | `scan`, `joins`, `group`, `recording`, `survey`, `merge` |
| Synchronising | `sources`, `track`, `pairing`, `windows`, `compare`, `alignment`, `phases`, `plan`, `dropouts`, `coverage`, `items`, `render`, `lane`, `exact` |
| Mastering | `audio`, `reader`, `describe`, `loudness`, `limiter`, `lame`, `meter`, `engine`, `master` |
| What is shown and written | `plans`, `batch`, `outcome`, `results`, `requests`, `checks` |

`lame` and `meter` hold what is taken on trust of the LAME encoder and the ebur128
meter; the few functions of the standard library that are taken on trust stand
where they are used.
