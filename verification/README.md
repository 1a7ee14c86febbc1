# wavio

Loads, exports and streams WAV files, with contracts that Verus proves.

- `src/` is the library. It works on the bytes of files and on samples as the
  bit patterns of IEEE 754 binary32 numbers.
  - `audio`: `load`, in steps that hand mixing and resampling to the caller,
    and `export`.
  - `stream`: blocks of samples, all at once (`stream`) or as a file is read
    (`stream_lazy`); `blocks` cuts them.
  - `file`, `wav`: what was read of a file, its header and its samples. The
    functions of `hound` that are relied on stand in `wav`, with what is taken
    on trust of each.
  - `binary32`: clamping, dividing 16-bit samples by 32767, and turning seconds
    into indices, on bit patterns.
  - `laws`, `binary32_laws`: what holds of the library as a whole.
- `app/` adds paths, threads, `f32` samples and error messages.
- `tests/` run the library with the outside crates linked.
