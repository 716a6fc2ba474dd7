# sihat

Onset, peak and overtone analysis of recorded instrument notes.

- `src/` is the verified library. It works on fixed-point samples (`i16`,
  `FULL_SCALE` = 1.0) and on integer keys that order spectral quantities:
  - `finders`: the peak-sample and zero-crossing searches;
  - `transient`: the RMS-window onset search that finds where a note's
    transient begins, and the RMS window length;
  - `peaks`: picking the strongest scan frequencies with neighbour
    suppression, and ranking a spectrum's local peaks by amplitude;
  - `models`, `structures`, `fixed`: settings, recordings, ranges, units.
- `app/` decodes the recording (rodio), normalises it, computes the FFT-based
  overtone spectrum (realfft, rustfft) in floating point, and hands samples
  and keys to the library. It also holds the wavelet scalogram code
  (`app/dsp/wavelet.rs`), which no step of the program reaches: the transient
  analysis that would call it needs helpers that the project does not define.
- `tests/` exercises the library on concrete signals.

Left out altogether: the harmonic analysis (its `process`, `find_peak`,
`find_peak_within_tolerance`), the self-correlation scan
(`perform_self_correlation`), the transient end (`find_end`), the rest of the
transient `process` (scalogram, gain, RMS) and `analyze`, which runs them
all. They rest on items the project uses but never defines (`HarmonicSettings`,
`find_nearest_zero`, `closest_power_of_usize`, `hz_to_bin`, `bin_to_hz`,
`cmplx_to_amp`, `find_peak_index_vector`, and the `h_settings` and
`wavelet_settings` fields), so they cannot be built; their work is floating
point throughout, so none of it could stand in the verified library.
