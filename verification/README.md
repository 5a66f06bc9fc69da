# glrx

A layered GNSS receiver. The library under `src/` holds the decisions of the
receiver and is verified with Verus; `app/` holds what surrounds it: signal
processing in floating point, files, threads and clocks.

- `signal`: ranging codes, blocks of samples, order of Fourier bins, changes of
  the sample rate.
- `acquisition`: search grids and peaks, detection, verification with retries,
  ranking.
- `navigation`: bit synchronisation, parity, subframes, ephemerides, assembly of
  navigation data, time scales and common epochs.
- `observables`: pseudoranges, Doppler shifts, quality of signals, sets of
  measurements.
- `rf`: sample formats, configurations, raw files, streams between threads.
- `pipeline`: the states of the receiver.

Quantities are integers: frequencies in millihertz, ratios and levels in
thousandths, code phases in fractions of a chip, times in nanoseconds or
picoseconds, lengths in micrometres, and correlation powers as keys that compare as the powers do. `app/units.rs` converts.

The functions named `law_...` state what holds of the library as a whole: that a
clean stream of subframes is decoded, that up to three wrong bits of a word are
detected, that the codes of two satellites correlate weakly,
that a stream loses no sample without counting it, and so on.

Functions marked `external_body` call the crates `gnss-time` and `byteorder` and
the standard library; their doc comments say what is taken from there.
