# sdr_fm

The decision logic of an FM broadcast receiver for RTL-SDR dongles, written
in Verus and proved against its contracts.

`src/` is the verified library:

- `rds` — RDS block layer: CRC syndrome over the generator 0x5B9, offset-word
  identification, bit-level block synchronisation, group assembly and the
  Program Service name.
- `detect` — the detector's decision stage: runs of eligible raster channels,
  splitting at deep SNR valleys, best channel per part, spaced merge.
- `stations` — bundled presets, stable ordering by frequency, validation with
  its messages, what is loaded and what is saved.
- `city` — the supported cities, alias parsing and the choice of the active one.
- `tuner` — RTL2832 sample-rate rules, snapping of requested rates, device-open
  diagnostics.
- `audio` — output stream format choice, device listing, copying audio chunks
  into output buffers.
- `player` — start, retune, launch and stop decisions.
- `scan` — which detected channels get an RDS dwell and the presets a scan yields.
- `text` — character helpers (trimming, case, search, decimal formatting).

`app/` is the desktop program around it (Tauri, SoapySDR/FutureSDR streaming,
cpal audio, file and network I/O, and the floating-point signal processing:
Welch spectrum, radiometer statistics, RDS demodulation).

`tests/` exercises the library on concrete values.
