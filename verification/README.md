# flac_chop_core

Verified core of a sample-exact FLAC cutter for RF captures (VHS/LaserDisc
RF sampled at tens of MSPS and stored as FLAC with the real rate divided by
1000 in the header).

- `src/` is the library, verified with Verus: FLAC frame headers and their
  CRC-8, the metadata block chain, Vorbis comment blocks, the 36-bit
  `total_samples` wrap check and recovery, the frame-header scan, the rate
  rules, companion-file parsing (log duration, WAV chunk walk), the SoX
  argument plans, the in-place and spliced rewrites of the comment block
  after a cut, the STREAMINFO total repair, and the helpers of the C
  interface. Every function works on bytes and integers.
- `app/` holds the file, process and C-ABI plumbing that calls it: reading
  the front of a file, seeking through companions, running SoX, writing the
  planned rewrites, and the float conversions of rates and durations.
- `tests/` exercises the library on in-memory FLAC and WAV images.

Inputs other than FLAC: `chop::sniff_format` recognises FLAC and RIFF/WAVE
by their first bytes and raw PCM (`u8`, `s8`, `u16`, `s16`) by extension;
`chop::sox_input_args` builds the `-t/-r/-c` arguments SoX needs before the
input path. The float rates behind them (the `<n>msps` hint, a WAV's real
rate) are computed in `app/` and handed over as decimal text.

Metadata editor: `replace::replace_all_updates` plans the replacement of
every comment of a file (keys checked against `[A-Za-z0-9_]+` and
upper-cased, the vendor string kept) as updates for `tags::rewrite_tags`,
so it is written in place where it fits and through the checked full
rewrite otherwise; `fc_replace_comments` in `app/` reads the file and
writes the result. Reading the comments (`fc_comments_blob_size`,
`fc_read_comments_blob`) is built in `app/` from the library's chain and
comment parsers.
