# lf2_lzss

Tools for studying the LZSS streams of LF2 images (magic `LEAF256\0`): a
4096-byte ring that starts as spaces with its head at 0xfee, literals and
matches of 3 to 18 bytes, framed in groups of eight tokens behind an
inverted flag byte.

`src/` is the library, with its contracts and proofs:

- `model`, `ring`, `frame`, `decode`, `header`: the stream model, ring
  operations, payload framing and parsing, decoding to the image bytes, and
  the file header.
- `greedy`, `encode`: longest-match encoders that differ in how they break
  ties (rank-1 by distance, straight above, priority table of offsets, and
  early literal rows with three position rules); each is specified step by
  step and decodes back to its input.
- `scan`, `feasibility`, `first_miss`, `variants`: whether a stream could
  come from a greedy encoder, where it first leaves one, and under which
  variant of the rules.
- `gamma`, `offsets`, `pairwise`, `tiebreak`, `hashchain`, `shadow`,
  `candidates`, `teacher`, `replay`, `firstdiff`, `token`: measures of how
  the corpus encoder chose among equally long matches.
- `bench`, `stats`: tallies of re-encoding runs.
- `text`, `tokfmt`, `fields`: the exact text of report lines and the
  parsing of table cells.
- `laws`: properties that relate several of the above.

`app/` is a command-line front end (`lf2 <tool> <args>`) that reads corpus
directories, spreads work over threads and prints the reports.
