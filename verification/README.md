# rune

The verified core of a music library and its interactive client.

`src/` is checked by Verus:

- `fingerprint`: audio fingerprints stored as little-endian blobs; decoding,
  encoding, and the proofs that a stored fingerprint reads back unchanged.
- `similarity`: clusters of similar files, the connected components of the
  similarity graph, with proofs of what a cluster is.
- `duplicates`: within a cluster, the file that is kept (highest sample rate)
  and the files marked as duplicates.
- `pairing`: the comparisons of a page of files and their count.
- `paging`: the paging plans of the history scan and of the walk over files.
- `cli`: playback and operate modes, the commands, command-line splitting and
  `cd` resolution.
- `listing`: the column layout of the short directory listing.

`app/` holds what talks to the outside: the `clap` command parser, the
interactive commands, the schema migration, and the asynchronous fingerprint
jobs, written against a `FingerprintStore` trait that the database layer
implements.
