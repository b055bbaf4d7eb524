# lrgex_compress

The logic of LRGEX Compress — a right-click archiver for Windows that writes `.zgx`
archives (tar + Zstandard) and extracts `.zgx`, `.zip`, `.rar` and `.7z` — as a library whose
behaviour is stated in `requires`/`ensures` contracts and proved with Verus.

## Layout

- `src/` — the verified library.
  - `text.rs` — character-level helpers (trimming, splitting, decimal text, number parsing).
  - `winpath.rs` — Windows paths as text: parsing, lexical normalization, the containment
    checks for archive entries and link targets.
  - `archive.rs` — the `.zgx` header formats, format detection, the path index and the
    metadata sidecar.
  - `segment.rs`, `volumes.rs` — split archives: header, part names, the part writer and
    the part reader as state machines, and the SHA-256 trailer check of each part.
  - `compress.rs`, `extract.rs` — per-entry decisions of compression and extraction, PAX and
    zip metadata, write guards, the one-prompt elevation.
  - `metaattr.rs` — Windows times and attributes, link failures, the elevated relaunch line.
  - `progress.rs` — the counters behind the progress status file.
  - `roster.rs` — multi-select collection across instances.
  - `update.rs` — version comparison, update throttling, declined versions, signature checks,
    installer vetting.
  - `viewtree.rs` — the selection tree of the selective-extract view.
  - `cli.rs` — the command line, names, prompts and result texts.
  - `fire.rs` — the fire animation.
- `tests/` — tests run against the compiled library.
- `app/` — the program around the library: files, archives, network, dialogs and system
  calls.

Outside crates reached from the library (behind trusted wrappers): `zstd`, `hex`,
`ed25519-dalek`, `rand`, `sha2`.

7z archives are extracted one volume at a time: multi-volume 7z sets (`.7z.001`, …) are
not supported.
