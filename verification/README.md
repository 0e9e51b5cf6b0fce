# rusticfs

A small crash-consistent file system for a fixed-size block device, written
in Verus. Every operation of the library is stated by `requires` / `ensures`
contracts over a mathematical model of the device (a map from sector numbers
to 512-byte images) and proved.

## Layout

- `src/storage.rs`: the `Disk` trait the volumes run on, and an in-memory disk.
- `src/codec.rs`, `src/checksum.rs`: byte encoding and the CRC-32 checksum.
- `src/format.rs`, `src/volume.rs`, `src/publication.rs`: the two-bank layout,
  its mount, mutations and publication.
- `src/recovery.rs`, `src/tracking.rs`, `src/admission.rs`,
  `src/admissions.rs`: retained recovery records, epochs and admissions.
- `src/extent.rs`: extents and the free-space map.
- `src/format6.rs`, `src/volume6.rs`, `src/receipt6.rs`, `src/upgrade6.rs`:
  the extent-based layout with alternating generations.
- `src/format7/`, `src/volume7/`: the checksummed generation layout with
  retained records, staged replacement, retention and the migration from the
  two-bank layout.
- `tests/`: executable tests on concrete values.
- `app/`: the polling drivers that perform device I/O between the library's
  decisions.
