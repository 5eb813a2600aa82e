# rsync

Brings a destination directory up to date with a source directory, writing only
what changed. The logic is a verified library; a thin command line tool around
it does the input and output.

    rsync <destination_dir> <source_dir>

- `src/rolling.rs`: the weak checksum and its constant-time update
- `src/strong.rs`: the strong hash (BLAKE3) that confirms a match
- `src/blocks.rs`: the map from weak checksums to destination blocks
- `src/delta.rs`: the operations that rebuild the source from those blocks
- `src/apply.rs`: what these operations write
- `src/laws.rs`: what holds of all of these together, above all that a delta
  applied to its destination gives the source
- `src/meta.rs`: change detection and block sizes
- `src/names.rs`: names of temporary files
- `src/walk.rs`: the decisions for each entry of the source tree
- `app/`: the tool

Updates are written to a temporary file beside the destination file, which is
then renamed. Destination files are never removed, and symbolic links are
skipped.
