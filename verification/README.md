# sgit

A small git-like store, verified with Verus.

- `src/wire.rs`: big-endian integers and byte copying.
- `src/text.rs`: lossy UTF-8 decoding, decimal byte lists, lowercase hex.
- `src/index.rs`: index entries, their binary layout, and the name-keyed index.
- `src/objects.rs`: object names (SHA-1), object paths, tree entries and trees,
  and the decisions behind tree listings.
- `src/staging.rs`: staging commands that do nothing yet.
- `app/`: the command-line program and the file-system side of the commands.
