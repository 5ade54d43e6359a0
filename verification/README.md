# my_git

A small git whose core is verified with Verus.

`src/` is the library:

- `varint.rs`: the base-128 numbers of pack files (entry sizes, delta sizes,
  offset-delta offsets), with the facts about shifts that reading them needs.
- `packfile.rs`: entry kinds and headers, the pack checksum, and the parse of
  a pack as a sequence of steps (read the header, read an entry, apply a delta
  to the base the caller found) with the laws those steps keep, including
  where a parse that ends in an error leaves its position.
- `delta.rs`: delta instructions, applying them to a base, and rebuilding an
  object from a delta.
- `objects.rs`: the stored form of objects (header, content, compression),
  their names, tree entries and the tree of a commit.
- `commands/`: the logic of `clone` (destination directory, reference
  advertisement, upload-pack request and reply, tree entry modes),
  `cat-file` (the header line of a stored blob and its content, decompressed
  no further than the header's size) and `ls-tree`; `checkout.rs` writes out
  the work tree of a commit as a sequence of steps (read an object, make a
  file or a directory, write a blob), depth first in each tree's order.
- `zlib.rs`, `hashing.rs`, `pattern.rs`: the calls into flate2, sha1, hex and
  regex, with the contracts the rest relies on.

`app/` is the command-line program: argument parsing, HTTP, files and
output. `tests/` exercises the library on concrete values.
