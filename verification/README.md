# tuliprox_store

The storage layer of a playlist proxy, written in Verus: every function of the
library has a contract, and Verus proves the code against it.

## Layout

- `src/` — the verified library.
  - `page.rs` — slotted pages (header, slot directory, cells).
  - `keys.rs`, `bplustree.rs` — the in-memory B+tree, its keys and its model
    as a sorted run of entries.
  - `tree_format.rs`, `store.rs` — the byte layout of the tree file: header,
    node blocks, value records (optionally LZ4-compressed through `lz4_flex`),
    packed value blocks, and the layout of a whole tree as one image, with
    what each node and value reads back as; `info_codec.rs` — the
    fixed-width records of a leaf's value infos and of an inner node's child
    offsets.
  - `disk_query.rs` — the decisions of lookups and copy-on-write updates in a
    stored tree, one node at a time; `levels.rs` — the inner levels written
    over the leaves when a stored tree is rewritten compactly;
    `compact.rs` — the values and leaves of that rewrite, appended one after
    the other.
  - `block_cache.rs` — the cache of node blocks (an `indexmap::IndexMap`
    behind trusted wrappers).
  - `sorted_index.rs` — the sorted index file beside a tree file.
  - `dir_tree.rs`, `strm_files.rs` — the strm output directory: the tree
    walked when empty directories are removed, the index file of the files a
    run wrote, and the files a run leaves behind.
  - `paths.rs`, `model.rs`, `ui_names.rs`, `text.rs`, `le.rs` — paths and
    URLs, plain records, names of editor pages and actions, text and
    little-endian helpers.
- `tests/` — tests of the library, run against the compiled crate.
- `app/` — ordinary Rust around the library: file access, serde, the loops
  that read nodes from disk and hand them to the library.
