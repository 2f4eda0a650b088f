# arcfs

A deduplicating, content-addressed file system mounted through FUSE, with
snapshots ("Chronos") and tag-based virtual directories ("TagFS"). The
library under `src/` is written in Verus: each function carries a contract
that Verus proves, and the properties that span several functions are
stated and proved as lemmas.

## Layout

- `src/chunker.rs` – content-defined chunking with a gear rolling hash;
  proved to partition the data into chunks within the size bounds, and to
  start afresh at every chunk boundary, so that an edit before a boundary
  leaves the chunks after it unchanged.
- `src/recipe.rs` – file recipes (chunk addresses and size); rebuilding a
  file from its chunks gives it back.
- `src/hash.rs` – chunk addresses (hex SHA-256 through the `sha2` crate).
- `src/codec.rs`, `src/store.rs` – bincode encoding of the stored records
  and the sled metadata database behind small trusted wrappers.
- `src/file_manager.rs` – the metadata store: inode records, directory
  entries, recipes, snapshots, legacy names, and the tag index, with the
  laws that keep tag records and index in agreement.
- `src/tagfs.rs` – the registry of virtual directories and files and the
  tag lookups and listings.
- `src/inode_tree.rs` – the in-memory inode tree: live tree, snapshots,
  copy-on-write, the searches through a snapshot's tree (which find a node
  exactly when one lies under the snapshot's root), and the proof that
  snapshots are sealed off from every change to the live tree.
- `src/page_cache.rs` – the write-back page cache with its LRU order.
- `src/fs_ops.rs` – control-file commands and other request parsing.
- `src/fuse_handler.rs` – the request handlers of the mounted file system
  (lookup, getattr, readdir, mkdir, create, unlink, rmdir, read, write,
  setattr, fsync/release).
- `src/text.rs` – text and ordering helpers shared by the above.
- `app/` – the command line, the chunk files on disk, and the FUSE
  front end that calls the handlers and moves bytes to and from disk.
- `tests/` – tests of the library on concrete values.
