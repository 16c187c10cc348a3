# eon_fs

Directory trees that remember what was deleted. A tree is a sorted sequence of items: the metadata
of each file, followed by the entries of the directory if it is one. A cursor lists the entries
depth first, without those that were deleted. A builder takes a listing of what a directory tree
holds now, compares it with an older tree, and makes a new tree. A directory is known by its inode:
it keeps its identifier wherever it is now, if no other directory that is listed now or was listed
before has the same inode. Otherwise an entry keeps its identifier if it is still in the same
directory under the same name, unless a directory on the way to it took the place of another: one
that is known from elsewhere, or whose predecessor is now elsewhere. All others get new identifiers.
Entries that are not there any more are marked as deleted, and no item is ever dropped.

The library is verified with [Verus](https://github.com/verus-lang/verus).

- `src/btree.rs`: ordered sequences of items, in memory or in a store of nodes.
- `src/id.rs`, `src/names.rs`: identifiers, and names with their order.
- `src/fs/key.rs`, `src/fs/item.rs`, `src/fs/lists.rs`: items and their keys.
- `src/fs/store.rs`, `src/fs/null_store.rs`: where nodes and identifiers come from.
- `src/fs/tree.rs`, `src/fs/cursor.rs`, `src/fs/builder.rs`: trees, cursors, builders.
- `src/fs/model.rs`, `src/fs/walks.rs`, `src/fs/tours.rs`: what the items of a tree mean, the order of
  a cursor, and when there is one.
- `src/fs/pushes.rs`, `src/fs/merge.rs`: what is pushed to a builder, and what it is matched with.
- `src/fs/changes.rs`, `src/fs/moves.rs`, `src/fs/uproot.rs`: the changes that this leads to, which
  of them are moves, and which directories took the place of others.
- `src/fs/sort.rs`, `src/fs/overlay.rs`, `src/fs/rebuild.rs`, `src/fs/assembly.rs`: how the new tree
  is made, and that it is one.
- `src/fs/laws.rs`: what holds of keys, trees and listings as a whole.
- `app/`: the same over the names and paths of the operating system.
