# yrs_tree

A tree CRDT kept in a Yrs document, after Evan Wallace's algorithm for
mutable tree hierarchies. Every node keeps the history of the parents it has
had (its edge map: parent id to edge value, the highest value naming the
current parent) and a fractional index that orders it among its siblings.
The tree is rebuilt from that history; nodes caught in cycles are reattached
so that every peer that sees the same document builds the same tree.

## Layout

- `src/` — the library, verified with Verus:
  - `edge_map.rs`: edge maps and their ranking (highest value, then smallest id);
  - `fractional.rs`: fractional indices, made and parsed by the
    `fractional_index` crate;
  - `node.rs`: node ids, and fresh ids from UUIDs;
  - `tree_structure.rs`, `model.rs`: the cached structure and its model;
  - `init.rs`: rebuilding the structure from the document's containers;
  - `update.rs`, `ops.rs`: placing, creating and moving nodes, the queries,
    and the checks that decide the errors of the document operations;
  - `iter.rs`, `render.rs`: depth-first and breadth-first walks, and the
    text form of a tree;
  - `laws.rs`, `tree_laws.rs`, `doc_laws.rs`: what holds of every tree the
    library builds, of depths, and of what writing to the document does.
- `tests/` — tests of the library, some against a real Yrs document.
- `app/` — the document plumbing: `Tree`, `Node`, `NodeApi`, change
  notifications, and the `std` traits.
