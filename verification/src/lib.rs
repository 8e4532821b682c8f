//! A tree CRDT whose state lives in a Yrs document: each node keeps a
//! history of the parents it has had (its edge map) and a fractional index
//! that orders it among its siblings. The tree is rebuilt from that history;
//! cycles and detached nodes are repaired so that every peer that sees the
//! same document builds the same tree.

pub mod doc_laws;
pub mod edge_map;
pub mod error;
pub mod fractional;
pub mod init;
pub mod iter;
pub mod laws;
pub mod model;
pub mod node;
pub mod ops;
pub mod order;
pub mod query_laws;
pub mod render;
pub mod tree_laws;
pub mod tree_structure;
pub mod walk_laws;
pub mod update;
