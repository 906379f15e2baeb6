//! List nodes with counted handles, kept in an arena.
//!
//! A list node is a [`Record`] in an [`Arena`]. Records name their
//! neighbours by position: `link_next` and `link_prev` are the list itself,
//! `liveness_next` and `liveness_prev` follow the links between records that
//! still have handles. A [`Node`] is a handle to one record, and the record
//! counts its handles.
//!
//! Two adjacent records name each other, so counting handles alone never
//! lets go of a chain. [`Node::release`] therefore watches the liveness
//! chain: the last handle of a record that stands alone in it triggers
//! [`reclaim`](reclaim::reclaim), which empties every link of the record's
//! chain. [`Node::connect`] does the same for a neighbour that it detaches
//! and that no handle stands behind.
//!
//! Every operation is specified as a function on the arena's view, a
//! sequence of records, in [`model`]. What follows from these functions is
//! stated and proved in [`laws`], with the groundwork in [`lemmas`].

pub mod arena;
pub mod laws;
pub mod lemmas;
pub mod model;
pub mod node;
pub mod reclaim;
pub mod record;

pub use arena::Arena;
pub use node::Node;
pub use record::Record;
