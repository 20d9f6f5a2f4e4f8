//! Building blocks for intrusive queues whose linkage lives inside the
//! elements: link storage, the translation between the address of a node and
//! the address of its embedded link, a claim protocol that keeps one node from
//! being linked twice, and a multi-producer/single-consumer queue on top.
//!
//! Addresses are plain non-zero `usize` values. The queue keeps the link cells
//! it can reach in a table keyed by address, and every operation is one or
//! more whole steps on that table, so that each interleaving of producers and
//! consumer is a sequence of calls.

pub mod cell;
pub mod dyn_link;
pub mod mpsc_queue;
pub mod node;
pub mod queue_view;

pub use node::{
    acquire, container_of, field_of, settle_claim, AcquireError, Acquired, Node, Pointer, UnsafeRef,
};
