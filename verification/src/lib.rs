//! Compare XML documents without regard to sibling order.
//!
//! Two parsed documents are matched structurally: every node gets an
//! order-independent content fingerprint of its whole subtree, and a
//! recursive matcher pairs corresponding subtrees by those fingerprints,
//! never by position. The result is a flat script of insert, delete,
//! update and root-replacement operations turning the first document into
//! the second.
//!
//! - [`tree`] holds the node model: one arena per document, with elements,
//!   attribute pseudo-children and text nodes behind a uniform child list.
//! - [`digest`] holds the fingerprints and their commutative, associative
//!   combiner.
//! - [`diff`] holds the hash index and the matching engine, specified
//!   exactly by its specification functions.
//! - [`laws`] states and proves what the engine guarantees: identity,
//!   determinism, order-insensitivity, the root-mismatch sentinel, and the
//!   single-update answer to a leaf value change.
//! - [`print`] holds the options a renderer honors.

pub mod diff;
pub mod digest;
pub mod laws;
pub mod print;
pub mod tree;

pub use diff::{calculate_hash_table, diff, Edit};
pub use digest::Digest;
