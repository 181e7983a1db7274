//! A segmented, pointer-stable list and the bump-allocation arithmetic that
//! backs it.
//!
//! The list stores its elements in a chain of geometrically growing blocks,
//! so a grown list never moves an element that was already written.  The
//! arena serves byte requests by bumping a cursor through doubling blocks.
//! Both components share the same doubling geometry, kept in [`growth`].

/// Arithmetic of doubling block chains: capacities, start offsets, and the
/// block that holds a given position.
pub mod growth;

/// The segmented list: a growable container whose elements never move.
pub mod list;

/// The bump-allocation arena that backs segmented storage with doubling
/// byte blocks.
pub mod arena;

/// Protection and sharing words for the page mappings that realise the
/// arena's blocks.
pub mod mmap;
