//! The object model of a content-addressed version-control store: hashing,
//! compression, object framing, tree-entry encoding and decoding, and the
//! serialisation of a directory into tree objects.
//!
//! Nothing here touches the file system. Functions that stand for a store
//! operation take what was found on disk as plain values and hand back what
//! is to be written.

pub mod bytes;
pub mod codec;
pub mod error;
pub mod hasher;
pub mod hex;
pub mod object;
pub mod store;
pub mod tree;
pub mod walk;
