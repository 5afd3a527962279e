//! The nodes of a B+ tree in memory. The tree itself is not implemented.
use bytes::Bytes;
use vstd::prelude::*;

verus! {

/// A leaf node.
#[allow(dead_code)]
pub struct MemLeafNode {
    key: Bytes,
    value: Bytes,
}

/// An index node.
#[allow(dead_code)]
pub struct MemIndexNode {
    sep_keys: Vec<Bytes>,
}

} // verus!
