//! Many typed tables that share the ordered, byte-keyed keyspace of one
//! `sled::Tree`, with reversible and timestamp-ordered indices on top.
//!
//! Each table has an id, and keeps its entries under keys that begin with
//! the encoded id: the keys of a table form one contiguous run of the tree,
//! so a forward scan from the id meets the table's entries in key order and
//! stops at the first key of another table.
//!
//! The model of the store treats every handle on a tree as the only writer:
//! what another thread writes meanwhile is not accounted for.
use vstd::prelude::*;

pub mod codec;
pub mod order;
pub mod reversible;
pub mod store;
pub mod table;
pub mod timestamp;
pub mod unsigned_binary_search;

pub use codec::{Id, Key, Value};
pub use reversible::Reversible;
pub use table::{write_key, Iter, Reader, Table, Writer};
pub use timestamp::{Timestamp, Timestamped};

verus! {

/// What may go wrong while reading or writing a table.
#[derive(Debug)]
pub enum TableError {
    /// The store failed.
    Sled(sled::Error),
    /// A value could not be encoded, or stored bytes could not be decoded
    /// as a value.
    Bincode(bincode::Error),
    /// Stored bytes that are the encoding of no key.
    KeyEncoding,
}

impl From<sled::Error> for TableError {
    fn from(e: sled::Error) -> (r: TableError) {
        TableError::Sled(e)
    }
}

impl vstd::std_specs::convert::FromSpecImpl<sled::Error> for TableError {
    open spec fn obeys_from_spec() -> bool {
        true
    }

    open spec fn from_spec(e: sled::Error) -> TableError {
        TableError::Sled(e)
    }
}

impl From<bincode::Error> for TableError {
    fn from(e: bincode::Error) -> (r: TableError) {
        TableError::Bincode(e)
    }
}

impl vstd::std_specs::convert::FromSpecImpl<bincode::Error> for TableError {
    open spec fn obeys_from_spec() -> bool {
        true
    }

    open spec fn from_spec(e: bincode::Error) -> TableError {
        TableError::Bincode(e)
    }
}

} // verus!
