//! Two tables kept as mirror images of each other: a key and its value in
//! one are the value and its key in the other.
use vstd::prelude::*;

use core::marker::PhantomData;

use crate::codec::{Key, Value};
use crate::store;
use crate::table::{self, Table};
use crate::TableError;

verus! {

/// An extension to the `Table` trait that allows for conversions in both
/// directions with another table.
pub trait Reversible: Table {
    /// The table used to perform the reverse conversion of this table.
    type ReverseTable: Table<Id = Self::Id, Key = Self::Value, Value = Self::Key>;
}

/// The contents of table `T` in a tree holding `entries`.
pub open spec fn forward<T: Reversible>(entries: Map<Seq<u8>, Seq<u8>>) -> Map<Seq<u8>, Seq<u8>> {
    table::table_view::<T>(entries)
}

/// The contents of the reverse table of `T` in a tree holding `entries`.
pub open spec fn reverse<T: Reversible>(entries: Map<Seq<u8>, Seq<u8>>) -> Map<Seq<u8>, Seq<u8>> {
    table::table_view::<T::ReverseTable>(entries)
}

/// The table and its reverse table have ids that encode to different byte
/// strings of one length.
pub open spec fn distinct_ids<T: Reversible>() -> bool {
    &&& table::id_prefix::<T>() != table::id_prefix::<T::ReverseTable>()
    &&& table::id_prefix::<T>().len() == table::id_prefix::<T::ReverseTable>().len()
}

/// After `set(key, value)` the inverse maps `value` back to `key`: a lookup
/// of `value` in the reverse table finds `key` unless the store fails.
pub proof fn lemma_inverse_lookup<T: Reversible>(
    before: Map<Seq<u8>, Seq<u8>>,
    after: Map<Seq<u8>, Seq<u8>>,
    key: T::Key,
    value: T::Value,
    got: Result<Option<T::Key>, TableError>,
) where T::Key: Value, T::Value: Key
    requires
        reverse::<T>(after) == reverse::<T>(before).insert(
            value.key_bytes(),
            T::Key::value_bytes(key@),
        ),
        T::Key::read_bytes(T::Key::value_bytes(key@)) == Some(key@),
        table::get_result::<T::ReverseTable>(reverse::<T>(after), value.key_bytes(), got),
    ensures
        !(got matches Err(TableError::Sled(_))) ==> (got matches Ok(Some(k)) && k@ == key@),
{
}

/// Read and write access to a reversible table within a `sled::Tree`.
pub struct Writer<T> {
    tree: sled::Tree,
    table: PhantomData<T>,
}

/// Read-only access to a reversible table within a `sled::Tree`.
pub struct Reader<'a, T> {
    tree: &'a sled::Tree,
    table: PhantomData<T>,
}

impl<'a, T> Clone for Reader<'a, T> {
    fn clone(&self) -> (r: Reader<'a, T>) {
        Reader { tree: self.tree, table: PhantomData }
    }
}

impl<T: Reversible> Writer<T> where T::Key: Value, T::Value: Key {
    /// The entries of the tree that the writer reads and writes.
    pub closed spec fn entries(&self) -> Map<Seq<u8>, Seq<u8>> {
        store::tree_entries(self.tree)
    }

    /// Read and write access to reversible table `T` of `tree`.
    pub fn from_tree(tree: sled::Tree) -> (r: Self)
        ensures
            r.entries() == store::tree_entries(tree),
    {
        Writer { tree, table: PhantomData }
    }

    /// Set `key` to `value`, and `value` to `key` in the reverse table.
    ///
    /// Either both the key and the value are new, or both are present: a key
    /// that is present with a value that is not, or the other way round,
    /// would break the pairing, and is not accepted.
    pub fn set(&mut self, key: &T::Key, value: &T::Value) -> (r: Result<(), TableError>)
        requires
            distinct_ids::<T>(),
            forward::<T>(old(self).entries()).contains_key(key.key_bytes()) == reverse::<T>(
                old(self).entries(),
            ).contains_key(value.key_bytes()),
        ensures
            r is Ok ==> forward::<T>(final(self).entries()) == forward::<T>(
                old(self).entries(),
            ).insert(key.key_bytes(), T::Value::value_bytes(value@)),
            r is Ok ==> reverse::<T>(final(self).entries()) == reverse::<T>(
                old(self).entries(),
            ).insert(value.key_bytes(), T::Key::value_bytes(key@)),
            r is Ok ==> T::Value::read_bytes(T::Value::value_bytes(value@)) == Some(value@),
            r is Ok ==> T::Key::read_bytes(T::Key::value_bytes(key@)) == Some(key@),
            r matches Err(e) ==> e is Sled || e is Bincode,
    {
        let ghost before = store::tree_entries(self.tree);
        match table::set_in::<T>(&mut self.tree, key, value) {
            Ok(()) => {},
            Err(e) => return Err(e),
        }
        let ghost middle = store::tree_entries(self.tree);
        proof {
            table::lemma_isolation::<T, T::ReverseTable>(
                before,
                key.key_bytes(),
                T::Value::value_bytes(value@),
            );
        }
        let r = table::set_in::<T::ReverseTable>(&mut self.tree, value, key);
        proof {
            table::lemma_isolation::<T::ReverseTable, T>(
                middle,
                value.key_bytes(),
                T::Key::value_bytes(key@),
            );
        }
        r
    }

    /// Remove the entry for `key`, and the mirrored entry of its value from
    /// the reverse table. Gives back the value that `key` held.
    pub fn del(&mut self, key: &T::Key) -> (r: Result<Option<T::Value>, TableError>)
        requires
            distinct_ids::<T>(),
        ensures
            table::get_result::<T>(forward::<T>(old(self).entries()), key.key_bytes(), r),
            r matches Ok(None) ==> final(self).entries() == old(self).entries(),
            r matches Ok(Some(v)) ==> forward::<T>(final(self).entries()) == forward::<T>(
                old(self).entries(),
            ).remove(key.key_bytes()),
            r matches Ok(Some(v)) ==> reverse::<T>(final(self).entries()) == reverse::<T>(
                old(self).entries(),
            ).remove(v.key_bytes()),
            r matches Err(TableError::Bincode(_)) ==> forward::<T>(final(self).entries())
                == forward::<T>(old(self).entries()).remove(key.key_bytes()) && reverse::<T>(
                final(self).entries(),
            ) == reverse::<T>(old(self).entries()),
    {
        let ghost before = store::tree_entries(self.tree);
        let removed = table::del_in::<T>(&mut self.tree, key);
        proof {
            table::lemma_isolation::<T, T::ReverseTable>(
                before,
                key.key_bytes(),
                Seq::empty(),
            );
        }
        match removed {
            Ok(Some(value)) => {
                let ghost middle = store::tree_entries(self.tree);
                // The mirrored entry is removed even where its value does not
                // decode; that value is not needed, so only a store failure
                // is an error here.
                match table::del_in::<T::ReverseTable>(&mut self.tree, &value) {
                    Err(TableError::Sled(e)) => return Err(TableError::Sled(e)),
                    _ => {},
                }
                proof {
                    table::lemma_isolation::<T::ReverseTable, T>(
                        middle,
                        value.key_bytes(),
                        Seq::empty(),
                    );
                }
                Ok(Some(value))
            },
            Ok(None) => {
                proof {
                    assert(store::tree_entries(self.tree) =~= before);
                }
                Ok(None)
            },
            Err(e) => Err(e),
        }
    }

    /// Retrieve the value stored under `key`, if there is one.
    pub fn get(&self, key: &T::Key) -> (r: Result<Option<T::Value>, TableError>)
        ensures
            table::get_result::<T>(forward::<T>(self.entries()), key.key_bytes(), r),
    {
        table::get_in::<T>(&self.tree, key)
    }

    /// Read-only access to the forward table, for iteration and lookups.
    pub fn table(&self) -> (r: table::Reader<'_, T>)
        ensures
            r.entries() == self.entries(),
    {
        table::Reader::from_tree(&self.tree)
    }

    /// The same pair of tables with their roles swapped: values become keys.
    /// The writer moves into the inverse, which holds the same tree.
    pub fn inv(self) -> (r: Writer<T::ReverseTable>) where
        T::ReverseTable: Reversible<ReverseTable = T>,

        ensures
            r.entries() == self.entries(),
    {
        Writer { tree: self.tree, table: PhantomData }
    }

    /// Read-only access to the same pair of tables.
    pub fn reader(&self) -> (r: Reader<'_, T>)
        ensures
            r.entries() == self.entries(),
    {
        Reader { tree: &self.tree, table: PhantomData }
    }
}

impl<'a, T: Reversible> Reader<'a, T> where T::Key: Value, T::Value: Key {
    /// The entries of the tree that the reader reads.
    pub closed spec fn entries(&self) -> Map<Seq<u8>, Seq<u8>> {
        store::tree_entries(*self.tree)
    }

    /// Read-only access to reversible table `T` of `tree`.
    pub fn from_tree(tree: &'a sled::Tree) -> (r: Self)
        ensures
            r.entries() == store::tree_entries(*tree),
    {
        Reader { tree, table: PhantomData }
    }

    /// Retrieve the value stored under `key`, if there is one.
    pub fn get(&self, key: &T::Key) -> (r: Result<Option<T::Value>, TableError>)
        ensures
            table::get_result::<T>(forward::<T>(self.entries()), key.key_bytes(), r),
    {
        table::get_in::<T>(self.tree, key)
    }

    /// Read-only access to the forward table, for iteration and lookups.
    pub fn table(&self) -> (r: table::Reader<'a, T>)
        ensures
            r.entries() == self.entries(),
    {
        table::Reader::from_tree(self.tree)
    }

    /// Read-only access to the inverse of this table, with values as keys.
    pub fn inv(&self) -> (r: Reader<'a, T::ReverseTable>) where
        T::ReverseTable: Reversible<ReverseTable = T>,

        ensures
            r.entries() == self.entries(),
    {
        Reader { tree: self.tree, table: PhantomData }
    }
}

} // verus!
