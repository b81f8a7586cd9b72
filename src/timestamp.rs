//! A table whose entries are also indexed by a timestamp taken from each
//! value, kept in a second table of the same tree.
use vstd::prelude::*;

use core::marker::PhantomData;
use vstd::arithmetic::power2::pow2;

use crate::codec::{self, Key as KeyCodec, Value};
use crate::order;
use crate::store;
use crate::table::{self, Table};
use crate::unsigned_binary_search::{self as search, UnsignedBinarySearchKey, UnsignedInteger};
use crate::TableError;

verus! {

/// Keys that have a known least value.
pub trait MinKey: KeyCodec {
    open spec fn spec_min_key() -> Self {
        vstd::pervasive::arbitrary()
    }

    /// The least value that a key can be.
    fn min_key() -> (r: Self)
        ensures
            r == Self::spec_min_key(),
    ;
}

/// Types that may be used as a timestamp: keys of a fixed width, so that an
/// index key splits into its timestamp and the rest.
pub trait Timestamp: MinKey {
    /// The width of the encoding of every timestamp.
    open spec fn spec_width() -> nat {
        vstd::pervasive::arbitrary()
    }

    /// The width of the encoding of every timestamp.
    fn width() -> (r: usize)
        ensures
            r == Self::spec_width(),
            forall|t: Self| #[trigger] t.key_bytes().len() == Self::spec_width(),
    ;

    /// The next timestamp after `self`; `None` after the last one.
    fn next(&self) -> (r: Option<Self>)
        ensures
            r matches Some(n) ==> order::lex_lt(self.key_bytes(), n.key_bytes()),
            r matches Some(n) ==> forall|t: Self|
                order::lex_lt(self.key_bytes(), #[trigger] t.key_bytes()) ==> order::lex_le(
                    n.key_bytes(),
                    t.key_bytes(),
                ),
            r is None ==> forall|t: Self| !order::lex_lt(self.key_bytes(), #[trigger] t.key_bytes()),
    ;
}

/// Every timestamp of type `T` encodes to the same number of bytes.
pub open spec fn fixed_width<T: Timestamp>() -> bool {
    forall|t: T| #[trigger] t.key_bytes().len() == T::spec_width()
}

/// Every timestamp of type `T` encodes to the same number of bytes: what
/// `width` states, brought into a proof.
fn timestamps_have_fixed_width<T: Timestamp>()
    ensures
        fixed_width::<T>(),
{
    T::width();
}

/// A key along with its associated timestamp: the key by which the
/// timestamp index of a table is ordered.
pub struct Key<T, K> {
    pub timestamp: T,
    pub key: K,
}

/// The encoding of a timestamp index key: the timestamp, then the key.
pub open spec fn index_key(ts: Seq<u8>, k: Seq<u8>) -> Seq<u8> {
    ts + k
}

impl<T: Timestamp, K: KeyCodec> KeyCodec for Key<T, K> {
    open spec fn key_bytes(&self) -> Seq<u8> {
        index_key(self.timestamp.key_bytes(), self.key.key_bytes())
    }

    fn write_key(&self) -> (r: Vec<u8>) {
        let mut bytes = self.timestamp.write_key();
        let mut rest = self.key.write_key();
        bytes.append(&mut rest);
        bytes
    }

    fn read_key(bytes: &[u8]) -> (r: Option<Key<T, K>>) {
        let width = T::width();
        if bytes.len() < width {
            proof {
                assert forall|k: Key<T, K>| #[trigger] k.key_bytes() != bytes@ by {
                    assert(k.timestamp.key_bytes().len() == width);
                }
            }
            return None;
        }
        let ts_bytes = vstd::slice::slice_subrange(bytes, 0, width);
        let key_bytes = vstd::slice::slice_subrange(bytes, width, bytes.len());
        proof {
            assert(bytes@ =~= ts_bytes@ + key_bytes@);
            assert forall|k: Key<T, K>| #[trigger] k.key_bytes() == bytes@ implies k.timestamp.key_bytes()
                == ts_bytes@ && k.key.key_bytes() == key_bytes@ by {
                assert(k.timestamp.key_bytes().len() == width);
                assert(k.timestamp.key_bytes() =~= bytes@.subrange(0, width as int));
                assert(k.key.key_bytes() =~= bytes@.subrange(width as int, bytes@.len() as int));
            }
        }
        match T::read_key(ts_bytes) {
            None => None,
            Some(timestamp) => match K::read_key(key_bytes) {
                None => None,
                Some(key) => Some(Key { timestamp, key }),
            },
        }
    }
}

impl<T, K> From<(T, K)> for Key<T, K> {
    fn from(pair: (T, K)) -> (r: Key<T, K>) {
        let (timestamp, key) = pair;
        Key { timestamp, key }
    }
}

impl<T, K> vstd::std_specs::convert::FromSpecImpl<(T, K)> for Key<T, K> {
    open spec fn obeys_from_spec() -> bool {
        true
    }

    open spec fn from_spec(pair: (T, K)) -> Key<T, K> {
        Key { timestamp: pair.0, key: pair.1 }
    }
}

impl MinKey for u64 {
    open spec fn spec_min_key() -> u64 {
        0
    }

    fn min_key() -> (r: u64) {
        0
    }
}

impl MinKey for u16 {
    open spec fn spec_min_key() -> u16 {
        0
    }

    fn min_key() -> (r: u16) {
        0
    }
}

impl MinKey for u32 {
    open spec fn spec_min_key() -> u32 {
        0
    }

    fn min_key() -> (r: u32) {
        0
    }
}

impl MinKey for u8 {
    open spec fn spec_min_key() -> u8 {
        0
    }

    fn min_key() -> (r: u8) {
        0
    }
}

impl Timestamp for u64 {
    open spec fn spec_width() -> nat {
        8
    }

    fn width() -> (r: usize) {
        proof {
            assert forall|t: u64| #[trigger] t.key_bytes().len() == 8 by {
                codec::lemma_be_len(t as nat, 8);
            }
        }
        8
    }

    fn next(&self) -> (r: Option<u64>) {
        proof {
            assert(codec::pow256(8) == 0x1_0000_0000_0000_0000) by {
                reveal_with_fuel(codec::pow256, 9);
            }
        }
        if *self == u64::MAX {
            proof {
                assert forall|t: u64| !order::lex_lt(self.key_bytes(), #[trigger] t.key_bytes()) by {
                    if t < *self {
                        codec::lemma_be_order(t as nat, *self as nat, 8);
                        order::lemma_lt_asymmetric(t.key_bytes(), self.key_bytes());
                    } else {
                        order::lemma_lt_irreflexive(self.key_bytes());
                    }
                }
            }
            None
        } else {
            let n = *self + 1;
            proof {
                codec::lemma_be_order(*self as nat, n as nat, 8);
                assert forall|t: u64| order::lex_lt(self.key_bytes(), #[trigger] t.key_bytes()) implies order::lex_le(
                    n.key_bytes(),
                    t.key_bytes(),
                ) by {
                    if t > n {
                        codec::lemma_be_order(n as nat, t as nat, 8);
                    } else if t < n {
                        if t < *self {
                            codec::lemma_be_order(t as nat, *self as nat, 8);
                            order::lemma_lt_asymmetric(t.key_bytes(), self.key_bytes());
                        } else {
                            order::lemma_lt_irreflexive(self.key_bytes());
                        }
                    }
                }
            }
            Some(n)
        }
    }
}

/// An extension to the `Table` trait that indexes each entry of the table by
/// a timestamp taken from its value, in a second table.
///
/// The resulting table may be searched both by its own key and by timestamp.
pub trait Timestamped: Table {
    /// The timestamp type used to order entries.
    type Timestamp: Timestamp;
    /// The table that indexes the entries of `Self` by timestamp.
    type TimestampTable: Table<Id = Self::Id, Key = Key<Self::Timestamp, Self::Key>, Value = ()>;

    /// The timestamp of a value.
    open spec fn timestamp_of(value: <Self::Value as View>::V) -> Self::Timestamp {
        vstd::pervasive::arbitrary()
    }

    /// Given a reference to a value, provide its timestamp.
    fn value_timestamp(value: &Self::Value) -> (r: Self::Timestamp)
        ensures
            r == Self::timestamp_of(value@),
    ;
}

/// The contents of table `T` in a tree holding `entries`.
pub open spec fn primary<T: Timestamped>(entries: Map<Seq<u8>, Seq<u8>>) -> Map<Seq<u8>, Seq<u8>> {
    table::table_view::<T>(entries)
}

/// The contents of the timestamp index of `T` in a tree holding `entries`.
pub open spec fn index<T: Timestamped>(entries: Map<Seq<u8>, Seq<u8>>) -> Map<Seq<u8>, Seq<u8>> {
    table::table_view::<T::TimestampTable>(entries)
}

/// The encoded timestamp of the value that `bytes` decode to, if they do.
pub open spec fn stamp_of<T: Timestamped>(bytes: Seq<u8>) -> Option<Seq<u8>> {
    match T::Value::read_bytes(bytes) {
        Some(v) => Some(T::timestamp_of(v).key_bytes()),
        None => None,
    }
}

/// The encoded timestamp at the front of an index key.
pub open spec fn stamp_part<T: Timestamped>(j: Seq<u8>) -> Seq<u8> {
    j.subrange(0, T::Timestamp::spec_width() as int)
}

/// The encoded key after the timestamp of an index key.
pub open spec fn key_part<T: Timestamped>(j: Seq<u8>) -> Seq<u8> {
    j.subrange(T::Timestamp::spec_width() as int, j.len() as int)
}

/// The index and the table agree: each index key is the timestamp of the
/// value stored under its key, and each entry of the table has its index
/// key.
pub open spec fn consistent<T: Timestamped>(entries: Map<Seq<u8>, Seq<u8>>) -> bool {
    &&& forall|j: Seq<u8>|
        #[trigger] index::<T>(entries).contains_key(j) ==> {
            &&& j.len() >= T::Timestamp::spec_width()
            &&& primary::<T>(entries).contains_key(key_part::<T>(j))
            &&& stamp_of::<T>(primary::<T>(entries)[key_part::<T>(j)]) == Some(stamp_part::<T>(j))
        }
    &&& forall|k: Seq<u8>|
        #[trigger] primary::<T>(entries).contains_key(k) ==> (stamp_of::<T>(primary::<T>(entries)[k]) matches Some(
            ts,
        ) && index::<T>(entries).contains_key(index_key(ts, k)))
}

/// The index after the key encoded as `k` is set to a value with encoded
/// timestamp `ts`: the index key of the value it held, if any, is gone, and
/// the index key of the new value is there.
pub open spec fn index_after_set<T: Timestamped>(
    entries: Map<Seq<u8>, Seq<u8>>,
    k: Seq<u8>,
    ts: Seq<u8>,
) -> Map<Seq<u8>, Seq<u8>> {
    let cleared = match stamp_of::<T>(primary::<T>(entries)[k]) {
        Some(old_ts) => if primary::<T>(entries).contains_key(k) {
            index::<T>(entries).remove(index_key(old_ts, k))
        } else {
            index::<T>(entries)
        },
        None => index::<T>(entries),
    };
    cleared.insert(index_key(ts, k), Seq::empty())
}

/// The table and its index have ids that encode to different byte strings
/// of one length.
pub open spec fn distinct_ids<T: Timestamped>() -> bool {
    &&& table::id_prefix::<T>() != table::id_prefix::<T::TimestampTable>()
    &&& table::id_prefix::<T>().len() == table::id_prefix::<T::TimestampTable>().len()
}

/// A tree without entries holds a table and an index that agree, so a
/// timestamped table may start from an empty tree.
pub proof fn lemma_empty_consistent<T: Timestamped>()
    ensures
        consistent::<T>(Map::empty()),
{
    assert(primary::<T>(Map::empty()) =~= Map::empty());
    assert(index::<T>(Map::empty()) =~= Map::empty());
}

/// An index key splits back into its timestamp and its key.
proof fn lemma_index_key_split<T: Timestamped>(ts: Seq<u8>, k: Seq<u8>)
    requires
        ts.len() == T::Timestamp::spec_width(),
    ensures
        stamp_part::<T>(index_key(ts, k)) == ts,
        key_part::<T>(index_key(ts, k)) == k,
        index_key(ts, k).len() >= T::Timestamp::spec_width(),
{
    assert(stamp_part::<T>(index_key(ts, k)) =~= ts);
    assert(key_part::<T>(index_key(ts, k)) =~= k);
}

/// An index key is its timestamp followed by its key.
proof fn lemma_index_key_join<T: Timestamped>(j: Seq<u8>)
    requires
        j.len() >= T::Timestamp::spec_width(),
    ensures
        j == index_key(stamp_part::<T>(j), key_part::<T>(j)),
{
    assert(j =~= index_key(stamp_part::<T>(j), key_part::<T>(j)));
}

/// Every encoded timestamp has the width of the type.
proof fn lemma_stamp_width<T: Timestamped>(bytes: Seq<u8>)
    requires
        fixed_width::<T::Timestamp>(),
    ensures
        stamp_of::<T>(bytes) matches Some(ts) ==> ts.len() == T::Timestamp::spec_width(),
{
    if let Some(v) = T::Value::read_bytes(bytes) {
        assert(T::timestamp_of(v).key_bytes().len() == T::Timestamp::spec_width());
    }
}

/// Read and write access to a timestamped table within a `sled::Tree`.
pub struct Writer<T> {
    tree: sled::Tree,
    table: PhantomData<T>,
}

impl<'a, T> Clone for Reader<'a, T> {
    fn clone(&self) -> (r: Reader<'a, T>) {
        Reader { tree: self.tree, table: PhantomData }
    }
}

impl<T: Timestamped> Writer<T> {
    /// The entries of the tree that the writer reads and writes.
    pub closed spec fn entries(&self) -> Map<Seq<u8>, Seq<u8>> {
        store::tree_entries(self.tree)
    }

    /// Read and write access to timestamped table `T` of `tree`.
    pub fn from_tree(tree: sled::Tree) -> (r: Self)
        ensures
            r.entries() == store::tree_entries(tree),
    {
        Writer { tree, table: PhantomData }
    }

    /// Set `key` to `value`, and index it by the timestamp of `value`.
    ///
    /// Where `key` held a value before, the index entry for the timestamp of
    /// that value is removed first, so that the index keeps agreeing with the
    /// table when an update changes the timestamp.
    pub fn set(&mut self, key: &T::Key, value: &T::Value) -> (r: Result<(), TableError>)
        requires
            distinct_ids::<T>(),
            consistent::<T>(old(self).entries()),
        ensures
            r is Ok ==> consistent::<T>(final(self).entries()),
            r is Ok ==> primary::<T>(final(self).entries()) == primary::<T>(
                old(self).entries(),
            ).insert(key.key_bytes(), T::Value::value_bytes(value@)),
            r is Ok ==> T::Value::read_bytes(T::Value::value_bytes(value@)) == Some(value@),
            r is Ok ==> index::<T>(final(self).entries()) == index_after_set::<T>(
                old(self).entries(),
                key.key_bytes(),
                T::timestamp_of(value@).key_bytes(),
            ),
            r matches Err(e) ==> e is Sled || e is Bincode,
    {
        timestamps_have_fixed_width::<T::Timestamp>();
        let ghost e0 = store::tree_entries(self.tree);
        let ghost kb = key.key_bytes();
        let timestamp = T::value_timestamp(value);
        let mut new_index_key = timestamp.write_key();
        let mut key_bytes = key.write_key();
        new_index_key.append(&mut key_bytes);
        let ghost ts_new = timestamp.key_bytes();
        proof {
            assert(timestamp.key_bytes().len() == T::Timestamp::spec_width());
            lemma_index_key_split::<T>(ts_new, kb);
        }
        match table::get_in::<T>(&self.tree, key) {
            Err(e) => return Err(e),
            Ok(None) => {},
            Ok(Some(old_value)) => {
                let old_timestamp = T::value_timestamp(&old_value);
                let mut old_index_key = old_timestamp.write_key();
                let mut key_bytes = key.write_key();
                old_index_key.append(&mut key_bytes);
                let ghost before = store::tree_entries(self.tree);
                match table::remove_raw::<T::TimestampTable>(&mut self.tree, old_index_key.as_slice()) {
                    Ok(()) => {},
                    Err(e) => return Err(e),
                }
                proof {
                    table::lemma_isolation::<T::TimestampTable, T>(
                        before,
                        old_index_key@,
                        Seq::empty(),
                    );
                    assert(old_timestamp.key_bytes().len() == T::Timestamp::spec_width());
                    lemma_index_key_split::<T>(old_timestamp.key_bytes(), kb);
                }
            },
        }
        let ghost e1 = store::tree_entries(self.tree);
        match table::set_in::<T>(&mut self.tree, key, value) {
            Ok(()) => {},
            Err(e) => return Err(e),
        }
        let ghost e2 = store::tree_entries(self.tree);
        proof {
            table::lemma_isolation::<T, T::TimestampTable>(
                e1,
                kb,
                T::Value::value_bytes(value@),
            );
        }
        let unit_bytes = match ().write_value() {
            Ok(b) => b,
            Err(e) => return Err(e),
        };
        match table::put_raw::<T::TimestampTable>(&mut self.tree, new_index_key.as_slice(), unit_bytes) {
            Ok(()) => {},
            Err(e) => return Err(e),
        }
        let ghost e3 = store::tree_entries(self.tree);
        proof {
            table::lemma_isolation::<T::TimestampTable, T>(e2, new_index_key@, unit_bytes@);
            assert(unit_bytes@ =~= Seq::<u8>::empty());
            let table3 = primary::<T>(e3);
            let index3 = index::<T>(e3);
            let table0 = primary::<T>(e0);
            let index0 = index::<T>(e0);
            assert(stamp_of::<T>(table3[kb]) == Some(ts_new));
            assert forall|j: Seq<u8>| #[trigger] index3.contains_key(j) implies {
                &&& j.len() >= T::Timestamp::spec_width()
                &&& table3.contains_key(key_part::<T>(j))
                &&& stamp_of::<T>(table3[key_part::<T>(j)]) == Some(stamp_part::<T>(j))
            } by {
                if j != new_index_key@ {
                    assert(index0.contains_key(j));
                    let k2 = key_part::<T>(j);
                    if k2 == kb {
                        lemma_index_key_join::<T>(j);
                        lemma_stamp_width::<T>(table0[kb]);
                    }
                }
            }
            assert forall|k2: Seq<u8>| #[trigger] table3.contains_key(k2) implies (stamp_of::<T>(
                table3[k2],
            ) matches Some(ts) && index3.contains_key(index_key(ts, k2))) by {
                if k2 != kb {
                    assert(table0.contains_key(k2));
                    let ts = stamp_of::<T>(table0[k2])->0;
                    lemma_stamp_width::<T>(table0[k2]);
                    lemma_index_key_split::<T>(ts, k2);
                    assert(index0.contains_key(index_key(ts, k2)));
                }
            }
        }
        Ok(())
    }

    /// Remove the entry for `key`, if there is one, along with its index
    /// entry, and give back its value.
    pub fn del(&mut self, key: &T::Key) -> (r: Result<Option<T::Value>, TableError>)
        requires
            distinct_ids::<T>(),
            consistent::<T>(old(self).entries()),
        ensures
            table::get_result::<T>(primary::<T>(old(self).entries()), key.key_bytes(), r),
            r is Ok ==> consistent::<T>(final(self).entries()),
            r matches Ok(None) ==> final(self).entries() == old(self).entries(),
            r matches Ok(Some(v)) ==> primary::<T>(final(self).entries()) == primary::<T>(
                old(self).entries(),
            ).remove(key.key_bytes()),
            r matches Ok(Some(v)) ==> index::<T>(final(self).entries()) == index::<T>(
                old(self).entries(),
            ).remove(index_key(T::timestamp_of(v@).key_bytes(), key.key_bytes())),
    {
        timestamps_have_fixed_width::<T::Timestamp>();
        let ghost e0 = store::tree_entries(self.tree);
        let ghost kb = key.key_bytes();
        match table::del_in::<T>(&mut self.tree, key) {
            Err(e) => Err(e),
            Ok(None) => {
                proof {
                    assert(!e0.contains_key(table::physical_key::<T>(kb)));
                    assert(store::tree_entries(self.tree) =~= e0);
                }
                Ok(None)
            },
            Ok(Some(value)) => {
                let ghost e1 = store::tree_entries(self.tree);
                proof {
                    table::lemma_isolation::<T, T::TimestampTable>(e0, kb, Seq::empty());
                }
                let timestamp = T::value_timestamp(&value);
                let mut index_key_bytes = timestamp.write_key();
                let mut key_bytes = key.write_key();
                index_key_bytes.append(&mut key_bytes);
                match table::remove_raw::<T::TimestampTable>(&mut self.tree, index_key_bytes.as_slice()) {
                    Ok(()) => {},
                    Err(e) => return Err(e),
                }
                let ghost e2 = store::tree_entries(self.tree);
                proof {
                    table::lemma_isolation::<T::TimestampTable, T>(
                        e1,
                        index_key_bytes@,
                        Seq::empty(),
                    );
                    let ts = timestamp.key_bytes();
                    assert(timestamp.key_bytes().len() == T::Timestamp::spec_width());
                    lemma_index_key_split::<T>(ts, kb);
                    let table0 = primary::<T>(e0);
                    let index0 = index::<T>(e0);
                    let table2 = primary::<T>(e2);
                    let index2 = index::<T>(e2);
                    assert forall|j: Seq<u8>| #[trigger] index2.contains_key(j) implies {
                        &&& j.len() >= T::Timestamp::spec_width()
                        &&& table2.contains_key(key_part::<T>(j))
                        &&& stamp_of::<T>(table2[key_part::<T>(j)]) == Some(stamp_part::<T>(j))
                    } by {
                        assert(index0.contains_key(j));
                        if key_part::<T>(j) == kb {
                            lemma_index_key_join::<T>(j);
                        }
                    }
                    assert forall|k2: Seq<u8>| #[trigger] table2.contains_key(k2) implies (stamp_of::<T>(
                        table2[k2],
                    ) matches Some(s2) && index2.contains_key(index_key(s2, k2))) by {
                        assert(table0.contains_key(k2));
                        let s2 = stamp_of::<T>(table0[k2])->0;
                        lemma_stamp_width::<T>(table0[k2]);
                        lemma_index_key_split::<T>(s2, k2);
                        assert(index0.contains_key(index_key(s2, k2)));
                    }
                }
                Ok(Some(value))
            },
        }
    }
}

/// Types that may be used to describe a timestamp range.
pub trait RangeBounds<T> {
    spec fn spec_start(&self) -> Option<T>;

    spec fn spec_end(&self) -> Option<T>;

    /// The lower bound, included. `None` if there is no lower bound.
    fn start_inclusive(&self) -> (r: Option<T>)
        ensures
            r == self.spec_start(),
    ;

    /// The upper bound, excluded. `None` if there is no upper bound.
    fn end_exclusive(&self) -> (r: Option<T>)
        ensures
            r == self.spec_end(),
    ;
}

#[verifier::external_type_specification]
pub struct ExRangeFrom<Idx>(core::ops::RangeFrom<Idx>);

#[verifier::external_type_specification]
pub struct ExRangeTo<Idx>(core::ops::RangeTo<Idx>);

#[verifier::external_type_specification]
pub struct ExRangeFull(core::ops::RangeFull);

impl<T: Copy> RangeBounds<T> for core::ops::Range<T> {
    open spec fn spec_start(&self) -> Option<T> {
        Some(self.start)
    }

    open spec fn spec_end(&self) -> Option<T> {
        Some(self.end)
    }

    fn start_inclusive(&self) -> (r: Option<T>) {
        Some(self.start)
    }

    fn end_exclusive(&self) -> (r: Option<T>) {
        Some(self.end)
    }
}

impl<T: Copy> RangeBounds<T> for core::ops::RangeFrom<T> {
    open spec fn spec_start(&self) -> Option<T> {
        Some(self.start)
    }

    open spec fn spec_end(&self) -> Option<T> {
        None
    }

    fn start_inclusive(&self) -> (r: Option<T>) {
        Some(self.start)
    }

    fn end_exclusive(&self) -> (r: Option<T>) {
        None
    }
}

impl<T: Copy> RangeBounds<T> for core::ops::RangeTo<T> {
    open spec fn spec_start(&self) -> Option<T> {
        None
    }

    open spec fn spec_end(&self) -> Option<T> {
        Some(self.end)
    }

    fn start_inclusive(&self) -> (r: Option<T>) {
        None
    }

    fn end_exclusive(&self) -> (r: Option<T>) {
        Some(self.end)
    }
}

impl<T> RangeBounds<T> for core::ops::RangeFull {
    open spec fn spec_start(&self) -> Option<T> {
        None
    }

    open spec fn spec_end(&self) -> Option<T> {
        None
    }

    fn start_inclusive(&self) -> (r: Option<T>) {
        None
    }

    fn end_exclusive(&self) -> (r: Option<T>) {
        None
    }
}

/// The first index key of `index` at or after `start` is the encoding of no
/// index key.
pub open spec fn undecodable_first<T: Timestamped>(index: Map<Seq<u8>, Seq<u8>>, start: Seq<u8>) -> bool {
    exists|j: Seq<u8>|
        store::is_first_from(index, start, j) && forall|k: Key<T::Timestamp, T::Key>|
            #[trigger] k.key_bytes() != j
}

/// `r` is what the next step of a timestamp-ordered iteration from
/// `position` gives, over a tree holding `entries`: the entry whose index key
/// comes first at or after `position`.
pub open spec fn step_result<T: Timestamped>(
    entries: Map<Seq<u8>, Seq<u8>>,
    position: Seq<u8>,
    r: Option<Result<(T::Key, T::Value), TableError>>,
) -> bool {
    match r {
        None => store::none_from(index::<T>(entries), position),
        Some(Ok((k, v))) => {
            &&& store::is_first_from(
                index::<T>(entries),
                position,
                index_key(T::timestamp_of(v@).key_bytes(), k.key_bytes()),
            )
            &&& primary::<T>(entries).contains_key(k.key_bytes())
            &&& T::Value::read_bytes(primary::<T>(entries)[k.key_bytes()]) == Some(v@)
        },
        Some(Err(e)) => e is Sled || (e is KeyEncoding && undecodable_first::<T>(
            index::<T>(entries),
            position,
        )),
    }
}

/// Iterate over the entries of table `T` in the order of their timestamps.
pub struct Iter<'a, T: Timestamped> {
    index: table::Iter<'a, T::TimestampTable>,
    tree: &'a sled::Tree,
}

/// Iterate over the entries of table `T` in the order of their timestamps,
/// as long as the timestamp lies before an upper bound.
pub struct IterRange<'a, T: Timestamped> {
    iter: Iter<'a, T>,
    end_exclusive: Option<T::Timestamp>,
}

impl<'a, T: Timestamped> Iter<'a, T> {
    /// The entries of the tree that the iterator reads.
    pub closed spec fn entries(&self) -> Map<Seq<u8>, Seq<u8>> {
        store::tree_entries(*self.tree)
    }

    /// The index key at or after which the next entry is looked for.
    pub closed spec fn position(&self) -> Seq<u8> {
        self.index.position()
    }

    /// Whether the sequence has ended.
    pub closed spec fn is_done(&self) -> bool {
        self.index.is_done()
    }

    /// The index and the table are read from the same tree.
    pub closed spec fn wf(&self) -> bool {
        self.index.entries() == store::tree_entries(*self.tree)
    }

    /// The entry whose index key comes next, and the position moves past it.
    pub fn next(&mut self) -> (r: Option<Result<(T::Key, T::Value), TableError>>)
        requires
            old(self).wf(),
            consistent::<T>(old(self).entries()),
        ensures
            final(self).wf(),
            final(self).entries() == old(self).entries(),
            old(self).is_done() ==> r is None && final(self).is_done(),
            !old(self).is_done() ==> step_result::<T>(old(self).entries(), old(self).position(), r),
            r matches Some(Ok(kv)) ==> final(self).position() == index_key(
                T::timestamp_of(kv.1@).key_bytes(),
                kv.0.key_bytes(),
            ).push(0) && !final(self).is_done(),
            !(r is Some && r->0 is Ok) ==> final(self).is_done(),
    {
        timestamps_have_fixed_width::<T::Timestamp>();
        let ghost entries = store::tree_entries(*self.tree);
        let found = self.index.next();
        match found {
            None => {
                assert(!old(self).is_done() ==> step_result::<T>(entries, old(self).position(), None));
                None
            },
            Some(Err(e)) => {
                proof {
                    if !old(self).is_done() && !(e is Sled) {
                        let view = index::<T>(entries);
                        let pos = old(self).position();
                        assert(exists|j: Seq<u8>| store::is_first_from(view, pos, j));
                    }
                }
                Some(Err(e))
            },
            Some(Ok((index_key_found, _unit))) => {
                let ghost j = index_key_found.key_bytes();
                let Key { timestamp, key } = index_key_found;
                proof {
                    assert(timestamp.key_bytes().len() == T::Timestamp::spec_width());
                    lemma_index_key_split::<T>(timestamp.key_bytes(), key.key_bytes());
                    assert(index::<T>(entries).contains_key(j));
                }
                match table::get_in::<T>(self.tree, &key) {
                    Err(e) => {
                        self.index.finish();
                        Some(Err(e))
                    },
                    Ok(None) => {
                        proof {
                            assert(false);
                        }
                        self.index.finish();
                        None
                    },
                    Ok(Some(value)) => {
                        assert(stamp_of::<T>(primary::<T>(entries)[key.key_bytes()]) == Some(
                            T::timestamp_of(value@).key_bytes(),
                        ));
                        assert(j == index_key(T::timestamp_of(value@).key_bytes(), key.key_bytes()));
                        Some(Ok((key, value)))
                    },
                }
            },
        }
    }
}

impl<'a, T: Timestamped> IterRange<'a, T> {
    /// The entries of the tree that the iterator reads.
    pub closed spec fn entries(&self) -> Map<Seq<u8>, Seq<u8>> {
        self.iter.entries()
    }

    /// The index key at or after which the next entry is looked for.
    pub closed spec fn position(&self) -> Seq<u8> {
        self.iter.position()
    }

    pub closed spec fn is_done(&self) -> bool {
        self.iter.is_done()
    }

    pub closed spec fn wf(&self) -> bool {
        self.iter.wf()
    }

    /// The upper bound on timestamps, excluded.
    pub closed spec fn end(&self) -> Option<T::Timestamp> {
        self.end_exclusive
    }

    /// The entry whose index key comes next, where its timestamp lies before
    /// the upper bound; `None` once it does not.
    pub fn next(&mut self) -> (r: Option<Result<(T::Key, T::Value), TableError>>)
        requires
            old(self).wf(),
            consistent::<T>(old(self).entries()),
        ensures
            final(self).wf(),
            final(self).entries() == old(self).entries(),
            final(self).end() == old(self).end(),
            old(self).is_done() ==> r is None,
            !old(self).is_done() && !(r is None) ==> step_result::<T>(
                old(self).entries(),
                old(self).position(),
                r,
            ),
            r matches Some(Ok(kv)) ==> (old(self).end() matches Some(e) ==> order::lex_lt(
                T::timestamp_of(kv.1@).key_bytes(),
                e.key_bytes(),
            )),
            !old(self).is_done() && r is None ==> store::none_from(
                index::<T>(old(self).entries()),
                old(self).position(),
            ) || (old(self).end() matches Some(e) && exists|j: Seq<u8>|
                store::is_first_from(index::<T>(old(self).entries()), old(self).position(), j)
                    && !order::lex_lt(stamp_part::<T>(j), e.key_bytes())),
    {
        timestamps_have_fixed_width::<T::Timestamp>();
        let (key, value) = match self.iter.next() {
            None => return None,
            Some(Err(err)) => return Some(Err(err)),
            Some(Ok(kv)) => kv,
        };
        match &self.end_exclusive {
            Some(end_exclusive) => {
                let timestamp = T::value_timestamp(&value);
                let ts_bytes = timestamp.write_key();
                let end_bytes = end_exclusive.write_key();
                if !order::lex_less(ts_bytes.as_slice(), end_bytes.as_slice()) {
                    proof {
                        assert(timestamp.key_bytes().len() == T::Timestamp::spec_width());
                        lemma_index_key_split::<T>(ts_bytes@, key.key_bytes());
                    }
                    return None;
                }
            },
            None => {},
        }
        Some(Ok((key, value)))
    }
}

/// `r` is the timestamp of the first index key of `index` at or after
/// `start`.
pub open spec fn stamp_first_result<T: Timestamped>(
    index: Map<Seq<u8>, Seq<u8>>,
    start: Seq<u8>,
    r: Result<Option<T::Timestamp>, TableError>,
) -> bool {
    match r {
        Ok(Some(t)) => exists|j: Seq<u8>|
            store::is_first_from(index, start, j) && stamp_part::<T>(j) == t.key_bytes(),
        Ok(None) => store::none_from(index, start),
        Err(e) => e is Sled || (e is KeyEncoding && undecodable_first::<T>(index, start)),
    }
}

/// The timestamp of an index key found in the index.
proof fn lemma_found_stamp<T: Timestamped>(tk: Key<T::Timestamp, T::Key>)
    requires
        fixed_width::<T::Timestamp>(),
    ensures
        stamp_part::<T>(tk.key_bytes()) == tk.timestamp.key_bytes(),
{
    assert(tk.timestamp.key_bytes().len() == T::Timestamp::spec_width());
    lemma_index_key_split::<T>(tk.timestamp.key_bytes(), tk.key.key_bytes());
}

/// Read-only access to a timestamped table within a `sled::Tree`.
pub struct Reader<'a, T> {
    tree: &'a sled::Tree,
    table: PhantomData<T>,
}

impl<'a, T: Timestamped> Reader<'a, T> {
    /// The entries of the tree that the reader reads.
    pub closed spec fn entries(&self) -> Map<Seq<u8>, Seq<u8>> {
        store::tree_entries(*self.tree)
    }

    /// Read-only access to timestamped table `T` of `tree`.
    pub fn from_tree(tree: &'a sled::Tree) -> (r: Self)
        ensures
            r.entries() == store::tree_entries(*tree),
    {
        Reader { tree, table: PhantomData }
    }

    /// Retrieve the value stored under `key`, if there is one.
    pub fn get(&self, key: &T::Key) -> (r: Result<Option<T::Value>, TableError>)
        ensures
            table::get_result::<T>(primary::<T>(self.entries()), key.key_bytes(), r),
    {
        table::get_in::<T>(self.tree, key)
    }

    /// Read-only access to the table by key rather than by timestamp.
    pub fn by_key(&self) -> (r: table::Reader<'a, T>)
        ensures
            r.entries() == self.entries(),
    {
        table::Reader::from_tree(self.tree)
    }

    /// The least timestamp of an entry. More than one entry may have it.
    pub fn min(&self) -> (r: Result<Option<T::Timestamp>, TableError>)
        ensures
            stamp_first_result::<T>(index::<T>(self.entries()), Seq::empty(), r),
    {
        timestamps_have_fixed_width::<T::Timestamp>();
        let index_table: table::Reader<'a, T::TimestampTable> = table::Reader::from_tree(self.tree);
        match index_table.min() {
            Ok(Some((tk, _unit))) => {
                proof {
                    lemma_found_stamp::<T>(tk);
                }
                Ok(Some(tk.timestamp))
            },
            Ok(None) => Ok(None),
            Err(e) => {
                proof {
                    let view = index::<T>(self.entries());
                    if !(e is Sled) {
                        assert(exists|j: Seq<u8>| store::is_first_from(view, Seq::empty(), j));
                    }
                }
                Err(e)
            },
        }
    }
}

impl<'a, T: Timestamped> Reader<'a, T> where T::Key: MinKey {
    /// Iterate over all entries in the order of their timestamps.
    pub fn iter(&self) -> (r: Result<Iter<'a, T>, TableError>)
        ensures
            r matches Ok(it) ==> it.wf() && it.entries() == self.entries() && it.position()
                == index_key(
                T::Timestamp::spec_min_key().key_bytes(),
                T::Key::spec_min_key().key_bytes(),
            ) && !it.is_done(),
            r is Ok,
    {
        self.scan(T::Timestamp::min_key())
    }

    /// Iterate over the entries in the order of their timestamps, from
    /// `timestamp` on.
    pub fn scan(&self, timestamp: T::Timestamp) -> (r: Result<Iter<'a, T>, TableError>)
        ensures
            r matches Ok(it) ==> it.wf() && it.entries() == self.entries() && it.position()
                == index_key(timestamp.key_bytes(), T::Key::spec_min_key().key_bytes())
                && !it.is_done(),
            r is Ok,
    {
        let index_table: table::Reader<'a, T::TimestampTable> = table::Reader::from_tree(self.tree);
        let start = Key { timestamp, key: T::Key::min_key() };
        match index_table.scan(&start) {
            Ok(index) => Ok(Iter { index, tree: self.tree }),
            Err(e) => Err(e),
        }
    }

    /// Iterate over the entries in the order of their timestamps, as long as
    /// the timestamp lies within `range`.
    pub fn scan_range<R: RangeBounds<T::Timestamp>>(&self, range: R) -> (r: Result<IterRange<'a, T>, TableError>)
        ensures
            r matches Ok(it) ==> it.wf() && it.entries() == self.entries() && it.position()
                == index_key(
                match range.spec_start() {
                    Some(s) => s,
                    None => T::Timestamp::spec_min_key(),
                }.key_bytes(),
                T::Key::spec_min_key().key_bytes(),
            ) && it.end() == range.spec_end() && !it.is_done(),
            r is Ok,
    {
        let start_inclusive = match range.start_inclusive() {
            Some(s) => s,
            None => T::Timestamp::min_key(),
        };
        let end_exclusive = range.end_exclusive();
        match self.scan(start_inclusive) {
            Ok(iter) => Ok(IterRange { iter, end_exclusive }),
            Err(e) => Err(e),
        }
    }

    /// The least timestamp of an entry at or after `timestamp`.
    pub fn succ_incl(&self, timestamp: T::Timestamp) -> (r: Result<Option<T::Timestamp>, TableError>)
        ensures
            stamp_first_result::<T>(
                index::<T>(self.entries()),
                index_key(timestamp.key_bytes(), T::Key::spec_min_key().key_bytes()),
                r,
            ),
    {
        timestamps_have_fixed_width::<T::Timestamp>();
        let index_table: table::Reader<'a, T::TimestampTable> = table::Reader::from_tree(self.tree);
        let start = Key { timestamp, key: T::Key::min_key() };
        match index_table.succ_incl(&start) {
            Ok(Some((tk, _unit))) => {
                proof {
                    lemma_found_stamp::<T>(tk);
                }
                Ok(Some(tk.timestamp))
            },
            Ok(None) => Ok(None),
            Err(e) => {
                proof {
                    let view = index::<T>(self.entries());
                    if !(e is Sled) {
                        assert(exists|j: Seq<u8>| store::is_first_from(view, start.key_bytes(), j));
                    }
                }
                Err(e)
            },
        }
    }

    /// The least timestamp of an entry after `timestamp`.
    pub fn succ(&self, timestamp: T::Timestamp) -> (r: Result<Option<T::Timestamp>, TableError>)
        ensures
            (exists|n: T::Timestamp|
                {
                    &&& order::lex_lt(timestamp.key_bytes(), n.key_bytes())
                    &&& forall|t: T::Timestamp|
                        order::lex_lt(timestamp.key_bytes(), #[trigger] t.key_bytes())
                            ==> order::lex_le(n.key_bytes(), t.key_bytes())
                    &&& stamp_first_result::<T>(
                        index::<T>(self.entries()),
                        index_key(n.key_bytes(), T::Key::spec_min_key().key_bytes()),
                        r,
                    )
                }) || (r == Ok::<Option<T::Timestamp>, TableError>(None) && forall|t: T::Timestamp|
                !order::lex_lt(timestamp.key_bytes(), #[trigger] t.key_bytes())),
    {
        match timestamp.next() {
            None => Ok(None),
            Some(next) => self.succ_incl(next),
        }
    }
}

impl<T: Timestamped> Writer<T> {
    /// Read-only access to the same table.
    pub fn reader(&self) -> (r: Reader<'_, T>)
        ensures
            r.entries() == self.entries(),
    {
        Reader { tree: &self.tree, table: PhantomData }
    }

    /// Retrieve the value stored under `key`, if there is one.
    pub fn get(&self, key: &T::Key) -> (r: Result<Option<T::Value>, TableError>)
        ensures
            table::get_result::<T>(primary::<T>(self.entries()), key.key_bytes(), r),
    {
        self.reader().get(key)
    }

    /// Read-only access to the table by key rather than by timestamp.
    pub fn by_key(&self) -> (r: table::Reader<'_, T>)
        ensures
            r.entries() == self.entries(),
    {
        table::Reader::from_tree(&self.tree)
    }

    /// The least timestamp of an entry.
    pub fn min(&self) -> (r: Result<Option<T::Timestamp>, TableError>)
        ensures
            stamp_first_result::<T>(index::<T>(self.entries()), Seq::empty(), r),
    {
        self.reader().min()
    }
}

impl<T: Timestamped> Writer<T> where T::Key: MinKey {
    /// Iterate over all entries in the order of their timestamps.
    pub fn iter(&self) -> (r: Result<Iter<'_, T>, TableError>)
        ensures
            r matches Ok(it) ==> it.wf() && it.entries() == self.entries() && it.position()
                == index_key(
                T::Timestamp::spec_min_key().key_bytes(),
                T::Key::spec_min_key().key_bytes(),
            ) && !it.is_done(),
            r is Ok,
    {
        self.reader().iter()
    }

    /// Iterate over the entries in the order of their timestamps, from
    /// `timestamp` on.
    pub fn scan(&self, timestamp: T::Timestamp) -> (r: Result<Iter<'_, T>, TableError>)
        ensures
            r matches Ok(it) ==> it.wf() && it.entries() == self.entries() && it.position()
                == index_key(timestamp.key_bytes(), T::Key::spec_min_key().key_bytes())
                && !it.is_done(),
            r is Ok,
    {
        self.reader().scan(timestamp)
    }

    /// Iterate over the entries in the order of their timestamps, as long as
    /// the timestamp lies within `range`.
    pub fn scan_range<R: RangeBounds<T::Timestamp>>(&self, range: R) -> (r: Result<IterRange<'_, T>, TableError>)
        ensures
            r matches Ok(it) ==> it.wf() && it.entries() == self.entries() && it.position()
                == index_key(
                match range.spec_start() {
                    Some(s) => s,
                    None => T::Timestamp::spec_min_key(),
                }.key_bytes(),
                T::Key::spec_min_key().key_bytes(),
            ) && it.end() == range.spec_end() && !it.is_done(),
            r is Ok,
    {
        self.reader().scan_range(range)
    }

    /// The least timestamp of an entry at or after `timestamp`.
    pub fn succ_incl(&self, timestamp: T::Timestamp) -> (r: Result<Option<T::Timestamp>, TableError>)
        ensures
            stamp_first_result::<T>(
                index::<T>(self.entries()),
                index_key(timestamp.key_bytes(), T::Key::spec_min_key().key_bytes()),
                r,
            ),
    {
        self.reader().succ_incl(timestamp)
    }

    /// The least timestamp of an entry after `timestamp`.
    pub fn succ(&self, timestamp: T::Timestamp) -> (r: Result<Option<T::Timestamp>, TableError>)
        ensures
            (exists|n: T::Timestamp|
                {
                    &&& order::lex_lt(timestamp.key_bytes(), n.key_bytes())
                    &&& forall|t: T::Timestamp|
                        order::lex_lt(timestamp.key_bytes(), #[trigger] t.key_bytes())
                            ==> order::lex_le(n.key_bytes(), t.key_bytes())
                    &&& stamp_first_result::<T>(
                        index::<T>(self.entries()),
                        index_key(n.key_bytes(), T::Key::spec_min_key().key_bytes()),
                        r,
                    )
                }) || (r == Ok::<Option<T::Timestamp>, TableError>(None) && forall|t: T::Timestamp|
                !order::lex_lt(timestamp.key_bytes(), #[trigger] t.key_bytes())),
    {
        self.reader().succ(timestamp)
    }
}

/// Entries come out of a timestamp-ordered iteration with their timestamps
/// in ascending order: after the entry with index key `j1`, the next one,
/// `j2`, has a timestamp no earlier.
pub proof fn lemma_stamps_ascending<T: Timestamped>(
    index: Map<Seq<u8>, Seq<u8>>,
    j1: Seq<u8>,
    j2: Seq<u8>,
)
    requires
        j1.len() >= T::Timestamp::spec_width(),
        j2.len() >= T::Timestamp::spec_width(),
        store::is_first_from(index, j1.push(0), j2),
    ensures
        order::lex_lt(j1, j2),
        order::lex_le(stamp_part::<T>(j1), stamp_part::<T>(j2)),
{
    order::lemma_lt_iff_le_push_zero(j1, j2);
    order::lemma_head_monotone(j1, j2, T::Timestamp::spec_width());
}

/// A range scan from timestamp `start` only meets index keys whose timestamp
/// is `start` or later.
pub proof fn lemma_scan_lower_bound<T: Timestamped>(
    index: Map<Seq<u8>, Seq<u8>>,
    start: T::Timestamp,
    m: Seq<u8>,
    position: Seq<u8>,
    j: Seq<u8>,
)
    requires
        fixed_width::<T::Timestamp>(),
        order::lex_le(index_key(start.key_bytes(), m), position),
        store::is_first_from(index, position, j),
        j.len() >= T::Timestamp::spec_width(),
    ensures
        order::lex_le(start.key_bytes(), stamp_part::<T>(j)),
{
    assert(start.key_bytes().len() == T::Timestamp::spec_width());
    order::lemma_le_transitive(index_key(start.key_bytes(), m), position, j);
    order::lemma_le_head(start.key_bytes(), m, j);
}

} // verus!
