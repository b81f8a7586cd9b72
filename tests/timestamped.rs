use sled_table::timestamp::{Key, MinKey};
use sled_table::unsigned_binary_search::UnsignedBinarySearchKey;
use sled_table::{Id, Table, TableError, Timestamp, Timestamped, Value};
use vstd::view::View;

// A unix timestamp representation in nanoseconds.
//
// The number of nanoseconds since 00:00:00 UTC Thursday, 1 January 1970.
#[derive(Copy, Clone, Debug, Eq, Hash, Ord, PartialEq, PartialOrd)]
struct UnixNanos(pub i64);

// Trait implementations.

impl sled_table::Key for UnixNanos {
    fn write_key(&self) -> Vec<u8> {
        ((self.0 as u64) ^ (1u64 << 63)).to_be_bytes().to_vec()
    }
    fn read_key(bytes: &[u8]) -> Option<Self> {
        if bytes.len() != 8 {
            return None;
        }
        let mut b = [0u8; 8];
        b.copy_from_slice(bytes);
        Some(UnixNanos((u64::from_be_bytes(b) ^ (1u64 << 63)) as i64))
    }
}

impl UnsignedBinarySearchKey for UnixNanos {
    type UnsignedInteger = u64;
    fn from_unsigned_integer(u: u64) -> Self {
        let i = if u < 9_223_372_036_854_775_808 {
            u as i64 - 9_223_372_036_854_775_807 - 1
        } else {
            (u - 9_223_372_036_854_775_808) as i64
        };
        UnixNanos(i)
    }
}

impl MinKey for UnixNanos {
    fn min_key() -> Self {
        UnixNanos(::std::i64::MIN)
    }
}

impl Timestamp for UnixNanos {
    fn width() -> usize {
        8
    }
    fn next(&self) -> Option<Self> {
        self.0.checked_add(1).map(UnixNanos)
    }
}

// ID type for distinguishing between tables at runtime.

#[derive(Copy, Clone, PartialEq)]
enum TableId {
    Foo,
    FooTimestamp,
}

impl sled_table::Key for TableId {
    fn write_key(&self) -> Vec<u8> {
        vec![*self as u8]
    }
    fn read_key(bytes: &[u8]) -> Option<Self> {
        match bytes {
            [0] => Some(TableId::Foo),
            [1] => Some(TableId::FooTimestamp),
            _ => None,
        }
    }
}

impl Id for TableId {}

#[test]
fn test_table_id_size() {
    assert_eq!(std::mem::size_of::<TableId>(), 1);
}

// Data description

// The type used as a key into a table of `Foo`s.
type FooId = u8;

// The data type to be stored within our table.
#[derive(Clone, Debug, PartialEq)]
struct Foo {
    timestamp: UnixNanos,
    data: Vec<u8>,
}

impl View for Foo {
    type V = Foo;
    fn view(&self) -> Foo {
        self.clone()
    }
}

impl Value for Foo {
    fn write_value(&self) -> Result<Vec<u8>, TableError> {
        bincode::serialize(&(self.timestamp.0, &self.data)).map_err(TableError::Bincode)
    }
    fn read_value(bytes: &[u8]) -> Result<Self, TableError> {
        let (nanos, data): (i64, Vec<u8>) =
            bincode::deserialize(bytes).map_err(TableError::Bincode)?;
        Ok(Foo { timestamp: UnixNanos(nanos), data })
    }
}

// Table declarations.

// The table used to store `Foo`s.
struct FooTable;

// The table keyed by the timestamp associated with each `Foo`.
struct FooTimestampTable;

impl Table for FooTable {
    type Id = TableId;
    type Key = FooId;
    type Value = Foo;
    fn id() -> TableId {
        TableId::Foo
    }
}

impl Table for FooTimestampTable {
    type Id = TableId;
    type Key = Key<UnixNanos, <FooTable as Table>::Key>;
    type Value = ();
    fn id() -> TableId {
        TableId::FooTimestamp
    }
}

impl Timestamped for FooTable {
    type Timestamp = UnixNanos;
    type TimestampTable = FooTimestampTable;
    fn value_timestamp(value: &Foo) -> UnixNanos {
        value.timestamp
    }
}

// A temporary tree for testing.
fn test_tree() -> sled::Db {
    sled::Config::new().temporary(true).open().unwrap()
}

// Tests.

#[test]
fn test_timestamp_table() {
    let t = test_tree();

    // timestamp::Writer::from_tree
    let mut table = sled_table::timestamp::Writer::<FooTable>::from_tree((*t).clone());

    // timestamp::Writer::set/get
    let a_key = 0;
    let a_value = Foo { timestamp: UnixNanos(8), data: vec![0, 1, 2, 3] };
    let b_key = 4;
    let b_value = Foo { timestamp: UnixNanos(4), data: vec![3, 2, 1, 0] };
    table.set(&a_key, &a_value).unwrap();
    table.set(&b_key, &b_value).unwrap();
    assert_eq!(table.get(&a_key).unwrap().unwrap(), a_value);
    assert_eq!(table.get(&b_key).unwrap().unwrap(), b_value);

    // timestamp::Writer::by_key().iter()
    let mut iter = table.by_key().iter().unwrap();
    assert_eq!(iter.next().unwrap().unwrap(), (a_key.clone(), a_value.clone()));
    assert_eq!(iter.next().unwrap().unwrap(), (b_key.clone(), b_value.clone()));
    assert!(iter.next().is_none());

    // timestamp::Writer::iter
    let mut iter = table.iter().unwrap();
    assert_eq!(iter.next().unwrap().unwrap(), (b_key.clone(), b_value.clone()));
    assert_eq!(iter.next().unwrap().unwrap(), (a_key.clone(), a_value.clone()));
    assert!(iter.next().is_none());

    // timestamp::Writer::by_key().scan(key)
    let mut iter = table.by_key().scan(&2).unwrap();
    assert_eq!(iter.next().unwrap().unwrap(), (b_key.clone(), b_value.clone()));
    assert!(iter.next().is_none());

    // timestamp::Writer::scan
    let mut iter = table.scan(UnixNanos(6)).unwrap();
    assert_eq!(iter.next().unwrap().unwrap(), (a_key.clone(), a_value.clone()));
    assert!(iter.next().is_none());

    // timestamp::Writer::scan_range
    let range = UnixNanos(6)..;
    let mut iter = table.scan_range(range).unwrap();
    assert_eq!(iter.next().unwrap().unwrap(), (a_key.clone(), a_value.clone()));
    assert!(iter.next().is_none());
    let range = ..UnixNanos(6);
    let mut iter = table.scan_range(range).unwrap();
    assert_eq!(iter.next().unwrap().unwrap(), (b_key.clone(), b_value.clone()));
    assert!(iter.next().is_none());
    let range = UnixNanos(5)..UnixNanos(8);
    let mut iter = table.scan_range(range).unwrap();
    assert!(iter.next().is_none());
    let mut iter = table.scan_range(..).unwrap();
    assert_eq!(iter.next().unwrap().unwrap(), (b_key.clone(), b_value.clone()));
    assert_eq!(iter.next().unwrap().unwrap(), (a_key.clone(), a_value.clone()));
    assert!(iter.next().is_none());

    // timestamp::Writer::del
    assert_eq!(table.del(&a_key).unwrap().unwrap(), a_value);
    assert_eq!(table.del(&b_key).unwrap().unwrap(), b_value);
    assert_eq!(table.del(&b_key).unwrap(), None);
}
