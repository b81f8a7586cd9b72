use sled_table::reversible;
use sled_table::timestamp;
use sled_table::unsigned_binary_search::{find_max, find_pred};
use sled_table::{Reader, Reversible, Table, TableError, Timestamped, Writer};

fn temporary_tree() -> sled::Db {
    sled::Config::new().temporary(true).open().unwrap()
}

// A handle on the tree for a writer to own; the test keeps the database to
// look at raw entries.
fn handle(db: &sled::Db) -> sled::Tree {
    (**db).clone()
}

struct Numbers;

impl Table for Numbers {
    type Id = u8;
    type Key = u64;
    type Value = u64;
    fn id() -> u8 {
        7
    }
}

struct Small;

impl Table for Small {
    type Id = u8;
    type Key = u8;
    type Value = Vec<u8>;
    fn id() -> u8 {
        3
    }
}

struct Low;

impl Table for Low {
    type Id = u8;
    type Key = u16;
    type Value = u64;
    fn id() -> u8 {
        0
    }
}

struct Middle;

impl Table for Middle {
    type Id = u8;
    type Key = u16;
    type Value = u64;
    fn id() -> u8 {
        1
    }
}

struct High;

impl Table for High {
    type Id = u8;
    type Key = u16;
    type Value = u64;
    fn id() -> u8 {
        2
    }
}

fn keys<T: Table<Key = u16, Value = u64>>(w: &Writer<T>) -> Vec<u16> {
    let mut out = Vec::new();
    let mut iter = w.iter().unwrap();
    while let Some(item) = iter.next() {
        out.push(item.unwrap().0);
    }
    out
}

#[test]
fn set_then_get_gives_the_value_back() {
    let tree = temporary_tree();
    let mut table = Writer::<Numbers>::from_tree(handle(&tree));
    for k in [0u64, 1, 255, 256, u64::MAX] {
        table.set(&k, &(k ^ 0xabcd)).unwrap();
    }
    for k in [0u64, 1, 255, 256, u64::MAX] {
        assert_eq!(table.get(&k).unwrap(), Some(k ^ 0xabcd));
    }
    assert_eq!(table.get(&2).unwrap(), None);
    table.set(&1, &99).unwrap();
    assert_eq!(table.get(&1).unwrap(), Some(99));
}

#[test]
fn iteration_follows_the_order_of_numbers() {
    let tree = temporary_tree();
    let mut table = Writer::<Numbers>::from_tree(handle(&tree));
    for k in [65536u64, 1, 256, 0, 255, u64::MAX] {
        table.set(&k, &k).unwrap();
    }
    let mut seen = Vec::new();
    let mut iter = table.iter().unwrap();
    while let Some(item) = iter.next() {
        seen.push(item.unwrap().0);
    }
    assert_eq!(seen, vec![0, 1, 255, 256, 65536, u64::MAX]);
    let mut iter = table.scan(&200).unwrap();
    assert_eq!(iter.next().unwrap().unwrap(), (255, 255));
    assert_eq!(iter.next().unwrap().unwrap(), (256, 256));
}

#[test]
fn tables_sharing_a_tree_stay_apart() {
    let tree = temporary_tree();
    let mut low = Writer::<Low>::from_tree(handle(&tree));
    let mut middle = Writer::<Middle>::from_tree(handle(&tree));
    let mut high = Writer::<High>::from_tree(handle(&tree));
    for k in 0u16..6 {
        match k % 3 {
            0 => low.set(&k, &1).unwrap(),
            1 => middle.set(&k, &2).unwrap(),
            _ => high.set(&k, &3).unwrap(),
        }
    }
    assert_eq!(keys(&low), vec![0, 3]);
    assert_eq!(keys(&middle), vec![1, 4]);
    assert_eq!(keys(&high), vec![2, 5]);
    assert_eq!(middle.get(&0).unwrap(), None);
    assert_eq!(middle.min().unwrap(), Some((1, 2)));
    assert_eq!(low.succ(&3).unwrap(), None);
    assert_eq!(high.max().unwrap(), Some((5, 3)));
    assert_eq!(middle.pred(&1).unwrap(), None);
    assert_eq!(middle.del(&3).unwrap(), None);
    assert_eq!(keys(&low), vec![0, 3]);
}

#[test]
fn successors_and_predecessors() {
    let tree = temporary_tree();
    let mut table = Writer::<Numbers>::from_tree(handle(&tree));
    for k in [10u64, 20, 30] {
        table.set(&k, &(k * 2)).unwrap();
    }
    assert_eq!(table.min().unwrap(), Some((10, 20)));
    assert_eq!(table.max().unwrap(), Some((30, 60)));
    assert_eq!(table.succ(&10).unwrap(), Some((20, 40)));
    assert_eq!(table.succ(&15).unwrap(), Some((20, 40)));
    assert_eq!(table.succ(&30).unwrap(), None);
    assert_eq!(table.succ_incl(&20).unwrap(), Some((20, 40)));
    assert_eq!(table.succ_incl(&21).unwrap(), Some((30, 60)));
    assert_eq!(table.succ_incl(&31).unwrap(), None);
    assert_eq!(table.pred(&20).unwrap(), Some((10, 20)));
    assert_eq!(table.pred(&25).unwrap(), Some((20, 40)));
    assert_eq!(table.pred(&10).unwrap(), None);
    assert_eq!(table.pred_incl(&20).unwrap(), Some((20, 40)));
    assert_eq!(table.pred_incl(&9).unwrap(), None);
    assert_eq!(table.pred_incl(&u64::MAX).unwrap(), Some((30, 60)));
}

fn linear_pred(keys: &[u8], bound: u8, inclusive: bool) -> Option<u8> {
    keys.iter()
        .copied()
        .filter(|k| if inclusive { *k <= bound } else { *k < bound })
        .max()
}

#[test]
fn binary_search_agrees_with_a_linear_scan() {
    let sets: Vec<Vec<u8>> = vec![
        vec![],
        vec![0],
        vec![255],
        vec![0, 255],
        vec![0, 3, 7, 128, 200, 255],
        vec![1, 2, 127, 128, 129],
    ];
    for set in sets {
        let tree = temporary_tree();
        let mut table = Writer::<Small>::from_tree(handle(&tree));
        for k in &set {
            table.set(k, &vec![*k]).unwrap();
        }
        let reader: Reader<Small> = table.reader();
        let expected_max = set.iter().copied().max();
        assert_eq!(find_max(&reader).unwrap().map(|kv| kv.0), expected_max);
        for bound in 0..=255u8 {
            for inclusive in [false, true] {
                let found = find_pred(&reader, &bound, inclusive).unwrap();
                let expected = linear_pred(&set, bound, inclusive);
                assert_eq!(found.clone().map(|kv| kv.0), expected, "{:?} {} {}", set, bound, inclusive);
                if let Some((k, v)) = found {
                    assert_eq!(v, vec![k]);
                }
            }
        }
    }
}

struct Names;
struct Numbered;

impl Table for Names {
    type Id = u8;
    type Key = u64;
    type Value = Vec<u8>;
    fn id() -> u8 {
        4
    }
}

impl Table for Numbered {
    type Id = u8;
    type Key = Vec<u8>;
    type Value = u64;
    fn id() -> u8 {
        5
    }
}

impl Reversible for Names {
    type ReverseTable = Numbered;
}

impl Reversible for Numbered {
    type ReverseTable = Names;
}

#[test]
fn reversible_pairs_both_ways() {
    let tree = temporary_tree();
    let mut names = reversible::Writer::<Names>::from_tree(handle(&tree));
    names.set(&1, &b"one".to_vec()).unwrap();
    names.set(&2, &b"two".to_vec()).unwrap();
    assert_eq!(names.get(&1).unwrap(), Some(b"one".to_vec()));
    let numbers = names.inv();
    assert_eq!(numbers.get(&b"two".to_vec()).unwrap(), Some(2));
    assert_eq!(numbers.get(&b"one".to_vec()).unwrap(), Some(1));
    let names = numbers.inv();
    assert_eq!(names.reader().inv().get(&b"one".to_vec()).unwrap(), Some(1));
    let mut names = names;

    assert_eq!(names.del(&1).unwrap(), Some(b"one".to_vec()));
    assert_eq!(names.get(&1).unwrap(), None);
    assert_eq!(names.reader().inv().get(&b"one".to_vec()).unwrap(), None);
    assert_eq!(names.reader().inv().get(&b"two".to_vec()).unwrap(), Some(2));
    assert_eq!(names.del(&1).unwrap(), None);

    // Re-setting a present pair keeps both sides.
    names.set(&2, &b"two".to_vec()).unwrap();
    assert_eq!(names.reader().inv().get(&b"two".to_vec()).unwrap(), Some(2));
}

// A table whose values are their own timestamps.
struct Events;
struct EventsByTime;

impl Table for Events {
    type Id = u8;
    type Key = u8;
    type Value = u64;
    fn id() -> u8 {
        8
    }
}

impl Table for EventsByTime {
    type Id = u8;
    type Key = timestamp::Key<u64, u8>;
    type Value = ();
    fn id() -> u8 {
        9
    }
}

impl Timestamped for Events {
    type Timestamp = u64;
    type TimestampTable = EventsByTime;
    fn value_timestamp(value: &u64) -> u64 {
        *value
    }
}

fn drain(mut iter: timestamp::IterRange<Events>) -> Vec<(u8, u64)> {
    let mut out = Vec::new();
    while let Some(item) = iter.next() {
        out.push(item.unwrap());
    }
    out
}

#[test]
fn scan_range_keeps_to_its_bounds() {
    let tree = temporary_tree();
    let mut table = timestamp::Writer::<Events>::from_tree(handle(&tree));
    table.set(&0, &8).unwrap();
    table.set(&4, &4).unwrap();
    assert_eq!(drain(table.scan_range(6u64..).unwrap()), vec![(0, 8)]);
    assert_eq!(drain(table.scan_range(..6u64).unwrap()), vec![(4, 4)]);
    assert_eq!(drain(table.scan_range(5u64..8).unwrap()), vec![]);
    assert_eq!(drain(table.scan_range(4u64..8).unwrap()), vec![(4, 4)]);
    assert_eq!(drain(table.scan_range(4u64..9).unwrap()), vec![(4, 4), (0, 8)]);
    assert_eq!(drain(table.scan_range(..).unwrap()), vec![(4, 4), (0, 8)]);

    let mut by_key = table.by_key().iter().unwrap();
    assert_eq!(by_key.next().unwrap().unwrap(), (0, 8));
    assert_eq!(by_key.next().unwrap().unwrap(), (4, 4));
    assert!(by_key.next().is_none());
}

#[test]
fn timestamp_lookups() {
    let tree = temporary_tree();
    let mut table = timestamp::Writer::<Events>::from_tree(handle(&tree));
    assert_eq!(table.min().unwrap(), None);
    table.set(&0, &100).unwrap();
    table.set(&2, &50).unwrap();
    table.set(&3, &100).unwrap();
    assert_eq!(table.min().unwrap(), Some(50));
    assert_eq!(table.succ_incl(50).unwrap(), Some(50));
    assert_eq!(table.succ(50).unwrap(), Some(100));
    assert_eq!(table.succ(100).unwrap(), None);
    assert_eq!(table.succ(u64::MAX).unwrap(), None);
    assert_eq!(table.reader().get(&2).unwrap(), Some(50));
}

#[test]
fn updating_a_timestamp_moves_its_index_entry() {
    let tree = temporary_tree();
    let mut table = timestamp::Writer::<Events>::from_tree(handle(&tree));
    table.set(&1, &8).unwrap();
    table.set(&1, &2).unwrap();
    assert_eq!(drain(table.scan_range(..).unwrap()), vec![(1, 2)]);
    assert_eq!(drain(table.scan_range(5u64..).unwrap()), vec![]);
    // Setting the same value again leaves one index entry.
    table.set(&1, &2).unwrap();
    assert_eq!(drain(table.scan_range(..).unwrap()), vec![(1, 2)]);
    assert_eq!(table.del(&1).unwrap(), Some(2));
    assert_eq!(drain(table.scan_range(..).unwrap()), vec![]);
    assert_eq!(table.del(&1).unwrap(), None);
}

#[test]
fn a_key_that_does_not_decode_is_an_error() {
    let tree = temporary_tree();
    // Under the id of `Numbers`, a key of two bytes instead of eight.
    tree.insert(vec![7, 1, 2], vec![0; 8]).unwrap();
    let table = Writer::<Numbers>::from_tree(handle(&tree));
    let mut iter = table.iter().unwrap();
    assert!(matches!(iter.next(), Some(Err(TableError::KeyEncoding))));
    assert!(iter.next().is_none());
    assert!(matches!(table.min(), Err(TableError::KeyEncoding)));
}

#[test]
fn a_value_that_does_not_decode_is_an_error() {
    let tree = temporary_tree();
    // Under the id of `Numbers` and the key 1, one byte where a number needs eight.
    tree.insert(vec![7, 0, 0, 0, 0, 0, 0, 0, 1], vec![5]).unwrap();
    let mut table = Writer::<Numbers>::from_tree(handle(&tree));
    assert!(matches!(table.get(&1), Err(TableError::Bincode(_))));
    assert!(matches!(table.succ_incl(&0), Err(TableError::Bincode(_))));
    assert!(matches!(table.del(&1), Err(TableError::Bincode(_))));
    assert_eq!(table.get(&1).unwrap(), None);
}

#[test]
fn values_are_written_with_bincode() {
    let tree = temporary_tree();
    let mut table = Writer::<Numbers>::from_tree(handle(&tree));
    table.set(&1, &0x0102).unwrap();
    let stored = tree.get(sled_table::write_key::<Numbers>(&1)).unwrap().unwrap();
    assert_eq!(stored.to_vec(), vec![2, 1, 0, 0, 0, 0, 0, 0]);
    assert_eq!(sled_table::write_key::<Numbers>(&1), vec![7, 0, 0, 0, 0, 0, 0, 0, 1]);

    let mut bytes = Writer::<Small>::from_tree(handle(&tree));
    bytes.set(&9, &vec![5, 6]).unwrap();
    let stored = tree.get(vec![3, 9]).unwrap().unwrap();
    assert_eq!(stored.to_vec(), vec![2, 0, 0, 0, 0, 0, 0, 0, 5, 6]);
    tree.insert(vec![3, 10], vec![1, 0, 0, 0, 0, 0, 0, 0, 42]).unwrap();
    assert_eq!(bytes.get(&10).unwrap(), Some(vec![42]));
    tree.insert(vec![7, 0, 0, 0, 0, 0, 0, 0, 2], vec![3, 0, 0, 0, 0, 0, 0, 0]).unwrap();
    assert_eq!(table.get(&2).unwrap(), Some(3));

    // The timestamp index keeps the timestamp, then the key, with no value.
    let mut events = timestamp::Writer::<Events>::from_tree(handle(&tree));
    events.set(&1, &0x0203).unwrap();
    let index_entry = tree.get(vec![9, 0, 0, 0, 0, 0, 0, 2, 3, 1]).unwrap().unwrap();
    assert!(index_entry.is_empty());
}
