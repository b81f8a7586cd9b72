// The store must allow scanning from keys that are not stored, in byte
// order: tables and timestamp ranges are scanned from such keys.

fn temporary_tree() -> sled::Db {
    sled::Config::new().temporary(true).open().unwrap()
}

fn pair(kv: sled::Result<(sled::IVec, sled::IVec)>) -> (Vec<u8>, Vec<u8>) {
    let (k, v) = kv.unwrap();
    (k.to_vec(), v.to_vec())
}

#[test]
fn test_sled_tree_scan_1() {
    let t = temporary_tree();
    t.insert(vec![1], vec![10]).unwrap();
    t.insert(vec![3], vec![30]).unwrap();
    let mut iter = t.range(vec![2]..);
    assert_eq!(pair(iter.next().unwrap()), (vec![3], vec![30]));
    assert!(iter.next().is_none());
}

#[test]
fn test_sled_tree_scan_2() {
    let t = temporary_tree();
    t.insert(vec![1], vec![10]).unwrap();
    t.insert(vec![13], vec![130]).unwrap();
    t.insert(vec![10, 0], vec![100, 0]).unwrap();
    t.insert(vec![10, 20], vec![100, 200]).unwrap();
    t.insert(vec![3], vec![30]).unwrap();
    let mut iter = t.range(vec![2]..);
    assert_eq!(pair(iter.next().unwrap()), (vec![3], vec![30]));
    assert_eq!(pair(iter.next().unwrap()), (vec![10, 0], vec![100, 0]));
    assert_eq!(pair(iter.next().unwrap()), (vec![10, 20], vec![100, 200]));
    assert_eq!(pair(iter.next().unwrap()), (vec![13], vec![130]));
    assert!(iter.next().is_none());
}

// The tree orders keys as byte slices are ordered.
#[test]
fn test_sled_tree_order() {
    let foo = vec![0u8, 232, 64, 93, 13, 54, 67, 111, 124];
    let bar = vec![124u8, 111, 67, 54, 13, 93, 64, 232, 0];
    let baz = vec![54u8, 67, 111, 124, 0, 232, 64, 93, 13];

    let mut vs = vec![foo.clone(), bar.clone(), baz.clone()];
    vs.sort();

    let t = temporary_tree();
    t.insert(foo, vec![]).unwrap();
    t.insert(bar, vec![]).unwrap();
    t.insert(baz, vec![]).unwrap();

    for (vec_elem, tree_elem) in vs.into_iter().zip(t.iter()) {
        println!("{:?}", vec_elem);
        assert_eq!(&vec_elem[..], &tree_elem.unwrap().0[..]);
    }
}
