//! Tables: typed views of the keys of one shared tree that begin with a
//! table's id.
use vstd::prelude::*;

use core::marker::PhantomData;

use crate::codec::{Id, Key, Value};
use crate::order;
use crate::store;
use crate::TableError;

verus! {

/// A single table within a `sled::Tree`.
pub trait Table {
    /// The type used to distinguish tables from one another.
    type Id: Id;
    /// The type used as a key into the table.
    type Key: Key;
    /// The type used as the value associated with a key.
    type Value: Value;

    /// The identifier that distinguishes the table from all others.
    open spec fn spec_id() -> Self::Id {
        vstd::pervasive::arbitrary()
    }

    /// The table's identifier; the same on every call.
    fn id() -> (r: Self::Id)
        ensures
            r == Self::spec_id(),
    ;
}

/// The bytes that begin every key of table `T` in the tree.
pub open spec fn id_prefix<T: Table>() -> Seq<u8> {
    T::spec_id().key_bytes()
}

/// The key in the tree under which table `T` keeps the key with encoding `k`.
pub open spec fn physical_key<T: Table>(k: Seq<u8>) -> Seq<u8> {
    id_prefix::<T>() + k
}

/// The contents of table `T` in a tree holding `entries`: each key encoding
/// with the value bytes stored under it.
pub open spec fn table_view<T: Table>(entries: Map<Seq<u8>, Seq<u8>>) -> Map<Seq<u8>, Seq<u8>> {
    Map::new(
        |k: Seq<u8>| entries.contains_key(physical_key::<T>(k)),
        |k: Seq<u8>| entries[physical_key::<T>(k)],
    )
}

/// `r` is what a point lookup of key encoding `kb` in `view` gives.
pub open spec fn get_result<T: Table>(
    view: Map<Seq<u8>, Seq<u8>>,
    kb: Seq<u8>,
    r: Result<Option<T::Value>, TableError>,
) -> bool {
    match r {
        Ok(None) => !view.contains_key(kb),
        Ok(Some(v)) => view.contains_key(kb) && T::Value::read_bytes(view[kb]) == Some(v@),
        Err(TableError::Bincode(_)) => view.contains_key(kb) && T::Value::read_bytes(
            view[kb],
        ) is None,
        Err(TableError::KeyEncoding) => false,
        Err(TableError::Sled(_)) => true,
    }
}

/// `r` is what a lookup of the first entry of `view` at or after `start`
/// gives.
pub open spec fn first_result<T: Table>(
    view: Map<Seq<u8>, Seq<u8>>,
    start: Seq<u8>,
    r: Result<Option<(T::Key, T::Value)>, TableError>,
) -> bool {
    match r {
        Ok(Some((k, v))) => store::is_first_from(view, start, k.key_bytes()) && T::Value::read_bytes(
            view[k.key_bytes()],
        ) == Some(v@),
        Ok(None) => store::none_from(view, start),
        Err(TableError::KeyEncoding) => exists|j: Seq<u8>|
            store::is_first_from(view, start, j) && forall|k: T::Key| #[trigger] k.key_bytes() != j,
        Err(TableError::Bincode(_)) => exists|j: Seq<u8>|
            store::is_first_from(view, start, j) && T::Value::read_bytes(view[j]) is None,
        Err(TableError::Sled(_)) => true,
    }
}

/// Write a key for table `T` to bytes: the encoded id of the table, then the
/// encoded key.
pub fn write_key<T: Table>(key: &T::Key) -> (r: Vec<u8>)
    ensures
        r@ == physical_key::<T>(key.key_bytes()),
{
    let mut bytes = T::id().write_key();
    let mut key_bytes = key.write_key();
    bytes.append(&mut key_bytes);
    bytes
}

/// Whether `s` begins with the bytes of `p`.
fn has_prefix(s: &[u8], p: &[u8]) -> (r: bool)
    ensures
        r == order::starts_with(s@, p@),
{
    if s.len() < p.len() {
        return false;
    }
    let mut i: usize = 0;
    while i < p.len()
        invariant
            p@.len() <= s@.len(),
            i <= p@.len(),
            forall|j: int| 0 <= j < i ==> s@[j] == p@[j],
        decreases p@.len() - i,
    {
        if s[i] != p[i] {
            assert(s@.subrange(0, p@.len() as int)[i as int] != p@[i as int]);
            return false;
        }
        i = i + 1;
    }
    assert(s@.subrange(0, p@.len() as int) =~= p@);
    true
}

proof fn lemma_view_insert<T: Table>(entries: Map<Seq<u8>, Seq<u8>>, k: Seq<u8>, w: Seq<u8>)
    ensures
        table_view::<T>(entries.insert(physical_key::<T>(k), w)) == table_view::<T>(entries).insert(
            k,
            w,
        ),
{
    let p = id_prefix::<T>();
    assert forall|j: Seq<u8>| #[trigger] physical_key::<T>(j) == physical_key::<T>(k) implies j
        == k by {
        order::lemma_add_cancel(p, j, k);
    }
    assert(table_view::<T>(entries.insert(physical_key::<T>(k), w)) =~= table_view::<T>(
        entries,
    ).insert(k, w));
}

proof fn lemma_view_remove<T: Table>(entries: Map<Seq<u8>, Seq<u8>>, k: Seq<u8>)
    ensures
        table_view::<T>(entries.remove(physical_key::<T>(k))) == table_view::<T>(entries).remove(
            k,
        ),
{
    let p = id_prefix::<T>();
    assert forall|j: Seq<u8>| #[trigger] physical_key::<T>(j) == physical_key::<T>(k) implies j
        == k by {
        order::lemma_add_cancel(p, j, k);
    }
    assert(table_view::<T>(entries.remove(physical_key::<T>(k))) =~= table_view::<T>(
        entries,
    ).remove(k));
}

/// A value set under a key is the value a lookup of that key then finds,
/// unless the store fails.
pub proof fn lemma_set_then_get<T: Table>(
    before: Map<Seq<u8>, Seq<u8>>,
    after: Map<Seq<u8>, Seq<u8>>,
    key: T::Key,
    value: T::Value,
    got: Result<Option<T::Value>, TableError>,
)
    requires
        after == before.insert(key.key_bytes(), T::Value::value_bytes(value@)),
        T::Value::read_bytes(T::Value::value_bytes(value@)) == Some(value@),
        get_result::<T>(after, key.key_bytes(), got),
    ensures
        !(got matches Err(TableError::Sled(_))) ==> (got matches Ok(Some(v)) && v@ == value@),
{
}

/// An iteration hands out keys in strictly ascending order: after key `k1`
/// the iterator looks at or after `k1` followed by a zero byte, and the key
/// `k2` it finds there comes after `k1`.
pub proof fn lemma_iter_ascending(view: Map<Seq<u8>, Seq<u8>>, k1: Seq<u8>, k2: Seq<u8>)
    requires
        store::is_first_from(view, k1.push(0), k2),
    ensures
        order::lex_lt(k1, k2),
{
    order::lemma_lt_iff_le_push_zero(k1, k2);
}

/// What `succ` finds is the least key after `k`; where it finds nothing, no
/// key comes after `k`.
pub proof fn lemma_succ_least_after(view: Map<Seq<u8>, Seq<u8>>, k: Seq<u8>, found: Option<Seq<u8>>)
    requires
        found matches Some(f) ==> store::is_first_from(view, k.push(0), f),
        found is None ==> store::none_from(view, k.push(0)),
    ensures
        found matches Some(f) ==> view.contains_key(f) && order::lex_lt(k, f),
        found matches Some(f) ==> forall|j: Seq<u8>|
            view.contains_key(j) && order::lex_lt(k, j) ==> order::lex_le(f, j),
        found is None ==> forall|j: Seq<u8>| view.contains_key(j) ==> !order::lex_lt(k, j),
{
    if let Some(f) = found {
        order::lemma_lt_iff_le_push_zero(k, f);
        assert forall|j: Seq<u8>| view.contains_key(j) && order::lex_lt(k, j) implies order::lex_le(f, j) by {
            order::lemma_lt_iff_le_push_zero(k, j);
        }
    } else {
        assert forall|j: Seq<u8>| view.contains_key(j) implies !order::lex_lt(k, j) by {
            order::lemma_lt_iff_le_push_zero(k, j);
        }
    }
}

/// Tables whose ids encode to different byte strings of one length never
/// share a key of the tree: writing to or removing from one leaves the
/// contents of the other as they were, whatever the order of the two ids.
pub proof fn lemma_isolation<A: Table, B: Table<Id = A::Id>>(
    entries: Map<Seq<u8>, Seq<u8>>,
    k: Seq<u8>,
    w: Seq<u8>,
)
    requires
        id_prefix::<A>() != id_prefix::<B>(),
        id_prefix::<A>().len() == id_prefix::<B>().len(),
    ensures
        table_view::<B>(entries.insert(physical_key::<A>(k), w)) == table_view::<B>(entries),
        table_view::<B>(entries.remove(physical_key::<A>(k))) == table_view::<B>(entries),
{
    lemma_distinct_physical_keys::<A, B>(k);
    assert(table_view::<B>(entries.insert(physical_key::<A>(k), w)) =~= table_view::<B>(entries));
    assert(table_view::<B>(entries.remove(physical_key::<A>(k))) =~= table_view::<B>(entries));
}

/// No key of table `B` is a key of table `A` where the ids differ.
pub proof fn lemma_distinct_physical_keys<A: Table, B: Table<Id = A::Id>>(k: Seq<u8>)
    requires
        id_prefix::<A>() != id_prefix::<B>(),
        id_prefix::<A>().len() == id_prefix::<B>().len(),
    ensures
        forall|j: Seq<u8>| #[trigger] physical_key::<B>(j) != physical_key::<A>(k),
{
    let pa = id_prefix::<A>();
    let pb = id_prefix::<B>();
    assert forall|j: Seq<u8>| #[trigger] physical_key::<B>(j) != physical_key::<A>(k) by {
        if physical_key::<B>(j) == physical_key::<A>(k) {
            assert((pb + j).subrange(0, pb.len() as int) =~= pb);
            assert((pa + k).subrange(0, pa.len() as int) =~= pa);
        }
    }
}

/// Store value bytes `value_bytes` under key encoding `key_bytes` in table
/// `T` of `tree`.
pub(crate) fn put_raw<T: Table>(tree: &mut sled::Tree, key_bytes: &[u8], value_bytes: Vec<u8>) -> (r:
    Result<(), TableError>)
    ensures
        r is Ok ==> store::tree_entries(*final(tree)) == store::tree_entries(*old(tree)).insert(
            physical_key::<T>(key_bytes@),
            value_bytes@,
        ),
        r is Ok ==> table_view::<T>(store::tree_entries(*final(tree))) == table_view::<T>(
            store::tree_entries(*old(tree)),
        ).insert(key_bytes@, value_bytes@),
        r matches Err(e) ==> e is Sled,
{
    let mut physical = T::id().write_key();
    let mut rest = vstd::slice::slice_to_vec(key_bytes);
    physical.append(&mut rest);
    match store::tree_insert(tree, physical, value_bytes) {
        Ok(()) => {
            proof {
                lemma_view_insert::<T>(store::tree_entries(*old(tree)), key_bytes@, value_bytes@);
            }
            Ok(())
        },
        Err(e) => Err(TableError::Sled(e)),
    }
}

/// Remove key encoding `key_bytes` from table `T` of `tree`.
pub(crate) fn remove_raw<T: Table>(tree: &mut sled::Tree, key_bytes: &[u8]) -> (r: Result<
    (),
    TableError,
>)
    ensures
        r is Ok ==> store::tree_entries(*final(tree)) == store::tree_entries(*old(tree)).remove(
            physical_key::<T>(key_bytes@),
        ),
        r is Ok ==> table_view::<T>(store::tree_entries(*final(tree))) == table_view::<T>(
            store::tree_entries(*old(tree)),
        ).remove(key_bytes@),
        r matches Err(e) ==> e is Sled,
{
    let mut physical = T::id().write_key();
    let mut rest = vstd::slice::slice_to_vec(key_bytes);
    physical.append(&mut rest);
    match store::tree_remove(tree, physical.as_slice()) {
        Ok(_) => {
            proof {
                lemma_view_remove::<T>(store::tree_entries(*old(tree)), key_bytes@);
            }
            Ok(())
        },
        Err(e) => Err(TableError::Sled(e)),
    }
}

/// Look `key` up in table `T` of `tree`.
pub(crate) fn get_in<T: Table>(tree: &sled::Tree, key: &T::Key) -> (r: Result<
    Option<T::Value>,
    TableError,
>)
    ensures
        get_result::<T>(table_view::<T>(store::tree_entries(*tree)), key.key_bytes(), r),
{
    let key_bytes = write_key::<T>(key);
    match store::tree_get(tree, key_bytes.as_slice()) {
        Err(e) => Err(TableError::Sled(e)),
        Ok(None) => Ok(None),
        Ok(Some(value_bytes)) => match T::Value::read_value(value_bytes.as_slice()) {
            Ok(v) => Ok(Some(v)),
            Err(e) => Err(e),
        },
    }
}

/// Set `key` to `value` in table `T` of `tree`.
pub(crate) fn set_in<T: Table>(tree: &mut sled::Tree, key: &T::Key, value: &T::Value) -> (r: Result<
    (),
    TableError,
>)
    ensures
        r is Ok ==> store::tree_entries(*final(tree)) == store::tree_entries(*old(tree)).insert(
            physical_key::<T>(key.key_bytes()),
            T::Value::value_bytes(value@),
        ),
        r is Ok ==> table_view::<T>(store::tree_entries(*final(tree))) == table_view::<T>(
            store::tree_entries(*old(tree)),
        ).insert(key.key_bytes(), T::Value::value_bytes(value@)),
        r is Ok ==> T::Value::read_bytes(T::Value::value_bytes(value@)) == Some(value@),
        r matches Err(e) ==> e is Sled || e is Bincode,
        r matches Err(TableError::Bincode(_)) ==> *final(tree) == *old(tree),
{
    let key_bytes = write_key::<T>(key);
    let value_bytes = match value.write_value() {
        Ok(b) => b,
        Err(e) => return Err(e),
    };
    match store::tree_insert(tree, key_bytes, value_bytes) {
        Ok(()) => {
            proof {
                lemma_view_insert::<T>(
                    store::tree_entries(*old(tree)),
                    key.key_bytes(),
                    T::Value::value_bytes(value@),
                );
            }
            Ok(())
        },
        Err(e) => Err(TableError::Sled(e)),
    }
}

/// Remove `key` from table `T` of `tree`, giving back the value it held.
pub(crate) fn del_in<T: Table>(tree: &mut sled::Tree, key: &T::Key) -> (r: Result<
    Option<T::Value>,
    TableError,
>)
    ensures
        get_result::<T>(table_view::<T>(store::tree_entries(*old(tree))), key.key_bytes(), r),
        r is Ok || r->Err_0 is Bincode ==> store::tree_entries(*final(tree)) == store::tree_entries(
            *old(tree),
        ).remove(physical_key::<T>(key.key_bytes())),
        r is Ok || r->Err_0 is Bincode ==> table_view::<T>(store::tree_entries(*final(tree)))
            == table_view::<T>(store::tree_entries(*old(tree))).remove(key.key_bytes()),
{
    let key_bytes = write_key::<T>(key);
    let removed = store::tree_remove(tree, key_bytes.as_slice());
    proof {
        lemma_view_remove::<T>(store::tree_entries(*old(tree)), key.key_bytes());
    }
    match removed {
        Err(e) => Err(TableError::Sled(e)),
        Ok(None) => Ok(None),
        Ok(Some(value_bytes)) => match T::Value::read_value(value_bytes.as_slice()) {
            Ok(v) => Ok(Some(v)),
            Err(e) => Err(e),
        },
    }
}

/// The first entry of table `T` of `tree` whose key encoding is at or after
/// `start`.
///
/// The tree is scanned from the table's id followed by `start`; the first key
/// found that does not begin with the table's id belongs to another table,
/// and since the keys of a table form one contiguous run, the table has no
/// entry at or after `start`.
pub(crate) fn first_in<T: Table>(tree: &sled::Tree, start: &[u8]) -> (r: Result<
    Option<(T::Key, T::Value)>,
    TableError,
>)
    ensures
        first_result::<T>(table_view::<T>(store::tree_entries(*tree)), start@, r),
{
    let ghost entries = store::tree_entries(*tree);
    let ghost view = table_view::<T>(entries);
    let prefix = T::id().write_key();
    let mut scan_from = T::id().write_key();
    let mut rest = vstd::slice::slice_to_vec(start);
    scan_from.append(&mut rest);
    assert(scan_from@ == physical_key::<T>(start@));
    match store::tree_first_from(tree, scan_from.as_slice()) {
        Err(e) => Err(TableError::Sled(e)),
        Ok(None) => {
            assert forall|j: Seq<u8>| view.contains_key(j) implies !order::lex_le(start@, j) by {
                if order::lex_le(start@, j) {
                    order::lemma_lt_common_prefix(id_prefix::<T>(), start@, j);
                    assert(entries.contains_key(physical_key::<T>(j)));
                    assert(order::lex_le(scan_from@, physical_key::<T>(j)));
                }
            }
            Ok(None)
        },
        Ok(Some((found, value_bytes))) => {
            if !has_prefix(found.as_slice(), prefix.as_slice()) {
                assert forall|j: Seq<u8>| view.contains_key(j) implies !order::lex_le(
                    start@,
                    j,
                ) by {
                    if order::lex_le(start@, j) {
                        let p = id_prefix::<T>();
                        order::lemma_lt_common_prefix(p, start@, j);
                        order::lemma_starts_with_add(p, start@);
                        order::lemma_starts_with_add(p, j);
                        assert(entries.contains_key(p + j));
                        assert(order::lex_le(scan_from@, p + j));
                        assert(order::lex_le(found@, p + j));
                        order::lemma_prefix_block(p, p + start@, found@, p + j);
                        order::lemma_lt_asymmetric(p + j, found@);
                        order::lemma_lt_irreflexive(found@);
                    }
                }
                return Ok(None);
            }
            let ghost p = id_prefix::<T>();
            let key_bytes = vstd::slice::slice_subrange(found.as_slice(), prefix.len(), found.len());
            proof {
                order::lemma_split(found@, p);
                let kb = key_bytes@;
                assert(found@ == p + kb);
                order::lemma_lt_common_prefix(p, start@, kb);
                assert forall|j: Seq<u8>|
                    view.contains_key(j) && order::lex_le(start@, j) implies order::lex_le(
                    kb,
                    j,
                ) by {
                    order::lemma_lt_common_prefix(p, start@, j);
                    order::lemma_lt_common_prefix(p, kb, j);
                    assert(entries.contains_key(p + j));
                    assert(order::lex_le(scan_from@, p + j));
                    assert(order::lex_le(found@, p + j));
                    if found@ == p + j {
                        order::lemma_add_cancel(p, kb, j);
                    }
                }
                assert(entries.contains_key(physical_key::<T>(kb)));
                assert(view.contains_key(kb));
                assert(order::lex_le(physical_key::<T>(start@), physical_key::<T>(kb)));
                if physical_key::<T>(start@) == physical_key::<T>(kb) {
                    order::lemma_add_cancel(p, start@, kb);
                }
                assert(order::lex_le(start@, kb));
                assert(store::is_first_from(view, start@, kb));
            }
            match T::Key::read_key(key_bytes) {
                None => Err(TableError::KeyEncoding),
                Some(k) => match T::Value::read_value(value_bytes.as_slice()) {
                    Ok(v) => Ok(Some((k, v))),
                    Err(e) => Err(e),
                },
            }
        },
    }
}

/// A lookup's result as an iterator hands it out.
pub open spec fn as_lookup<X>(r: Option<Result<X, TableError>>) -> Result<Option<X>, TableError> {
    match r {
        None => Ok(None),
        Some(Ok(x)) => Ok(Some(x)),
        Some(Err(e)) => Err(e),
    }
}

/// Read-only access to a table within a `sled::Tree`.
pub struct Reader<'a, T> {
    tree: &'a sled::Tree,
    table: PhantomData<T>,
}

/// Read and write access to a table within a `sled::Tree`.
pub struct Writer<T> {
    tree: sled::Tree,
    table: PhantomData<T>,
}

/// The entries of a table in ascending key order, from a starting key on.
///
/// Each step looks up the first entry at or after the position, then moves
/// the position just past the key it found. The sequence ends at the first
/// key of another table, and after an error.
pub struct Iter<'a, T> {
    tree: &'a sled::Tree,
    position: Vec<u8>,
    done: bool,
    table: PhantomData<T>,
}

impl<'a, T> Clone for Reader<'a, T> {
    fn clone(&self) -> (r: Reader<'a, T>) {
        Reader { tree: self.tree, table: PhantomData }
    }
}

impl<'a, T: Table> View for Reader<'a, T> {
    type V = Map<Seq<u8>, Seq<u8>>;

    open spec fn view(&self) -> Map<Seq<u8>, Seq<u8>> {
        table_view::<T>(self.entries())
    }
}

impl<T: Table> View for Writer<T> {
    type V = Map<Seq<u8>, Seq<u8>>;

    open spec fn view(&self) -> Map<Seq<u8>, Seq<u8>> {
        table_view::<T>(self.entries())
    }
}

impl<'a, T: Table> View for Iter<'a, T> {
    type V = Map<Seq<u8>, Seq<u8>>;

    open spec fn view(&self) -> Map<Seq<u8>, Seq<u8>> {
        table_view::<T>(self.entries())
    }
}

impl<'a, T: Table> Iter<'a, T> {
    /// The entries of the tree that the iterator reads.
    pub closed spec fn entries(&self) -> Map<Seq<u8>, Seq<u8>> {
        store::tree_entries(*self.tree)
    }

    /// The key encoding at or after which the next entry is looked for.
    pub closed spec fn position(&self) -> Seq<u8> {
        self.position@
    }

    /// Whether the sequence has ended.
    pub closed spec fn is_done(&self) -> bool {
        self.done
    }

    /// The next entry, at or after the position, and the position moves past
    /// its key.
    pub fn next(&mut self) -> (r: Option<Result<(T::Key, T::Value), TableError>>)
        ensures
            final(self).entries() == old(self).entries(),
            old(self).is_done() ==> r is None && final(self).is_done(),
            !old(self).is_done() ==> first_result::<T>(old(self)@, old(self).position(), as_lookup(r)),
            r matches Some(Ok(kv)) ==> final(self).position() == kv.0.key_bytes().push(0)
                && !final(self).is_done(),
            !(r is Some && r->0 is Ok) ==> final(self).is_done(),
    {
        if self.done {
            return None;
        }
        match first_in::<T>(self.tree, self.position.as_slice()) {
            Ok(Some((k, v))) => {
                let mut position = k.write_key();
                position.push(0);
                self.position = position;
                Some(Ok((k, v)))
            },
            Ok(None) => {
                self.done = true;
                None
            },
            Err(e) => {
                self.done = true;
                Some(Err(e))
            },
        }
    }
}

impl<'a, T: Table> Iter<'a, T> {
    /// End the sequence.
    pub(crate) fn finish(&mut self)
        ensures
            final(self).entries() == old(self).entries(),
            final(self).is_done(),
    {
        self.done = true;
    }
}

impl<'a, T: Table> Reader<'a, T> {
    /// The entries of the tree that the reader reads.
    pub closed spec fn entries(&self) -> Map<Seq<u8>, Seq<u8>> {
        store::tree_entries(*self.tree)
    }

    /// Read-only access to table `T` of `tree`.
    pub fn from_tree(tree: &'a sled::Tree) -> (r: Self)
        ensures
            r.entries() == store::tree_entries(*tree),
    {
        Reader { tree, table: PhantomData }
    }

    /// Retrieve the value stored under `key`, if there is one.
    pub fn get(&self, key: &T::Key) -> (r: Result<Option<T::Value>, TableError>)
        ensures
            get_result::<T>(self@, key.key_bytes(), r),
    {
        get_in::<T>(self.tree, key)
    }

    /// Iterate over all entries of the table in ascending key order.
    pub fn iter(&self) -> (r: Result<Iter<'a, T>, TableError>)
        ensures
            r matches Ok(it) ==> it.entries() == self.entries() && it.position() == Seq::<u8>::empty()
                && !it.is_done(),
            r is Ok,
    {
        Ok(Iter { tree: self.tree, position: Vec::new(), done: false, table: PhantomData })
    }

    /// Iterate over the entries of the table in ascending key order, from
    /// `key` on, `key` included.
    pub fn scan(&self, key: &T::Key) -> (r: Result<Iter<'a, T>, TableError>)
        ensures
            r matches Ok(it) ==> it.entries() == self.entries() && it.position() == key.key_bytes()
                && !it.is_done(),
            r is Ok,
    {
        Ok(Iter { tree: self.tree, position: key.write_key(), done: false, table: PhantomData })
    }

    /// The entry with the least key; the first entry of `iter`.
    pub fn min(&self) -> (r: Result<Option<(T::Key, T::Value)>, TableError>)
        ensures
            first_result::<T>(self@, Seq::<u8>::empty(), r),
    {
        let mut iter: Iter<'a, T> = Iter {
            tree: self.tree,
            position: Vec::new(),
            done: false,
            table: PhantomData,
        };
        assert(iter.position() =~= Seq::<u8>::empty());
        match iter.next() {
            None => Ok(None),
            Some(Err(err)) => Err(err),
            Some(Ok(kv)) => Ok(Some(kv)),
        }
    }

    /// The entry with the least key after `key`, `key` excluded.
    ///
    /// The least key encoding after that of `key` is that encoding followed by
    /// a zero byte, so the lookup starts there and never meets `key` itself.
    pub fn succ(&self, key: &T::Key) -> (r: Result<Option<(T::Key, T::Value)>, TableError>)
        ensures
            first_result::<T>(self@, key.key_bytes().push(0), r),
    {
        let mut start = key.write_key();
        start.push(0);
        first_in::<T>(self.tree, start.as_slice())
    }

    /// The entry with the least key at or after `key`, `key` included.
    pub fn succ_incl(&self, key: &T::Key) -> (r: Result<Option<(T::Key, T::Value)>, TableError>)
        ensures
            first_result::<T>(self@, key.key_bytes(), r),
    {
        first_in::<T>(self.tree, key.write_key().as_slice())
    }
}

impl<T: Table> Writer<T> {
    /// The entries of the tree that the writer reads and writes.
    pub closed spec fn entries(&self) -> Map<Seq<u8>, Seq<u8>> {
        store::tree_entries(self.tree)
    }

    /// Read and write access to table `T` of `tree`, which the writer owns.
    pub fn from_tree(tree: sled::Tree) -> (r: Self)
        ensures
            r.entries() == store::tree_entries(tree),
    {
        Writer { tree, table: PhantomData }
    }

    /// The same tree, handed on to another table that shares it.
    pub fn into_table<U: Table>(self) -> (r: Writer<U>)
        ensures
            r.entries() == self.entries(),
    {
        Writer { tree: self.tree, table: PhantomData }
    }

    /// Give back the tree.
    pub fn into_tree(self) -> (r: sled::Tree)
        ensures
            store::tree_entries(r) == self.entries(),
    {
        self.tree
    }

    /// Read-only access to the same table.
    pub fn reader(&self) -> (r: Reader<'_, T>)
        ensures
            r.entries() == self.entries(),
    {
        Reader { tree: &self.tree, table: PhantomData }
    }

    /// Set `key` to a new `value`.
    pub fn set(&mut self, key: &T::Key, value: &T::Value) -> (r: Result<(), TableError>)
        ensures
            r is Ok ==> final(self)@ == old(self)@.insert(
                key.key_bytes(),
                T::Value::value_bytes(value@),
            ),
            r is Ok ==> T::Value::read_bytes(T::Value::value_bytes(value@)) == Some(value@),
            r is Ok ==> final(self).entries() == old(self).entries().insert(
                physical_key::<T>(key.key_bytes()),
                T::Value::value_bytes(value@),
            ),
            r matches Err(e) ==> e is Sled || e is Bincode,
            r matches Err(TableError::Bincode(_)) ==> final(self).entries() == old(self).entries(),
    {
        set_in::<T>(&mut self.tree, key, value)
    }

    /// Remove the entry for `key`, if there is one, and give back its value.
    pub fn del(&mut self, key: &T::Key) -> (r: Result<Option<T::Value>, TableError>)
        ensures
            get_result::<T>(old(self)@, key.key_bytes(), r),
            r is Ok || r->Err_0 is Bincode ==> final(self)@ == old(self)@.remove(key.key_bytes()),
            r is Ok || r->Err_0 is Bincode ==> final(self).entries() == old(self).entries().remove(
                physical_key::<T>(key.key_bytes()),
            ),
    {
        del_in::<T>(&mut self.tree, key)
    }

    /// Retrieve the value stored under `key`, if there is one.
    pub fn get(&self, key: &T::Key) -> (r: Result<Option<T::Value>, TableError>)
        ensures
            get_result::<T>(self@, key.key_bytes(), r),
    {
        self.reader().get(key)
    }

    /// Iterate over all entries of the table in ascending key order.
    pub fn iter(&self) -> (r: Result<Iter<'_, T>, TableError>)
        ensures
            r matches Ok(it) ==> it.entries() == self.entries() && it.position() == Seq::<u8>::empty()
                && !it.is_done(),
            r is Ok,
    {
        self.reader().iter()
    }

    /// Iterate over the entries of the table in ascending key order, from
    /// `key` on, `key` included.
    pub fn scan(&self, key: &T::Key) -> (r: Result<Iter<'_, T>, TableError>)
        ensures
            r matches Ok(it) ==> it.entries() == self.entries() && it.position() == key.key_bytes()
                && !it.is_done(),
            r is Ok,
    {
        self.reader().scan(key)
    }

    /// The entry with the least key.
    pub fn min(&self) -> (r: Result<Option<(T::Key, T::Value)>, TableError>)
        ensures
            first_result::<T>(self@, Seq::<u8>::empty(), r),
    {
        self.reader().min()
    }

    /// The entry with the least key after `key`, `key` excluded.
    pub fn succ(&self, key: &T::Key) -> (r: Result<Option<(T::Key, T::Value)>, TableError>)
        ensures
            first_result::<T>(self@, key.key_bytes().push(0), r),
    {
        self.reader().succ(key)
    }

    /// The entry with the least key at or after `key`, `key` included.
    pub fn succ_incl(&self, key: &T::Key) -> (r: Result<Option<(T::Key, T::Value)>, TableError>)
        ensures
            first_result::<T>(self@, key.key_bytes(), r),
    {
        self.reader().succ_incl(key)
    }
}

} // verus!
