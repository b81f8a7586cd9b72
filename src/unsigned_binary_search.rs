//! Finding the greatest key of a table, or the greatest key before a given
//! one, by a binary search over an unsigned integer range, for a store that
//! only scans forwards.
use vstd::prelude::*;

use vstd::arithmetic::power2::pow2;

use crate::codec::{Key, Value};
use crate::order;
use crate::store;
use crate::table::{Reader, Table, Writer};
use crate::TableError;

verus! {

/// Unsigned integer types that may be used in a binary search: all numbers
/// from zero below a power of two.
pub trait UnsignedInteger: Sized + Copy {
    /// The width of the type in bits.
    open spec fn spec_bits() -> nat {
        vstd::pervasive::arbitrary()
    }

    /// The number as a `u64`.
    open spec fn spec_to_u64(self) -> u64 {
        vstd::pervasive::arbitrary()
    }

    /// The greatest number of the type.
    fn max_value() -> (r: u64)
        ensures
            1 <= Self::spec_bits() <= 64,
            r as nat + 1 == pow2(Self::spec_bits()),
    ;

    fn from_u64(x: u64) -> (r: Self)
        requires
            (x as nat) < pow2(Self::spec_bits()),
        ensures
            r.spec_to_u64() == x,
    ;
}

/// Keys with an order-preserving embedding of an unsigned integer range.
pub trait UnsignedBinarySearchKey: Key {
    /// The unsigned integer representation of the key.
    type UnsignedInteger: UnsignedInteger;

    /// The key that stands at point `x` of the range.
    open spec fn key_at(x: u64) -> Self {
        vstd::pervasive::arbitrary()
    }

    /// Create a key from its unsigned integer representation. Keys at
    /// greater points of the range have greater encodings.
    fn from_unsigned_integer(u: Self::UnsignedInteger) -> (r: Self)
        ensures
            r == Self::key_at(u.spec_to_u64()),
            forall|x: u64, y: u64|
                #![trigger Self::key_at(x), Self::key_at(y)]
                x < y && (y as nat) < pow2(<Self::UnsignedInteger as UnsignedInteger>::spec_bits())
                    ==> order::lex_lt(Self::key_at(x).key_bytes(), Self::key_at(y).key_bytes()),
    ;
}

/// Keys at greater points of the range of `K` have greater encodings.
pub open spec fn order_preserving<K: UnsignedBinarySearchKey>() -> bool {
    forall|x: u64, y: u64|
        #![trigger K::key_at(x), K::key_at(y)]
        x < y && in_range::<K>(y) ==> order::lex_lt(point::<K>(x), point::<K>(y))
}

impl UnsignedInteger for u8 {
    open spec fn spec_bits() -> nat {
        8
    }

    open spec fn spec_to_u64(self) -> u64 {
        self as u64
    }

    fn max_value() -> (r: u64) {
        proof {
            vstd::arithmetic::power2::lemma2_to64();
        }
        0xff
    }

    fn from_u64(x: u64) -> (r: u8) {
        proof {
            vstd::arithmetic::power2::lemma2_to64();
        }
        x as u8
    }
}

impl UnsignedInteger for u16 {
    open spec fn spec_bits() -> nat {
        16
    }

    open spec fn spec_to_u64(self) -> u64 {
        self as u64
    }

    fn max_value() -> (r: u64) {
        proof {
            vstd::arithmetic::power2::lemma2_to64();
        }
        0xffff
    }

    fn from_u64(x: u64) -> (r: u16) {
        proof {
            vstd::arithmetic::power2::lemma2_to64();
        }
        x as u16
    }
}

impl UnsignedInteger for u32 {
    open spec fn spec_bits() -> nat {
        32
    }

    open spec fn spec_to_u64(self) -> u64 {
        self as u64
    }

    fn max_value() -> (r: u64) {
        proof {
            vstd::arithmetic::power2::lemma2_to64();
        }
        0xffff_ffff
    }

    fn from_u64(x: u64) -> (r: u32) {
        proof {
            vstd::arithmetic::power2::lemma2_to64();
        }
        x as u32
    }
}

impl UnsignedInteger for u64 {
    open spec fn spec_bits() -> nat {
        64
    }

    open spec fn spec_to_u64(self) -> u64 {
        self
    }

    fn max_value() -> (r: u64) {
        proof {
            vstd::arithmetic::power2::lemma2_to64_rest();
        }
        0xffff_ffff_ffff_ffff
    }

    fn from_u64(x: u64) -> (r: u64) {
        x
    }
}

impl UnsignedBinarySearchKey for u8 {
    type UnsignedInteger = u8;

    open spec fn key_at(x: u64) -> u8 {
        x as u8
    }

    fn from_unsigned_integer(u: u8) -> (r: u8) {
        proof {
            vstd::arithmetic::power2::lemma2_to64();
            vstd::arithmetic::power2::lemma2_to64_rest();
            assert(crate::codec::pow256(1) == 256) by {
                reveal_with_fuel(crate::codec::pow256, 2);
            }
            assert forall|x: u64, y: u64|
                #![trigger Self::key_at(x), Self::key_at(y)]
                x < y && (y as nat) < pow2(<u8 as UnsignedInteger>::spec_bits()) implies order::lex_lt(
                    Self::key_at(x).key_bytes(),
                    Self::key_at(y).key_bytes(),
                ) by {
                crate::codec::lemma_be_order(x as nat, y as nat, 1);
            }
        }
        u
    }

}

impl UnsignedBinarySearchKey for u16 {
    type UnsignedInteger = u16;

    open spec fn key_at(x: u64) -> u16 {
        x as u16
    }

    fn from_unsigned_integer(u: u16) -> (r: u16) {
        proof {
            vstd::arithmetic::power2::lemma2_to64();
            vstd::arithmetic::power2::lemma2_to64_rest();
            assert(crate::codec::pow256(2) == 0x10000) by {
                reveal_with_fuel(crate::codec::pow256, 3);
            }
            assert forall|x: u64, y: u64|
                #![trigger Self::key_at(x), Self::key_at(y)]
                x < y && (y as nat) < pow2(<u16 as UnsignedInteger>::spec_bits()) implies order::lex_lt(
                    Self::key_at(x).key_bytes(),
                    Self::key_at(y).key_bytes(),
                ) by {
                crate::codec::lemma_be_order(x as nat, y as nat, 2);
            }
        }
        u
    }

}

impl UnsignedBinarySearchKey for u32 {
    type UnsignedInteger = u32;

    open spec fn key_at(x: u64) -> u32 {
        x as u32
    }

    fn from_unsigned_integer(u: u32) -> (r: u32) {
        proof {
            vstd::arithmetic::power2::lemma2_to64();
            vstd::arithmetic::power2::lemma2_to64_rest();
            assert(crate::codec::pow256(4) == 0x1_0000_0000) by {
                reveal_with_fuel(crate::codec::pow256, 5);
            }
            assert forall|x: u64, y: u64|
                #![trigger Self::key_at(x), Self::key_at(y)]
                x < y && (y as nat) < pow2(<u32 as UnsignedInteger>::spec_bits()) implies order::lex_lt(
                    Self::key_at(x).key_bytes(),
                    Self::key_at(y).key_bytes(),
                ) by {
                crate::codec::lemma_be_order(x as nat, y as nat, 4);
            }
        }
        u
    }

}

impl UnsignedBinarySearchKey for u64 {
    type UnsignedInteger = u64;

    open spec fn key_at(x: u64) -> u64 {
        x
    }

    fn from_unsigned_integer(u: u64) -> (r: u64) {
        proof {
            vstd::arithmetic::power2::lemma2_to64();
            vstd::arithmetic::power2::lemma2_to64_rest();
            assert(crate::codec::pow256(8) == 0x1_0000_0000_0000_0000) by {
                reveal_with_fuel(crate::codec::pow256, 9);
            }
            assert forall|x: u64, y: u64|
                #![trigger Self::key_at(x), Self::key_at(y)]
                x < y && (y as nat) < pow2(<u64 as UnsignedInteger>::spec_bits()) implies order::lex_lt(
                    Self::key_at(x).key_bytes(),
                    Self::key_at(y).key_bytes(),
                ) by {
                crate::codec::lemma_be_order(x as nat, y as nat, 8);
            }
        }
        u
    }

}

/// The encoding of the key at point `x` of the range of `K`.
pub open spec fn point<K: UnsignedBinarySearchKey>(x: u64) -> Seq<u8> {
    K::key_at(x).key_bytes()
}

/// Whether point `x` lies in the range of `K`.
pub open spec fn in_range<K: UnsignedBinarySearchKey>(x: u64) -> bool {
    (x as nat) < pow2(<K::UnsignedInteger as UnsignedInteger>::spec_bits())
}

/// Every key of `view` is the encoding of the key at some point of the range.
pub open spec fn in_domain<K: UnsignedBinarySearchKey>(view: Map<Seq<u8>, Seq<u8>>) -> bool {
    forall|j: Seq<u8>|
        view.contains_key(j) ==> exists|x: u64| in_range::<K>(x) && #[trigger] point::<K>(x) == j
}

/// Key encoding `k` is below `bound`: before it, or also equal to it where
/// `inclusive`. Without a bound every key qualifies.
pub open spec fn below(k: Seq<u8>, bound: Option<Seq<u8>>, inclusive: bool) -> bool {
    match bound {
        None => true,
        Some(b) => if inclusive {
            order::lex_le(k, b)
        } else {
            order::lex_lt(k, b)
        },
    }
}

/// `k` is the last key of `view` below `bound`: what a full scan of the table
/// would keep last among the keys that qualify.
pub open spec fn is_last_below(
    view: Map<Seq<u8>, Seq<u8>>,
    bound: Option<Seq<u8>>,
    inclusive: bool,
    k: Seq<u8>,
) -> bool {
    &&& view.contains_key(k)
    &&& below(k, bound, inclusive)
    &&& forall|j: Seq<u8>| view.contains_key(j) && below(j, bound, inclusive) ==> order::lex_le(j, k)
}

/// No key of `view` is below `bound`.
pub open spec fn none_below(view: Map<Seq<u8>, Seq<u8>>, bound: Option<Seq<u8>>, inclusive: bool) -> bool {
    forall|j: Seq<u8>| view.contains_key(j) ==> !below(j, bound, inclusive)
}

/// Some entry of `view` holds a key or a value that does not decode.
pub open spec fn has_bad_entry<T: Table>(view: Map<Seq<u8>, Seq<u8>>) -> bool {
    exists|j: Seq<u8>|
        view.contains_key(j) && ((forall|k: T::Key| #[trigger] k.key_bytes() != j)
            || T::Value::read_bytes(view[j]) is None)
}

/// `r` is what a search for the last entry of `view` below `bound` gives.
/// Where every key of the table lies in the range, the entry found is the
/// last one below the bound, as a full scan would find it.
pub open spec fn search_result<T: Table>(
    view: Map<Seq<u8>, Seq<u8>>,
    bound: Option<Seq<u8>>,
    inclusive: bool,
    r: Result<Option<(T::Key, T::Value)>, TableError>,
) -> bool where T::Key: UnsignedBinarySearchKey {
    match r {
        Ok(Some((k, v))) => {
            &&& view.contains_key(k.key_bytes())
            &&& below(k.key_bytes(), bound, inclusive)
            &&& T::Value::read_bytes(view[k.key_bytes()]) == Some(v@)
            &&& in_domain::<T::Key>(view) ==> is_last_below(view, bound, inclusive, k.key_bytes())
        },
        Ok(None) => in_domain::<T::Key>(view) ==> none_below(view, bound, inclusive),
        Err(TableError::Sled(_)) => true,
        Err(_) => has_bad_entry::<T>(view),
    }
}

/// No key of `view` at or after `start` is below `bound`.
spec fn fails_from(
    view: Map<Seq<u8>, Seq<u8>>,
    start: Seq<u8>,
    bound: Option<Seq<u8>>,
    inclusive: bool,
) -> bool {
    forall|j: Seq<u8>| view.contains_key(j) && order::lex_le(start, j) ==> !below(j, bound, inclusive)
}

/// A key before a key that is below the bound is below it too.
pub(crate) proof fn lemma_below_closed(a: Seq<u8>, j: Seq<u8>, bound: Option<Seq<u8>>, inclusive: bool)
    requires
        order::lex_le(a, j),
        below(j, bound, inclusive),
    ensures
        below(a, bound, inclusive),
{
    if let Some(b) = bound {
        if inclusive {
            order::lemma_le_transitive(a, j, b);
        } else if a != j {
            order::lemma_lt_transitive(a, j, b);
        }
    }
}

proof fn lemma_point_monotone<K: UnsignedBinarySearchKey>(x: u64, y: u64)
    requires
        order_preserving::<K>(),
        x <= y,
        in_range::<K>(y),
    ensures
        order::lex_le(point::<K>(x), point::<K>(y)),
{
    if x < y {
        assert(order::lex_lt(point::<K>(x), point::<K>(y)));
    }
}

/// Whether key encoding `k` is below `bound`.
pub(crate) fn is_below(k: &[u8], bound: &Option<Vec<u8>>, inclusive: bool) -> (r: bool)
    ensures
        r == below(
            k@,
            match bound {
                Some(b) => Some(b@),
                None => None,
            },
            inclusive,
        ),
{
    match bound {
        None => true,
        Some(b) => if inclusive {
            order::bytes_equal(k, b.as_slice()) || order::lex_less(k, b.as_slice())
        } else {
            order::lex_less(k, b.as_slice())
        },
    }
}

/// The last entry of the table below `bound`, found by a binary search over
/// the range of the key type.
///
/// A probe at point `a` looks up the first entry at or after the key at `a`.
/// Where that entry is below the bound it is the best found so far and the
/// search moves up; otherwise it moves down. Points at and below the last
/// probe that moved up are known to lead to entries below the bound, points
/// at and above the last probe that moved down are known not to. When the
/// step reaches zero those two points are neighbours, and the entry found at
/// the lower one is the answer. Where no probe moved up, the only key that
/// can qualify is the one at point zero, which one direct lookup settles.
fn find_last<T: Table>(table: &Reader<T>, bound: Option<&T::Key>, inclusive: bool) -> (r: Result<
    Option<(T::Key, T::Value)>,
    TableError,
>) where T::Key: UnsignedBinarySearchKey
    ensures
        search_result::<T>(
            table@,
            match bound {
                Some(k) => Some(k.key_bytes()),
                None => None,
            },
            inclusive,
            r,
        ),
{
    let ghost view = table@;
    let ghost sbound = match bound {
        Some(k) => Some(k.key_bytes()),
        None => None,
    };
    let bound_bytes: Option<Vec<u8>> = match bound {
        Some(k) => Some(k.write_key()),
        None => None,
    };
    let ghost bits = <<T::Key as UnsignedBinarySearchKey>::UnsignedInteger as UnsignedInteger>::spec_bits();
    let max = <<T::Key as UnsignedBinarySearchKey>::UnsignedInteger as UnsignedInteger>::max_value();
    proof {
        vstd::arithmetic::power2::lemma_pow2_unfold(bits);
    }
    let zero_key = T::Key::from_unsigned_integer(
        <<T::Key as UnsignedBinarySearchKey>::UnsignedInteger as UnsignedInteger>::from_u64(0),
    );
    let mut attempt: u64 = max / 2 + 1;
    let mut step: u64 = attempt;
    let mut greatest: Option<(T::Key, T::Value)> = None;
    let ghost mut lo: int = 0;
    let ghost mut hi: int = max as int + 1;
    let ghost mut m: nat = (bits - 1) as nat;
    while step != 0
        invariant
            max as nat + 1 == pow2(bits),
            order_preserving::<T::Key>(),
            zero_key == T::Key::key_at(0),
            bits == <<T::Key as UnsignedBinarySearchKey>::UnsignedInteger as UnsignedInteger>::spec_bits(),
            view == table@,
            step == 0 || step as nat == pow2(m),
            step > 0 ==> lo == attempt - step && hi == attempt + step,
            step == 0 ==> hi == lo + 1,
            0 <= lo < hi <= max + 1,
            lo > 0 ==> match greatest {
                Some((k, v)) => {
                    &&& store::is_first_from(view, point::<T::Key>(lo as u64), k.key_bytes())
                    &&& below(k.key_bytes(), sbound, inclusive)
                    &&& T::Value::read_bytes(view[k.key_bytes()]) == Some(v@)
                },
                None => false,
            },
            lo == 0 ==> greatest is None,
            hi <= max ==> fails_from(view, point::<T::Key>(hi as u64), sbound, inclusive),
            bound_bytes matches Some(b) ==> sbound == Some(b@),
            bound_bytes is None ==> sbound is None,
        decreases step,
    {
        proof {
            if m > 0 {
                vstd::arithmetic::power2::lemma_pow2_unfold(m);
            } else {
                vstd::arithmetic::power2::lemma2_to64();
            }
        }
        step = step / 2;
        let ghost m0 = m;
        proof {
            if m > 0 {
                m = (m - 1) as nat;
            }
        }
        let attempt_key = T::Key::from_unsigned_integer(
            <<T::Key as UnsignedBinarySearchKey>::UnsignedInteger as UnsignedInteger>::from_u64(
                attempt,
            ),
        );
        let ghost at = point::<T::Key>(attempt);
        match table.succ_incl(&attempt_key) {
            Err(err) => {
                return Err(err);
            },
            Ok(Some((k, v))) => {
                let key_bytes = k.write_key();
                if is_below(key_bytes.as_slice(), &bound_bytes, inclusive) {
                    greatest = Some((k, v));
                    proof {
                        lo = attempt as int;
                    }
                    attempt = attempt + step;
                } else {
                    proof {
                        hi = attempt as int;
                        assert forall|j: Seq<u8>|
                            view.contains_key(j) && order::lex_le(at, j) implies !below(
                            j,
                            sbound,
                            inclusive,
                        ) by {
                            if below(j, sbound, inclusive) {
                                lemma_below_closed(key_bytes@, j, sbound, inclusive);
                            }
                        }
                    }
                    attempt = attempt - step;
                }
            },
            Ok(None) => {
                proof {
                    hi = attempt as int;
                }
                attempt = attempt - step;
            },
        }
    }
    proof {
        vstd::arithmetic::power2::lemma_pow2_pos((bits - 1) as nat);
    }
    if greatest.is_none() {
        let zero_bytes = zero_key.write_key();
        let ghost z = point::<T::Key>(0);
        proof {
            // Only the key at point zero can be below the bound.
            assert forall|j: Seq<u8>|
                in_domain::<T::Key>(view) && view.contains_key(j) && below(
                    j,
                    sbound,
                    inclusive,
                ) implies j == z by {
                let x = choose|x: u64| in_range::<T::Key>(x) && #[trigger] point::<T::Key>(x) == j;
                if x > 0 {
                    lemma_point_monotone::<T::Key>(1, x);
                }
            }
        }
        match table.get(&zero_key) {
            Err(err) => {
                return Err(err);
            },
            Ok(Some(v)) => {
                if is_below(zero_bytes.as_slice(), &bound_bytes, inclusive) {
                    greatest = Some((zero_key, v));
                }
            },
            Ok(None) => {},
        }
    } else {
        proof {
            let found = greatest->0;
            let kb = found.0.key_bytes();
            if in_domain::<T::Key>(view) {
                assert forall|j: Seq<u8>|
                    view.contains_key(j) && below(j, sbound, inclusive) implies order::lex_le(
                    j,
                    kb,
                ) by {
                    let x = choose|x: u64| in_range::<T::Key>(x) && #[trigger] point::<T::Key>(x) == j;
                    if x <= lo as u64 {
                        lemma_point_monotone::<T::Key>(x, lo as u64);
                        order::lemma_le_transitive(j, point::<T::Key>(lo as u64), kb);
                    } else {
                        lemma_point_monotone::<T::Key>(hi as u64, x);
                    }
                }
            }
        }
    }
    Ok(greatest)
}


/// Find the entry with the greatest key before `key`, or at `key` where
/// `inclusive`, by a binary search over the key's unsigned integer range.
pub fn find_pred<T: Table>(table: &Reader<T>, key: &T::Key, inclusive: bool) -> (r: Result<
    Option<(T::Key, T::Value)>,
    TableError,
>) where T::Key: UnsignedBinarySearchKey
    ensures
        search_result::<T>(table@, Some(key.key_bytes()), inclusive, r),
{
    find_last(table, Some(key), inclusive)
}

/// Find the entry with the greatest key by a binary search over the key's
/// unsigned integer range.
pub fn find_max<T: Table>(table: &Reader<T>) -> (r: Result<Option<(T::Key, T::Value)>, TableError>) where
    T::Key: UnsignedBinarySearchKey,

    ensures
        search_result::<T>(table@, None, false, r),
{
    find_last(table, None, false)
}

impl<'a, T: Table> Reader<'a, T> where T::Key: UnsignedBinarySearchKey {
    /// The entry with the greatest key: the last entry of `iter`, found
    /// without a scan of the table.
    pub fn max(&self) -> (r: Result<Option<(T::Key, T::Value)>, TableError>)
        ensures
            search_result::<T>(self@, None, false, r),
    {
        find_max(self)
    }

    /// The entry with the greatest key at or before `key`.
    pub fn pred_incl(&self, key: &T::Key) -> (r: Result<Option<(T::Key, T::Value)>, TableError>)
        ensures
            search_result::<T>(self@, Some(key.key_bytes()), true, r),
    {
        find_pred(self, key, true)
    }

    /// The entry with the greatest key before `key`.
    pub fn pred(&self, key: &T::Key) -> (r: Result<Option<(T::Key, T::Value)>, TableError>)
        ensures
            search_result::<T>(self@, Some(key.key_bytes()), false, r),
    {
        find_pred(self, key, false)
    }
}

impl<T: Table> Writer<T> where T::Key: UnsignedBinarySearchKey {
    /// The entry with the greatest key.
    pub fn max(&self) -> (r: Result<Option<(T::Key, T::Value)>, TableError>)
        ensures
            search_result::<T>(self@, None, false, r),
    {
        self.reader().max()
    }

    /// The entry with the greatest key at or before `key`.
    pub fn pred_incl(&self, key: &T::Key) -> (r: Result<Option<(T::Key, T::Value)>, TableError>)
        ensures
            search_result::<T>(self@, Some(key.key_bytes()), true, r),
    {
        self.reader().pred_incl(key)
    }

    /// The entry with the greatest key before `key`.
    pub fn pred(&self, key: &T::Key) -> (r: Result<Option<(T::Key, T::Value)>, TableError>)
        ensures
            search_result::<T>(self@, Some(key.key_bytes()), false, r),
    {
        self.reader().pred(key)
    }
}

} // verus!
