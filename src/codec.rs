//! The two codecs a table needs: an order-preserving one for ids and keys,
//! and a general one for values.
//!
//! Unsigned integers are keyed by their big-endian bytes at full width, and
//! byte strings by their own bytes, so that byte order on the encoding is the
//! natural order of the values. Values go through bincode.
use vstd::prelude::*;

use crate::order;
use crate::TableError;

verus! {

#[verifier::external_type_specification]
#[verifier::external_body]
pub struct ExBincodeErrorKind(bincode::ErrorKind);

/// Types that may be used as a key into a table. The encoding must preserve
/// the order of the type: byte order on encodings is the order of keys.
pub trait Key: Sized {
    /// The encoding of the key.
    open spec fn key_bytes(&self) -> Seq<u8> {
        vstd::pervasive::arbitrary()
    }

    /// Encode the key.
    fn write_key(&self) -> (r: Vec<u8>)
        ensures
            r@ == self.key_bytes(),
    ;

    /// Decode a key; `None` where the bytes are the encoding of no key.
    fn read_key(bytes: &[u8]) -> (r: Option<Self>)
        ensures
            r matches Some(k) ==> k.key_bytes() == bytes@,
            r is None ==> forall|k: Self| #[trigger] k.key_bytes() != bytes@,
    ;
}

/// Types that may be used as an id to tell one table from the others. The
/// ids of tables that share a tree must encode to byte strings of one length
/// that differ, so that a key always splits into its id and the rest.
pub trait Id: Key {
}

/// Types that may be used as the value associated with a key.
pub trait Value: Sized + View {
    /// The encoding of a value.
    open spec fn value_bytes(v: Self::V) -> Seq<u8> {
        vstd::pervasive::arbitrary()
    }

    /// The value that some bytes decode to, if any.
    open spec fn read_bytes(bytes: Seq<u8>) -> Option<Self::V> {
        vstd::pervasive::arbitrary()
    }

    fn write_value(&self) -> (r: Result<Vec<u8>, TableError>)
        ensures
            r matches Ok(b) ==> b@ == Self::value_bytes(self@) && Self::read_bytes(b@) == Some(
                self@,
            ),
            r matches Err(e) ==> e is Bincode,
    ;

    fn read_value(bytes: &[u8]) -> (r: Result<Self, TableError>)
        ensures
            r is Ok <==> Self::read_bytes(bytes@) is Some,
            r matches Ok(v) ==> Self::read_bytes(bytes@) == Some(v@),
            r matches Err(e) ==> e is Bincode,
    ;
}

// Big-endian integers.

pub open spec fn pow256(n: nat) -> nat
    decreases n,
{
    if n == 0 {
        1
    } else {
        256 * pow256((n - 1) as nat)
    }
}

/// The `n` low bytes of `x`, most significant first.
pub open spec fn be_bytes(x: nat, n: nat) -> Seq<u8>
    decreases n,
{
    if n == 0 {
        seq![]
    } else {
        be_bytes(x / 256, (n - 1) as nat).push((x % 256) as u8)
    }
}

/// The number that big-endian bytes stand for.
pub open spec fn be_value(s: Seq<u8>) -> nat
    decreases s.len(),
{
    if s.len() == 0 {
        0
    } else {
        be_value(s.drop_last()) * 256 + s.last() as nat
    }
}

pub proof fn lemma_be_len(x: nat, n: nat)
    ensures
        be_bytes(x, n).len() == n,
    decreases n,
{
    if n > 0 {
        lemma_be_len(x / 256, (n - 1) as nat);
    }
}

pub proof fn lemma_be_value_bound(s: Seq<u8>)
    ensures
        be_value(s) < pow256(s.len()),
    decreases s.len(),
{
    if s.len() > 0 {
        let t = s.drop_last();
        lemma_be_value_bound(t);
        let v = be_value(t);
        let p = pow256(t.len());
        let l = s.last() as nat;
        assert(v * 256 + l < 256 * p) by (nonlinear_arith)
            requires
                v < p,
                l < 256,
        ;
    }
}

/// Decoding big-endian bytes and encoding the number again gives the bytes.
pub proof fn lemma_be_round_trip(s: Seq<u8>)
    ensures
        be_bytes(be_value(s), s.len()) == s,
    decreases s.len(),
{
    if s.len() > 0 {
        let t = s.drop_last();
        lemma_be_round_trip(t);
        let v = be_value(t);
        let l = s.last() as int;
        vstd::arithmetic::div_mod::lemma_fundamental_div_mod_converse(
            v * 256 + l,
            256,
            v as int,
            l,
        );
        assert(s =~= t.push(s.last()));
    }
}

/// Bytes of equal length, each with one more byte: the order is that of
/// the shorter ones, or of the last byte where those are equal.
proof fn lemma_lt_push(a: Seq<u8>, b: Seq<u8>, c: u8, d: u8)
    requires
        a.len() == b.len(),
    ensures
        order::lex_lt(a.push(c), b.push(d)) == (order::lex_lt(a, b) || (a == b && c < d)),
    decreases a.len(),
{
    if a.len() == 0 {
        assert(a =~= b);
        assert(a.push(c)[0] == c && b.push(d)[0] == d);
        assert(a.push(c).drop_first() =~= b.push(d).drop_first());
        assert(!order::lex_lt(a.push(c).drop_first(), b.push(d).drop_first()));
    } else {
        assert(a.push(c)[0] == a[0] && b.push(d)[0] == b[0]);
        assert(a.push(c).drop_first() =~= a.drop_first().push(c));
        assert(b.push(d).drop_first() =~= b.drop_first().push(d));
        lemma_lt_push(a.drop_first(), b.drop_first(), c, d);
        if a[0] == b[0] && a.drop_first() == b.drop_first() {
            assert(a =~= b) by {
                assert(a =~= seq![a[0]] + a.drop_first());
                assert(b =~= seq![b[0]] + b.drop_first());
            }
        }
    }
}

/// Big-endian encoding at a fixed width preserves the order of numbers.
pub proof fn lemma_be_order(x: nat, y: nat, n: nat)
    requires
        x < y < pow256(n),
    ensures
        order::lex_lt(be_bytes(x, n), be_bytes(y, n)),
    decreases n,
{
    if n == 0 {
    } else {
        let m = (n - 1) as nat;
        lemma_be_len(x / 256, m);
        lemma_be_len(y / 256, m);
        assert(x / 256 <= y / 256) by (nonlinear_arith)
            requires
                x < y,
        ;
        assert(y / 256 < pow256(m)) by (nonlinear_arith)
            requires
                y < 256 * pow256(m),
        ;
        if x / 256 < y / 256 {
            lemma_be_order(x / 256, y / 256, m);
        } else {
            assert(x % 256 < y % 256) by (nonlinear_arith)
                requires
                    x < y,
                    x / 256 == y / 256,
            ;
        }
        lemma_lt_push(be_bytes(x / 256, m), be_bytes(y / 256, m), (x % 256) as u8, (y % 256) as u8);
    }
}

/// Append the `n` low bytes of `x`, most significant first.
fn push_be(x: u64, n: usize, out: &mut Vec<u8>)
    ensures
        final(out)@ == old(out)@ + be_bytes(x as nat, n as nat),
    decreases n,
{
    if n > 0 {
        push_be(x / 256, n - 1, out);
        out.push((x % 256) as u8);
        assert(final(out)@ =~= old(out)@ + be_bytes(x as nat, n as nat));
    }
}

/// Read big-endian bytes of at most eight bytes.
fn read_be(bytes: &[u8]) -> (r: u64)
    requires
        bytes@.len() <= 8,
    ensures
        r as nat == be_value(bytes@),
{
    let mut acc: u64 = 0;
    let mut i: usize = 0;
    while i < bytes.len()
        invariant
            i <= bytes@.len() <= 8,
            acc as nat == be_value(bytes@.subrange(0, i as int)),
        decreases bytes@.len() - i,
    {
        proof {
            lemma_be_value_bound(bytes@.subrange(0, i as int));
            assert(pow256(i as nat) <= pow256(7)) by {
                lemma_pow256_monotone(i as nat, 7);
            }
            assert(pow256(7) == 0x100000000000000) by {
                reveal_with_fuel(pow256, 8);
            }
            let s = bytes@.subrange(0, i as int + 1);
            assert(s.drop_last() =~= bytes@.subrange(0, i as int));
        }
        acc = acc * 256 + bytes[i] as u64;
        i = i + 1;
    }
    assert(bytes@.subrange(0, i as int) =~= bytes@);
    acc
}

proof fn lemma_pow256_monotone(a: nat, b: nat)
    requires
        a <= b,
    ensures
        pow256(a) <= pow256(b),
    decreases b,
{
    if a < b {
        lemma_pow256_monotone(a, (b - 1) as nat);
    }
}

/// Decode `bytes` as a big-endian number of exactly `n` bytes.
fn read_be_exact(bytes: &[u8], n: usize) -> (r: Option<u64>)
    requires
        n <= 8,
    ensures
        r matches Some(x) ==> be_bytes(x as nat, n as nat) == bytes@ && (x as nat) < pow256(
            n as nat,
        ),
        r is None ==> forall|x: nat| #[trigger] be_bytes(x, n as nat) != bytes@,
{
    if bytes.len() == n {
        let x = read_be(bytes);
        proof {
            lemma_be_round_trip(bytes@);
            lemma_be_value_bound(bytes@);
        }
        Some(x)
    } else {
        assert forall|x: nat| #[trigger] be_bytes(x, n as nat) != bytes@ by {
            lemma_be_len(x, n as nat);
        }
        None
    }
}


// Keys and ids.

impl Key for u8 {
    open spec fn key_bytes(&self) -> Seq<u8> {
        be_bytes(*self as nat, 1)
    }

    fn write_key(&self) -> (r: Vec<u8>) {
        let mut out = Vec::new();
        push_be(*self as u64, 1, &mut out);
        assert(out@ =~= be_bytes(*self as nat, 1));
        out
    }

    fn read_key(bytes: &[u8]) -> (r: Option<u8>) {
        proof {
            reveal_with_fuel(pow256, 2);
        }
        match read_be_exact(bytes, 1) {
            Some(x) => Some(x as u8),
            None => None,
        }
    }
}

impl Key for u16 {
    open spec fn key_bytes(&self) -> Seq<u8> {
        be_bytes(*self as nat, 2)
    }

    fn write_key(&self) -> (r: Vec<u8>) {
        let mut out = Vec::new();
        push_be(*self as u64, 2, &mut out);
        assert(out@ =~= be_bytes(*self as nat, 2));
        out
    }

    fn read_key(bytes: &[u8]) -> (r: Option<u16>) {
        proof {
            reveal_with_fuel(pow256, 3);
        }
        match read_be_exact(bytes, 2) {
            Some(x) => Some(x as u16),
            None => None,
        }
    }
}

impl Key for u32 {
    open spec fn key_bytes(&self) -> Seq<u8> {
        be_bytes(*self as nat, 4)
    }

    fn write_key(&self) -> (r: Vec<u8>) {
        let mut out = Vec::new();
        push_be(*self as u64, 4, &mut out);
        assert(out@ =~= be_bytes(*self as nat, 4));
        out
    }

    fn read_key(bytes: &[u8]) -> (r: Option<u32>) {
        proof {
            reveal_with_fuel(pow256, 5);
        }
        match read_be_exact(bytes, 4) {
            Some(x) => Some(x as u32),
            None => None,
        }
    }
}

impl Key for u64 {
    open spec fn key_bytes(&self) -> Seq<u8> {
        be_bytes(*self as nat, 8)
    }

    fn write_key(&self) -> (r: Vec<u8>) {
        let mut out = Vec::new();
        push_be(*self, 8, &mut out);
        assert(out@ =~= be_bytes(*self as nat, 8));
        out
    }

    fn read_key(bytes: &[u8]) -> (r: Option<u64>) {
        read_be_exact(bytes, 8)
    }
}

impl Id for u8 {
}

impl Id for u16 {
}

impl Id for u32 {
}

impl Id for u64 {
}

/// A byte string is its own key: byte order is its natural order.
impl Key for Vec<u8> {
    open spec fn key_bytes(&self) -> Seq<u8> {
        self@
    }

    fn write_key(&self) -> (r: Vec<u8>) {
        vstd::slice::slice_to_vec(self.as_slice())
    }

    fn read_key(bytes: &[u8]) -> (r: Option<Vec<u8>>) {
        Some(vstd::slice::slice_to_vec(bytes))
    }
}

/// Unsigned integer keys sort by their encodings as they do as numbers.
pub proof fn lemma_u64_key_order(a: u64, b: u64)
    ensures
        a < b <==> order::lex_lt(a.key_bytes(), b.key_bytes()),
{
    assert(pow256(8) == 0x1_0000_0000_0000_0000) by {
        reveal_with_fuel(pow256, 9);
    }
    if a < b {
        lemma_be_order(a as nat, b as nat, 8);
    } else if b < a {
        lemma_be_order(b as nat, a as nat, 8);
        order::lemma_lt_asymmetric(b.key_bytes(), a.key_bytes());
    } else {
        order::lemma_lt_irreflexive(a.key_bytes());
    }
}

// Values.

/// What bincode::serialize writes for a byte vector.
pub uninterp spec fn bincode_of_bytes(v: Seq<u8>) -> Seq<u8>;

/// What bincode::deserialize reads as a byte vector, if it reads one.
pub uninterp spec fn bincode_read_bytes(b: Seq<u8>) -> Option<Seq<u8>>;

/// What bincode::serialize writes for a `u64`.
pub uninterp spec fn bincode_of_u64(x: u64) -> Seq<u8>;

/// What bincode::deserialize reads as a `u64`, if it reads one.
pub uninterp spec fn bincode_read_u64(b: Seq<u8>) -> Option<u64>;

/// Relies on bincode::serialize on a byte vector: the result depends on the
/// vector alone, and bincode::deserialize reads it back as the same vector.
#[verifier::external_body]
fn bincode_encode_bytes(v: &Vec<u8>) -> (r: Result<Vec<u8>, bincode::Error>)
    ensures
        r matches Ok(b) ==> b@ == bincode_of_bytes(v@) && bincode_read_bytes(b@) == Some(v@),
{
    bincode::serialize(v)
}

/// Relies on bincode::deserialize into a byte vector: the result depends on
/// the bytes alone.
#[verifier::external_body]
fn bincode_decode_bytes(b: &[u8]) -> (r: Result<Vec<u8>, bincode::Error>)
    ensures
        r is Ok <==> bincode_read_bytes(b@) is Some,
        r matches Ok(v) ==> bincode_read_bytes(b@) == Some(v@),
{
    bincode::deserialize(b)
}

/// Relies on bincode::serialize on a `u64`: the result depends on the number
/// alone, and bincode::deserialize reads it back as the same number.
#[verifier::external_body]
fn bincode_encode_u64(x: u64) -> (r: Result<Vec<u8>, bincode::Error>)
    ensures
        r matches Ok(b) ==> b@ == bincode_of_u64(x) && bincode_read_u64(b@) == Some(x),
{
    bincode::serialize(&x)
}

/// Relies on bincode::deserialize into a `u64`: the result depends on the
/// bytes alone.
#[verifier::external_body]
fn bincode_decode_u64(b: &[u8]) -> (r: Result<u64, bincode::Error>)
    ensures
        r is Ok <==> bincode_read_u64(b@) is Some,
        r matches Ok(x) ==> bincode_read_u64(b@) == Some(x),
{
    bincode::deserialize(b)
}

/// Relies on bincode::serialize on `()`: it writes no bytes.
#[verifier::external_body]
fn bincode_encode_unit() -> (r: Result<Vec<u8>, bincode::Error>)
    ensures
        r matches Ok(b) ==> b@.len() == 0,
{
    bincode::serialize(&())
}

/// Relies on bincode::deserialize into `()`: it reads no bytes, and trailing
/// bytes are allowed, so it reads any input.
#[verifier::external_body]
fn bincode_decode_unit(b: &[u8]) -> (r: Result<(), bincode::Error>)
    ensures
        r is Ok,
{
    bincode::deserialize(b)
}

impl Value for Vec<u8> {
    open spec fn value_bytes(v: Seq<u8>) -> Seq<u8> {
        bincode_of_bytes(v)
    }

    open spec fn read_bytes(bytes: Seq<u8>) -> Option<Seq<u8>> {
        bincode_read_bytes(bytes)
    }

    fn write_value(&self) -> (r: Result<Vec<u8>, TableError>) {
        match bincode_encode_bytes(self) {
            Ok(b) => Ok(b),
            Err(e) => Err(TableError::Bincode(e)),
        }
    }

    fn read_value(bytes: &[u8]) -> (r: Result<Vec<u8>, TableError>) {
        match bincode_decode_bytes(bytes) {
            Ok(v) => Ok(v),
            Err(e) => Err(TableError::Bincode(e)),
        }
    }
}

impl Value for u64 {
    open spec fn value_bytes(v: u64) -> Seq<u8> {
        bincode_of_u64(v)
    }

    open spec fn read_bytes(bytes: Seq<u8>) -> Option<u64> {
        bincode_read_u64(bytes)
    }

    fn write_value(&self) -> (r: Result<Vec<u8>, TableError>) {
        match bincode_encode_u64(*self) {
            Ok(b) => Ok(b),
            Err(e) => Err(TableError::Bincode(e)),
        }
    }

    fn read_value(bytes: &[u8]) -> (r: Result<u64, TableError>) {
        match bincode_decode_u64(bytes) {
            Ok(x) => Ok(x),
            Err(e) => Err(TableError::Bincode(e)),
        }
    }
}

/// The unit value, for tables whose keys are all that matters.
impl Value for () {
    open spec fn value_bytes(v: ()) -> Seq<u8> {
        seq![]
    }

    open spec fn read_bytes(bytes: Seq<u8>) -> Option<()> {
        Some(())
    }

    fn write_value(&self) -> (r: Result<Vec<u8>, TableError>) {
        match bincode_encode_unit() {
            Ok(b) => {
                assert(b@ =~= seq![]);
                Ok(b)
            },
            Err(e) => Err(TableError::Bincode(e)),
        }
    }

    fn read_value(bytes: &[u8]) -> (r: Result<(), TableError>) {
        match bincode_decode_unit(bytes) {
            Ok(()) => Ok(()),
            Err(e) => Err(TableError::Bincode(e)),
        }
    }
}

} // verus!
