//! Byte-lexicographic order on byte strings, the order in which the store
//! keeps its keys, and the facts about prefixes that make every table a
//! contiguous run of keys.
use vstd::prelude::*;

verus! {

/// `a` sorts strictly before `b`: at the first position where they differ
/// `a` holds the smaller byte, or `a` is a proper prefix of `b`.
pub open spec fn lex_lt(a: Seq<u8>, b: Seq<u8>) -> bool
    decreases a.len(),
{
    if b.len() == 0 {
        false
    } else if a.len() == 0 {
        true
    } else if a[0] != b[0] {
        a[0] < b[0]
    } else {
        lex_lt(a.drop_first(), b.drop_first())
    }
}

pub open spec fn lex_le(a: Seq<u8>, b: Seq<u8>) -> bool {
    a == b || lex_lt(a, b)
}

/// `s` begins with the bytes of `p`.
pub open spec fn starts_with(s: Seq<u8>, p: Seq<u8>) -> bool {
    p.len() <= s.len() && s.subrange(0, p.len() as int) == p
}

pub proof fn lemma_lt_irreflexive(a: Seq<u8>)
    ensures
        !lex_lt(a, a),
    decreases a.len(),
{
    if a.len() > 0 {
        lemma_lt_irreflexive(a.drop_first());
    }
}

pub proof fn lemma_lt_transitive(a: Seq<u8>, b: Seq<u8>, c: Seq<u8>)
    requires
        lex_lt(a, b),
        lex_lt(b, c),
    ensures
        lex_lt(a, c),
    decreases a.len(),
{
    if a.len() > 0 && a[0] == b[0] && b[0] == c[0] {
        lemma_lt_transitive(a.drop_first(), b.drop_first(), c.drop_first());
    }
}

pub proof fn lemma_lt_total(a: Seq<u8>, b: Seq<u8>)
    ensures
        a == b || lex_lt(a, b) || lex_lt(b, a),
    decreases a.len(),
{
    if a.len() > 0 && b.len() > 0 && a[0] == b[0] {
        lemma_lt_total(a.drop_first(), b.drop_first());
        if a.drop_first() == b.drop_first() {
            assert(a =~= seq![a[0]] + a.drop_first());
            assert(b =~= seq![b[0]] + b.drop_first());
        }
    } else if a.len() == 0 && b.len() == 0 {
        assert(a =~= b);
    }
}

pub proof fn lemma_lt_asymmetric(a: Seq<u8>, b: Seq<u8>)
    requires
        lex_lt(a, b),
    ensures
        !lex_lt(b, a),
{
    if lex_lt(b, a) {
        lemma_lt_transitive(a, b, a);
        lemma_lt_irreflexive(a);
    }
}

pub proof fn lemma_le_transitive(a: Seq<u8>, b: Seq<u8>, c: Seq<u8>)
    requires
        lex_le(a, b),
        lex_le(b, c),
    ensures
        lex_le(a, c),
{
    if lex_lt(a, b) && lex_lt(b, c) {
        lemma_lt_transitive(a, b, c);
    }
}

/// Two byte strings compare as their common prefix is taken away.
pub proof fn lemma_lt_common_prefix(p: Seq<u8>, x: Seq<u8>, y: Seq<u8>)
    ensures
        lex_lt(p + x, p + y) == lex_lt(x, y),
    decreases p.len(),
{
    if p.len() > 0 {
        assert((p + x).drop_first() =~= p.drop_first() + x);
        assert((p + y).drop_first() =~= p.drop_first() + y);
        lemma_lt_common_prefix(p.drop_first(), x, y);
    } else {
        assert(p + x =~= x);
        assert(p + y =~= y);
    }
}

/// A byte string that begins with `p` and is at or after a byte string `c`
/// that begins with `p` comes before every later byte string that does not:
/// the byte strings that begin with `p` form one contiguous run.
pub proof fn lemma_prefix_block(p: Seq<u8>, c: Seq<u8>, q: Seq<u8>, s: Seq<u8>)
    requires
        starts_with(c, p),
        starts_with(s, p),
        lex_le(c, q),
        !starts_with(q, p),
    ensures
        lex_lt(s, q),
    decreases p.len(),
{
    if p.len() == 0 {
        assert(q.subrange(0, 0) =~= p);
    } else {
        assert(c[0] == p[0] && s[0] == p[0]) by {
            assert(c.subrange(0, p.len() as int)[0] == p[0]);
            assert(s.subrange(0, p.len() as int)[0] == p[0]);
        }
        if c == q {
        } else if q.len() == 0 {
        } else if q[0] != p[0] {
        } else {
            assert(c.drop_first().subrange(0, p.len() - 1) =~= p.drop_first()) by {
                assert(c.subrange(0, p.len() as int) == p);
            }
            assert(s.drop_first().subrange(0, p.len() - 1) =~= p.drop_first()) by {
                assert(s.subrange(0, p.len() as int) == p);
            }
            if p.len() - 1 <= q.len() - 1 && q.drop_first().subrange(0, p.len() - 1)
                =~= p.drop_first() {
                assert(q.subrange(0, p.len() as int) =~= p) by {
                    assert forall|i: int| 0 <= i < p.len() implies q.subrange(
                        0,
                        p.len() as int,
                    )[i] == p[i] by {
                        if i > 0 {
                            assert(q.drop_first().subrange(0, p.len() - 1)[i - 1] == p.drop_first()[i
                                - 1]);
                        }
                    }
                }
            }
            lemma_prefix_block(p.drop_first(), c.drop_first(), q.drop_first(), s.drop_first());
        }
    }
}

/// A byte string of width `n` sorts no later than any byte string whose
/// first `n` bytes sort no earlier than it.
pub proof fn lemma_le_from_head(p: Seq<u8>, j: Seq<u8>)
    requires
        p.len() <= j.len(),
        lex_le(p, j.subrange(0, p.len() as int)),
    ensures
        lex_le(p, j),
{
    let h = j.subrange(0, p.len() as int);
    let rest = j.subrange(p.len() as int, j.len() as int);
    assert(j =~= h + rest);
    assert(p + Seq::<u8>::empty() =~= p);
    if h == p {
        lemma_lt_common_prefix(p, Seq::empty(), rest);
        if rest.len() == 0 {
            assert(j =~= p);
        }
    } else {
        lemma_lt_fixed_width(p, h, Seq::empty(), rest);
    }
}

/// The least byte string after `k` is `k` followed by a zero byte.
pub proof fn lemma_lt_iff_le_push_zero(k: Seq<u8>, j: Seq<u8>)
    ensures
        lex_lt(k, j) == lex_le(k.push(0), j),
    decreases k.len(),
{
    let kz = k.push(0);
    assert(kz[0] == if k.len() == 0 { 0u8 } else { k[0] });
    assert(kz.drop_first() =~= if k.len() == 0 { seq![] } else { k.drop_first().push(0) });
    if j.len() == 0 {
        assert(kz != j);
    } else if kz[0] != j[0] {
        assert(kz != j);
    } else if k.len() == 0 {
        assert(!lex_lt(kz.drop_first(), j.drop_first()) <==> j.drop_first().len() == 0);
        if j.drop_first().len() == 0 {
            assert(j =~= kz);
        }
    } else {
        lemma_lt_iff_le_push_zero(k.drop_first(), j.drop_first());
        if kz.drop_first() == j.drop_first() {
            assert(j =~= seq![j[0]] + j.drop_first());
            assert(kz =~= seq![kz[0]] + kz.drop_first());
        }
    }
}

/// Equal prefixes may be taken away.
pub proof fn lemma_add_cancel(p: Seq<u8>, a: Seq<u8>, b: Seq<u8>)
    requires
        p + a == p + b,
    ensures
        a == b,
{
    assert(a =~= (p + a).subrange(p.len() as int, (p + a).len() as int));
    assert(b =~= (p + b).subrange(p.len() as int, (p + b).len() as int));
}

/// A byte string that begins with `p` is `p` and what follows.
pub proof fn lemma_split(q: Seq<u8>, p: Seq<u8>)
    requires
        starts_with(q, p),
    ensures
        q == p + q.subrange(p.len() as int, q.len() as int),
{
    assert(q =~= p + q.subrange(p.len() as int, q.len() as int));
}

pub proof fn lemma_starts_with_add(p: Seq<u8>, k: Seq<u8>)
    ensures
        starts_with(p + k, p),
{
    assert((p + k).subrange(0, p.len() as int) =~= p);
}

/// Byte strings of equal length keep their order whatever follows them.
pub proof fn lemma_lt_fixed_width(a: Seq<u8>, b: Seq<u8>, c: Seq<u8>, d: Seq<u8>)
    requires
        a.len() == b.len(),
        lex_lt(a, b),
    ensures
        lex_lt(a + c, b + d),
    decreases a.len(),
{
    assert((a + c)[0] == a[0] && (b + d)[0] == b[0]);
    if a[0] == b[0] {
        assert((a + c).drop_first() =~= a.drop_first() + c);
        assert((b + d).drop_first() =~= b.drop_first() + d);
        lemma_lt_fixed_width(a.drop_first(), b.drop_first(), c, d);
    }
}

/// Where a byte string of width `n` and what follows sorts no later than
/// `j`, it sorts no later than the first `n` bytes of `j`.
pub proof fn lemma_le_head(s: Seq<u8>, m: Seq<u8>, j: Seq<u8>)
    requires
        s.len() <= j.len(),
        lex_le(s + m, j),
    ensures
        lex_le(s, j.subrange(0, s.len() as int)),
{
    let t = j.subrange(0, s.len() as int);
    let rest = j.subrange(s.len() as int, j.len() as int);
    assert(j =~= t + rest);
    lemma_lt_total(s, t);
    if lex_lt(t, s) {
        lemma_lt_fixed_width(t, s, rest, m);
        if s + m == j {
            lemma_lt_irreflexive(j);
        } else {
            lemma_lt_asymmetric(j, s + m);
        }
    }
}

/// Byte strings in order have their first `n` bytes in order.
pub proof fn lemma_head_monotone(j1: Seq<u8>, j2: Seq<u8>, n: nat)
    requires
        n <= j1.len(),
        n <= j2.len(),
        lex_le(j1, j2),
    ensures
        lex_le(j1.subrange(0, n as int), j2.subrange(0, n as int)),
{
    let t1 = j1.subrange(0, n as int);
    let t2 = j2.subrange(0, n as int);
    assert(j1 =~= t1 + j1.subrange(n as int, j1.len() as int));
    assert(j2 =~= t2 + j2.subrange(n as int, j2.len() as int));
    lemma_lt_total(t1, t2);
    if lex_lt(t2, t1) {
        lemma_lt_fixed_width(t2, t1, j2.subrange(n as int, j2.len() as int), j1.subrange(n as int, j1.len() as int));
        if j1 == j2 {
            lemma_lt_irreflexive(j1);
        } else {
            lemma_lt_asymmetric(j1, j2);
        }
    }
}

/// Whether `a` sorts strictly before `b`.
pub fn lex_less(a: &[u8], b: &[u8]) -> (r: bool)
    ensures
        r == lex_lt(a@, b@),
{
    let mut i: usize = 0;
    while i < a.len() && i < b.len()
        invariant
            i <= a@.len(),
            i <= b@.len(),
            a@.subrange(0, i as int) == b@.subrange(0, i as int),
        decreases a@.len() - i,
    {
        if a[i] != b[i] {
            proof {
                let p = a@.subrange(0, i as int);
                let x = a@.subrange(i as int, a@.len() as int);
                let y = b@.subrange(i as int, b@.len() as int);
                assert(a@ =~= p + x);
                assert(b@ =~= p + y);
                lemma_lt_common_prefix(p, x, y);
                assert(x[0] == a@[i as int] && y[0] == b@[i as int]);
            }
            return a[i] < b[i];
        }
        assert(a@.subrange(0, i as int + 1) =~= b@.subrange(0, i as int + 1)) by {
            assert(a@.subrange(0, i as int + 1) =~= a@.subrange(0, i as int).push(a@[i as int]));
            assert(b@.subrange(0, i as int + 1) =~= b@.subrange(0, i as int).push(b@[i as int]));
        }
        i = i + 1;
    }
    proof {
        let p = a@.subrange(0, i as int);
        let x = a@.subrange(i as int, a@.len() as int);
        let y = b@.subrange(i as int, b@.len() as int);
        assert(a@ =~= p + x);
        assert(b@ =~= p + y);
        lemma_lt_common_prefix(p, x, y);
    }
    a.len() < b.len()
}

/// Whether `a` and `b` hold the same bytes.
pub fn bytes_equal(a: &[u8], b: &[u8]) -> (r: bool)
    ensures
        r == (a@ == b@),
{
    if a.len() != b.len() {
        return false;
    }
    let mut i: usize = 0;
    while i < a.len()
        invariant
            a@.len() == b@.len(),
            i <= a@.len(),
            forall|j: int| 0 <= j < i ==> a@[j] == b@[j],
        decreases a@.len() - i,
    {
        if a[i] != b[i] {
            return false;
        }
        i = i + 1;
    }
    assert(a@ =~= b@);
    true
}

} // verus!
