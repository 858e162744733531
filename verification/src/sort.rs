//! Ordering entries by relative path, the way `str` orders: byte by byte.

use vstd::prelude::*;
use vstd::multiset::Multiset;
use vstd::utf8::*;

use crate::seqs;

verus! {

/// Lexicographic order on bytes, a proper prefix first.
pub open spec fn bytes_le(a: Seq<u8>, b: Seq<u8>) -> bool
    decreases a.len(),
{
    if a.len() == 0 {
        true
    } else if b.len() == 0 {
        false
    } else if a[0] < b[0] {
        true
    } else if a[0] > b[0] {
        false
    } else {
        bytes_le(a.drop_first(), b.drop_first())
    }
}

/// The order of `str`: by UTF-8 bytes.
pub open spec fn str_le(a: Seq<char>, b: Seq<char>) -> bool {
    bytes_le(encode_utf8(a), encode_utf8(b))
}

/// Any two byte sequences are ordered one way or the other.
pub proof fn lemma_bytes_le_total(a: Seq<u8>, b: Seq<u8>)
    ensures
        bytes_le(a, b) || bytes_le(b, a),
    decreases a.len(),
{
    if a.len() > 0 && b.len() > 0 && a[0] == b[0] {
        lemma_bytes_le_total(a.drop_first(), b.drop_first());
    }
}

/// The byte order is transitive.
pub proof fn lemma_bytes_le_transitive(a: Seq<u8>, b: Seq<u8>, c: Seq<u8>)
    requires
        bytes_le(a, b),
        bytes_le(b, c),
    ensures
        bytes_le(a, c),
    decreases a.len(),
{
    if a.len() > 0 && b.len() > 0 && c.len() > 0 && a[0] == b[0] && b[0] == c[0] {
        lemma_bytes_le_transitive(a.drop_first(), b.drop_first(), c.drop_first());
    }
}

/// Every byte sequence comes no later than itself.
pub proof fn lemma_bytes_le_reflexive(a: Seq<u8>)
    ensures
        bytes_le(a, a),
    decreases a.len(),
{
    if a.len() > 0 {
        lemma_bytes_le_reflexive(a.drop_first());
    }
}

/// A proper prefix comes first: a byte sequence comes no later than any
/// extension of it, and an extension by at least one byte comes after it.
pub proof fn lemma_bytes_le_prefix_first(a: Seq<u8>, c: Seq<u8>)
    ensures
        bytes_le(a, a + c),
        c.len() > 0 ==> !bytes_le(a + c, a),
    decreases a.len(),
{
    if a.len() > 0 {
        assert((a + c).drop_first() =~= a.drop_first() + c);
        assert((a + c)[0] == a[0]);
        lemma_bytes_le_prefix_first(a.drop_first(), c);
    }
}

/// The order is decided by the first byte at which the two sequences
/// differ: the one with the smaller byte there comes first.
pub proof fn lemma_bytes_le_first_difference(a: Seq<u8>, b: Seq<u8>, i: int)
    requires
        0 <= i < a.len(),
        i < b.len(),
        forall|j: int| 0 <= j < i ==> a[j] == b[j],
        a[i] != b[i],
    ensures
        bytes_le(a, b) == (a[i] < b[i]),
    decreases i,
{
    if i > 0 {
        assert forall|j: int| 0 <= j < i - 1 implies a.drop_first()[j] == b.drop_first()[j] by {
            assert(a[j + 1] == b[j + 1]);
        }
        assert(a[0] == b[0]);
        lemma_bytes_le_first_difference(a.drop_first(), b.drop_first(), i - 1);
    }
}

/// A string comes no later than any extension of it, and an extension by
/// at least one character comes after it.
pub proof fn lemma_str_le_prefix_first(a: Seq<char>, c: Seq<char>)
    ensures
        str_le(a, a + c),
        c.len() > 0 ==> !str_le(a + c, a),
{
    crate::text::lemma_encode_concat(a, c);
    lemma_bytes_le_prefix_first(encode_utf8(a), encode_utf8(c));
    if c.len() > 0 {
        assert(encode_scalar(c[0] as u32).len() > 0);
        assert(encode_utf8(c).len() > 0);
    }
}

/// Entries that are ordered by a key string.
pub trait Keyed: View + Sized {
    /// The key of an entry's view.
    spec fn key_of(v: Self::V) -> Seq<char>;

    /// The key of this entry.
    fn key(&self) -> (k: &str)
        ensures
            k@ == Self::key_of(self@),
    ;
}

/// The views of a sequence of entries.
pub open spec fn views<T: View>(s: Seq<T>) -> Seq<T::V> {
    s.map_values(|x: T| x@)
}

/// The entries are in increasing order of key.
pub open spec fn sorted_by_key<T: Keyed>(s: Seq<T::V>) -> bool {
    forall|i: int, j: int|
        0 <= i < j < s.len() ==> str_le(#[trigger] T::key_of(s[i]), #[trigger] T::key_of(s[j]))
}

/// The entries whose key is `k`, in their order.
pub open spec fn with_key<T: Keyed>(s: Seq<T::V>, k: Seq<char>) -> Seq<T::V> {
    s.filter(key_is::<T>(k))
}

/// Whether an entry has the key `k`.
pub open spec fn key_is<T: Keyed>(k: Seq<char>) -> spec_fn(T::V) -> bool {
    |v: T::V| T::key_of(v) == k
}

/// Whether `a` comes no later than `b` in the order of `str`.
pub fn str_le_exec(a: &str, b: &str) -> (r: bool)
    ensures
        r == str_le(a@, b@),
{
    let x = a.as_bytes();
    let y = b.as_bytes();
    let ghost xs = x@;
    let ghost ys = y@;
    let mut i: usize = 0;
    assert(xs.skip(0) =~= xs);
    assert(ys.skip(0) =~= ys);
    while i < x.len() && i < y.len() && x[i] == y[i]
        invariant
            i <= x@.len(),
            i <= y@.len(),
            xs == x@,
            ys == y@,
            bytes_le(xs, ys) == bytes_le(xs.skip(i as int), ys.skip(i as int)),
        decreases x@.len() - i,
    {
        assert(xs.skip(i as int).drop_first() =~= xs.skip(i + 1));
        assert(ys.skip(i as int).drop_first() =~= ys.skip(i + 1));
        i = i + 1;
    }
    if i == x.len() {
        true
    } else if i == y.len() {
        false
    } else {
        assert(xs.skip(i as int)[0] == x@[i as int]);
        assert(ys.skip(i as int)[0] == y@[i as int]);
        x[i] < y[i]
    }
}

/// Sorts entries by key, keeping entries with equal keys in their order.
pub fn sort_by_key<T: Keyed>(v: Vec<T>) -> (r: Vec<T>)
    ensures
        views(r@).to_multiset() == views(v@).to_multiset(),
        sorted_by_key::<T>(views(r@)),
        forall|k: Seq<char>| #[trigger] with_key::<T>(views(r@), k) == with_key::<T>(views(v@), k),
{
    broadcast use vstd::seq_lib::group_to_multiset_ensures;

    let mut input = v;
    let ghost orig = views(input@);
    let mut out: Vec<T> = Vec::new();
    assert forall|k: Seq<char>| #[trigger] with_key::<T>(views(out@), k) == with_key::<T>(
        orig.skip(input@.len() as int),
        k,
    ) by {
        reveal(Seq::filter);
        assert(orig.skip(input@.len() as int) =~= Seq::<T::V>::empty());
        assert(views(out@) =~= Seq::<T::V>::empty());
    }
    // Entries are taken from the back of `input`, so `input` shrinks.
    while input.len() > 0
        invariant
            input@.len() <= orig.len(),
            views(input@) == orig.take(input@.len() as int),
            views(out@).to_multiset().add(views(input@).to_multiset()) == orig.to_multiset(),
            sorted_by_key::<T>(views(out@)),
            forall|k: Seq<char>| #[trigger] with_key::<T>(views(out@), k) == with_key::<T>(
                orig.skip(input@.len() as int),
                k,
            ),
        decreases input@.len(),
    {
        let ghost before_in = views(input@);
        let x = input.pop().unwrap();
        let ghost xv = x@;
        proof {
            assert(views(input@) =~= before_in.drop_last());
            assert(before_in =~= views(input@).push(xv));
            assert(views(input@) =~= orig.take(input@.len() as int));
        }
        // Entries come from the back, so an entry goes before those with an
        // equal key: entries with equal keys keep their order.
        let mut p: usize = 0;
        while p < out.len() && !str_le_exec(x.key(), out[p].key())
            invariant
                p <= out@.len(),
                xv == x@,
                forall|k: int| 0 <= k < p ==> !str_le(T::key_of(xv), T::key_of(#[trigger] views(out@)[k])),
            decreases out@.len() - p,
        {
            assert(views(out@)[p as int] == out@[p as int]@);
            p = p + 1;
        }
        assert(p < out@.len() ==> views(out@)[p as int] == out@[p as int]@);
        let ghost before_out = views(out@);
        let ghost done_before = orig.skip((input@.len() + 1) as int);
        out.insert(p, x);
        proof {
            assert(views(out@) =~= before_out.insert(p as int, xv));
            vstd::seq_lib::to_multiset_insert(before_out, p as int, xv);
            vstd::seq_lib::to_multiset_build(views(input@), xv);
            assert(views(out@).to_multiset().add(views(input@).to_multiset()) =~= orig.to_multiset());
            let s = views(out@);
            // equal keys: x goes first among the entries with its key
            assert(orig.skip(input@.len() as int) =~= seq![xv] + done_before) by {
                assert(before_in[input@.len() as int] == xv);
                assert(orig.take((input@.len() + 1) as int)[input@.len() as int] == orig[input@.len() as int]);
            }
            assert forall|k: Seq<char>| #[trigger] with_key::<T>(s, k) == with_key::<T>(
                orig.skip(input@.len() as int),
                k,
            ) by {
                let q = key_is::<T>(k);
                assert(with_key::<T>(before_out, k) == with_key::<T>(done_before, k));
                let front = before_out.take(p as int);
                let back = before_out.skip(p as int);
                assert(before_out =~= front + back);
                assert(s =~= front + (seq![xv] + back));
                Seq::filter_distributes_over_add(front, back, q);
                Seq::filter_distributes_over_add(front, seq![xv] + back, q);
                back.lemma_filter_prepend(xv, q);
                done_before.lemma_filter_prepend(xv, q);
                if T::key_of(xv) == k {
                    assert forall|m: int| 0 <= m < front.len() implies !q(#[trigger] front[m]) by {
                        assert(front[m] == before_out[m]);
                        lemma_bytes_le_reflexive(encode_utf8(T::key_of(xv)));
                    }
                    crate::seqs::lemma_filter_none(front, q);
                }
                assert(with_key::<T>(s, k) =~= with_key::<T>(orig.skip(input@.len() as int), k));
            }
            assert forall|i: int, j: int| 0 <= i < j < s.len() implies str_le(
                #[trigger] T::key_of(s[i]),
                #[trigger] T::key_of(s[j]),
            ) by {
                let ki = encode_utf8(T::key_of(s[i]));
                let kj = encode_utf8(T::key_of(s[j]));
                let kx = encode_utf8(T::key_of(xv));
                if j < p {
                    assert(s[i] == before_out[i] && s[j] == before_out[j]);
                } else if j == p {
                    // every entry before p is less than x
                    assert(s[i] == before_out[i]);
                    assert(!str_le(T::key_of(xv), T::key_of(before_out[i])));
                    lemma_bytes_le_total(ki, kx);
                } else if i == p {
                    // x is no greater than the entry at p, now at p + 1
                    let kp = encode_utf8(T::key_of(before_out[p as int]));
                    assert(str_le(T::key_of(xv), T::key_of(before_out[p as int])));
                    assert(s[j] == before_out[j - 1]);
                    if j - 1 > p {
                        assert(str_le(T::key_of(before_out[p as int]), T::key_of(before_out[j - 1])));
                        lemma_bytes_le_transitive(kx, kp, kj);
                    }
                } else if i < p {
                    assert(s[i] == before_out[i] && s[j] == before_out[j - 1]);
                } else {
                    assert(s[i] == before_out[i - 1] && s[j] == before_out[j - 1]);
                }
            }
        }
    }
    assert(views(input@).to_multiset() =~= Multiset::empty());
    assert(orig.skip(0) =~= orig);
    out
}

/// Two byte sequences each no later than the other are equal.
pub proof fn lemma_bytes_le_antisymmetric(a: Seq<u8>, b: Seq<u8>)
    requires
        bytes_le(a, b),
        bytes_le(b, a),
    ensures
        a == b,
    decreases a.len(),
{
    if a.len() > 0 && b.len() > 0 {
        lemma_bytes_le_antisymmetric(a.drop_first(), b.drop_first());
        assert(a =~= seq![a[0]] + a.drop_first());
        assert(b =~= seq![b[0]] + b.drop_first());
    } else {
        assert(a =~= b);
    }
}

/// No key occurs twice.
pub open spec fn distinct_keys<T: Keyed>(s: Seq<T::V>) -> bool {
    forall|i: int, j: int|
        0 <= i < j < s.len() ==> T::key_of(#[trigger] s[i]) != T::key_of(#[trigger] s[j])
}

/// Entries sorted by key, with no key twice, are fixed by which entries they
/// are: two such sequences with the same entries are equal.
pub proof fn lemma_sorted_unique<T: Keyed>(a: Seq<T::V>, b: Seq<T::V>)
    requires
        a.to_multiset() == b.to_multiset(),
        sorted_by_key::<T>(a),
        sorted_by_key::<T>(b),
        distinct_keys::<T>(a),
    ensures
        a == b,
    decreases a.len(),
{
    vstd::seq_lib::to_multiset_len(a);
    vstd::seq_lib::to_multiset_len(b);
    if a.len() == 0 {
        assert(a =~= b);
    } else {
        assert(a.contains(a[0]));
        assert(b.contains(b[0]));
        seqs::lemma_multiset_contains(a, b, a[0]);
        seqs::lemma_multiset_contains(a, b, b[0]);
        let k = choose|k: int| 0 <= k < b.len() && b[k] == a[0];
        let m = choose|m: int| 0 <= m < a.len() && a[m] == b[0];
        if m != 0 {
            assert(str_le(T::key_of(a[0]), T::key_of(a[m])));
            if k == 0 {
                assert(T::key_of(a[0]) == T::key_of(a[m]));
            } else {
                assert(str_le(T::key_of(b[0]), T::key_of(b[k])));
                lemma_bytes_le_antisymmetric(
                    encode_utf8(T::key_of(a[0])),
                    encode_utf8(T::key_of(b[0])),
                );
                encode_utf8_decode_utf8(T::key_of(a[0]));
                encode_utf8_decode_utf8(T::key_of(b[0]));
                assert(T::key_of(a[0]) == T::key_of(a[m]));
            }
        }
        assert(a[0] == b[0]);
        let a1 = a.drop_first();
        let b1 = b.drop_first();
        vstd::seq_lib::to_multiset_remove(a, 0);
        vstd::seq_lib::to_multiset_remove(b, 0);
        assert(a.remove(0) =~= a1);
        assert(b.remove(0) =~= b1);
        assert forall|i: int, j: int| 0 <= i < j < a1.len() implies str_le(
            #[trigger] T::key_of(a1[i]),
            #[trigger] T::key_of(a1[j]),
        ) by {
            assert(a1[i] == a[i + 1] && a1[j] == a[j + 1]);
        }
        assert forall|i: int, j: int| 0 <= i < j < b1.len() implies str_le(
            #[trigger] T::key_of(b1[i]),
            #[trigger] T::key_of(b1[j]),
        ) by {
            assert(b1[i] == b[i + 1] && b1[j] == b[j + 1]);
        }
        assert forall|i: int, j: int| 0 <= i < j < a1.len() implies T::key_of(#[trigger] a1[i])
            != T::key_of(#[trigger] a1[j]) by {
            assert(a1[i] == a[i + 1] && a1[j] == a[j + 1]);
        }
        lemma_sorted_unique::<T>(a1, b1);
        assert(a =~= b) by {
            assert forall|i: int| 0 <= i < a.len() implies a[i] == b[i] by {
                if i > 0 {
                    assert(a[i] == a1[i - 1] && b[i] == b1[i - 1]);
                }
            }
        }
    }
}

} // verus!
