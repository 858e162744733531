//! Facts about the UTF-8 form of character sequences that the record
//! format relies on, and small string builders.

use vstd::prelude::*;
use vstd::utf8::*;

verus! {

broadcast use vstd::utf8::group_utf8_lib;

/// The UTF-8 form of a concatenation is the concatenation of the forms.
pub proof fn lemma_encode_concat(a: Seq<char>, b: Seq<char>)
    ensures
        encode_utf8(a + b) == encode_utf8(a) + encode_utf8(b),
    decreases a.len(),
{
    if a.len() == 0 {
        assert(a + b =~= b);
        assert(encode_utf8(a) =~= Seq::<u8>::empty());
        assert(encode_utf8(a) + encode_utf8(b) =~= encode_utf8(b));
    } else {
        assert((a + b).drop_first() =~= a.drop_first() + b);
        assert((a + b)[0] == a[0]);
        lemma_encode_concat(a.drop_first(), b);
        assert(encode_utf8(a + b) =~= encode_scalar(a[0] as u32) + (encode_utf8(a.drop_first())
            + encode_utf8(b)));
    }
}

/// An ASCII character sequence has one byte per character.
pub proof fn lemma_encode_ascii_len(a: Seq<char>)
    requires
        is_ascii_chars(a),
    ensures
        encode_utf8(a).len() == a.len(),
{
    is_ascii_chars_encode_utf8(a);
}

/// The UTF-8 form of `a + rest`: the bytes of `rest` start right after
/// those of `a`, on a character boundary.
pub proof fn lemma_concat_split(a: Seq<char>, rest: Seq<char>)
    ensures
        encode_utf8(a + rest).len() == encode_utf8(a).len() + encode_utf8(rest).len(),
        encode_utf8(a + rest).subrange(0, encode_utf8(a).len() as int) == encode_utf8(a),
        encode_utf8(a + rest).subrange(
            encode_utf8(a).len() as int,
            encode_utf8(a + rest).len() as int,
        ) == encode_utf8(rest),
        is_char_boundary(encode_utf8(a + rest), encode_utf8(a).len() as int),
{
    lemma_encode_concat(a, rest);
    let n = encode_utf8(a).len() as int;
    let b = encode_utf8(a + rest);
    assert(b.subrange(0, n) =~= encode_utf8(a));
    assert(b.subrange(n, b.len() as int) =~= encode_utf8(rest));
    if n < b.len() {
        let r = encode_utf8(rest);
        assert(valid_utf8(r));
        is_char_boundary_start_end_of_seq(r);
        assert(is_char_boundary(r, 0));
        is_char_boundary_iff_not_is_continuation_byte(r, 0);
        assert(b[n] == r[0]);
        is_char_boundary_iff_not_is_continuation_byte(b, n);
    } else {
        is_char_boundary_start_end_of_seq(b);
    }
}

/// The same, for an ASCII `a`, whose UTF-8 form has one byte per character.
pub proof fn lemma_ascii_prefix_split(a: Seq<char>, rest: Seq<char>)
    requires
        is_ascii_chars(a),
    ensures
        encode_utf8(a + rest).len() == a.len() + encode_utf8(rest).len(),
        encode_utf8(a + rest).subrange(0, a.len() as int) == encode_utf8(a),
        encode_utf8(a + rest).subrange(a.len() as int, encode_utf8(a + rest).len() as int)
            == encode_utf8(rest),
        is_char_boundary(encode_utf8(a + rest), a.len() as int),
{
    lemma_encode_ascii_len(a);
    lemma_concat_split(a, rest);
}

/// `s` begins with `p`.
pub open spec fn starts_with(s: Seq<char>, p: Seq<char>) -> bool {
    p.len() <= s.len() && s.subrange(0, p.len() as int) == p
}

/// The pieces of a text between `sep` characters, empty ones included.
pub open spec fn split_on(s: Seq<char>, sep: char) -> Seq<Seq<char>>
    decreases s.len(),
{
    if s.len() == 0 {
        seq![Seq::empty()]
    } else if s.last() == sep {
        split_on(s.drop_last(), sep).push(Seq::empty())
    } else {
        let p = split_on(s.drop_last(), sep);
        p.update(p.len() - 1, p.last().push(s.last()))
    }
}

/// `p` holds no `c`.
pub open spec fn has_no(p: Seq<char>, c: char) -> bool {
    forall|i: int| 0 <= i < p.len() ==> #[trigger] p[i] != c
}

/// A split text has at least one piece.
pub proof fn lemma_split_on_nonempty(s: Seq<char>, sep: char)
    ensures
        split_on(s, sep).len() >= 1,
    decreases s.len(),
{
    if s.len() > 0 {
        lemma_split_on_nonempty(s.drop_last(), sep);
    }
}

/// Characters without a separator extend the last piece.
pub proof fn lemma_split_on_append_piece(x: Seq<char>, p: Seq<char>, sep: char)
    requires
        has_no(p, sep),
    ensures
        split_on(x + p, sep) == split_on(x, sep).update(
            split_on(x, sep).len() - 1,
            split_on(x, sep).last() + p,
        ),
    decreases p.len(),
{
    lemma_split_on_nonempty(x, sep);
    let sx = split_on(x, sep);
    if p.len() == 0 {
        assert(x + p =~= x);
        assert(sx.last() + p =~= sx.last());
        assert(sx.update(sx.len() - 1, sx.last()) =~= sx);
    } else {
        let init = p.drop_last();
        assert forall|i: int| 0 <= i < init.len() implies #[trigger] init[i] != sep by {
            assert(init[i] == p[i]);
        }
        lemma_split_on_append_piece(x, init, sep);
        assert((x + p).drop_last() =~= x + init);
        assert((x + p).last() == p.last());
        assert(p.last() != sep);
        assert(sx.last() + init + seq![p.last()] =~= sx.last() + p);
        let mid = sx.update(sx.len() - 1, sx.last() + init);
        assert(mid.last() == sx.last() + init);
        assert(mid.last().push(p.last()) =~= sx.last() + p);
        assert(mid.update(mid.len() - 1, mid.last().push(p.last())) =~= sx.update(
            sx.len() - 1,
            sx.last() + p,
        ));
    }
}

} // verus!
