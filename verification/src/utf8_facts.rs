//! How the characters of a text lie in its UTF-8 bytes.

use vstd::prelude::*;
use vstd::utf8::*;

verus! {

/// The encoding of a concatenation is the concatenation of the encodings.
pub proof fn lemma_encode_concat(a: Seq<char>, b: Seq<char>)
    ensures
        encode_utf8(a + b) == encode_utf8(a) + encode_utf8(b),
    decreases a.len(),
{
    if a.len() == 0 {
        assert(a + b =~= b);
        assert(encode_utf8(a) + encode_utf8(b) =~= encode_utf8(b));
    } else {
        lemma_encode_concat(a.drop_first(), b);
        assert((a + b).drop_first() =~= a.drop_first() + b);
        assert((a + b)[0] == a[0]);
        assert(encode_utf8(a + b) =~= encode_utf8(a) + encode_utf8(b));
    }
}

/// Two texts with the same bytes are the same text.
pub proof fn lemma_encode_injective(a: Seq<char>, b: Seq<char>)
    requires
        encode_utf8(a) == encode_utf8(b),
    ensures
        a == b,
{
    encode_utf8_decode_utf8(a);
    encode_utf8_decode_utf8(b);
}

/// A text of one character has the bytes of that character.
pub proof fn lemma_encode_single(c: char)
    ensures
        encode_utf8(seq![c]) == encode_scalar(c as u32),
{
    let s = seq![c];
    assert(s[0] == c);
    assert(s.drop_first() =~= Seq::<char>::empty());
    assert(encode_utf8(s.drop_first()) =~= Seq::<u8>::empty());
    assert(encode_utf8(s) == encode_scalar(s[0] as u32) + encode_utf8(s.drop_first()));
    assert(encode_utf8(s) =~= encode_scalar(c as u32));
}

/// The bytes of one character: between one and four, the first of them no
/// continuation byte, all the others continuation bytes.
pub proof fn lemma_scalar_shape(c: char)
    ensures
        1 <= encode_scalar(c as u32).len() <= 4,
        !is_continuation_byte(encode_scalar(c as u32)[0]),
        forall|i: int|
            1 <= i < encode_scalar(c as u32).len() ==> is_continuation_byte(
                #[trigger] encode_scalar(c as u32)[i],
            ),
        (c as u32) < 0x80 ==> encode_scalar(c as u32) == seq![c as u8],
        (c as u32) >= 0x80 ==> encode_scalar(c as u32)[0] >= 0x80,
{
    let s = seq![c];
    encode_utf8_first_scalar(s);
    lemma_encode_single(c);
    if (c as u32) < 0x80 {
        is_ascii_chars_encode_utf8(s);
        assert(encode_utf8(s)[0] == c as u8);
    }
}

/// The bytes of a non-empty text start with the bytes of its first character.
pub proof fn lemma_encode_nonempty(s: Seq<char>)
    requires
        s.len() > 0,
    ensures
        encode_utf8(s) == encode_scalar(s[0] as u32) + encode_utf8(s.drop_first()),
        encode_utf8(s).len() > 0,
        !is_continuation_byte(encode_utf8(s)[0]),
{
    lemma_scalar_shape(s[0]);
}

/// A text has at least as many bytes as characters.
pub proof fn lemma_encode_len(s: Seq<char>)
    ensures
        s.len() <= encode_utf8(s).len(),
    decreases s.len(),
{
    if s.len() > 0 {
        lemma_scalar_shape(s[0]);
        lemma_encode_len(s.drop_first());
    }
}

/// Longer prefixes have more bytes.
pub proof fn lemma_prefix_len(s: Seq<char>, j: int, k: int)
    requires
        0 <= j <= k <= s.len(),
    ensures
        encode_utf8(s.take(j)).len() + (k - j) <= encode_utf8(s.take(k)).len(),
{
    lemma_encode_concat(s.take(j), s.subrange(j, k));
    assert(s.take(j) + s.subrange(j, k) =~= s.take(k));
    lemma_encode_len(s.subrange(j, k));
}

/// If the bytes of `p` start the bytes of `s`, then `p` starts `s`.
pub proof fn lemma_prefix_chars(s: Seq<char>, p: Seq<char>)
    requires
        encode_utf8(p).len() <= encode_utf8(s).len(),
        encode_utf8(s).take(encode_utf8(p).len() as int) == encode_utf8(p),
    ensures
        p.len() <= s.len(),
        s.take(p.len() as int) == p,
    decreases p.len(),
{
    let bs = encode_utf8(s);
    let bp = encode_utf8(p);
    if p.len() == 0 {
        assert(s.take(0) =~= p);
    } else {
        lemma_encode_nonempty(p);
        assert(s.len() > 0);
        encode_utf8_first_scalar(p);
        encode_utf8_first_scalar(s);
        assert forall|i: int| 0 <= i < bp.len() implies bs[i] == bp[i] by {
            assert(bs.take(bp.len() as int)[i] == bp[i]);
        }
        assert(decode_first_scalar(bs) == decode_first_scalar(bp));
        char_u32_cast(s[0], s[0] as u32);
        char_u32_cast(p[0], p[0] as u32);
        assert(s[0] == p[0]);
        let w = encode_scalar(p[0] as u32).len() as int;
        let s1 = s.drop_first();
        let p1 = p.drop_first();
        assert(encode_utf8(s1) =~= bs.skip(w));
        assert(encode_utf8(p1) =~= bp.skip(w));
        assert(encode_utf8(s1).take(encode_utf8(p1).len() as int) =~= encode_utf8(p1));
        lemma_prefix_chars(s1, p1);
        assert forall|i: int| 0 <= i < p.len() implies s[i] == p[i] by {
            if i > 0 {
                assert(s1.take(p1.len() as int)[i - 1] == p1[i - 1]);
            }
        }
        assert(s.take(p.len() as int) =~= p);
    }
}

/// A byte that is no continuation byte starts a character: its position is the
/// number of bytes of some prefix of the text.
pub proof fn lemma_boundary_chars(s: Seq<char>, i: int) -> (k: int)
    requires
        0 <= i <= encode_utf8(s).len(),
        i == encode_utf8(s).len() || !is_continuation_byte(encode_utf8(s)[i]),
    ensures
        0 <= k <= s.len(),
        encode_utf8(s.take(k)).len() == i,
        encode_utf8(s.take(k)) == encode_utf8(s).take(i),
        encode_utf8(s.skip(k)) == encode_utf8(s).skip(i),
    decreases s.len(),
{
    let bytes = encode_utf8(s);
    if i == 0 {
        assert(s.take(0) =~= Seq::<char>::empty());
        assert(s.skip(0) =~= s);
        assert(bytes.take(0) =~= Seq::<u8>::empty());
        assert(bytes.skip(0) =~= bytes);
        0
    } else {
        assert(s.len() > 0);
        lemma_scalar_shape(s[0]);
        let head = encode_scalar(s[0] as u32);
        let w = head.len() as int;
        let s1 = s.drop_first();
        assert(bytes == head + encode_utf8(s1));
        assert(i >= w) by {
            if i < w {
                assert(bytes[i] == head[i]);
            }
        }
        assert(i == bytes.len() || bytes[i] == encode_utf8(s1)[i - w]);
        let k1 = lemma_boundary_chars(s1, i - w);
        let k = k1 + 1;
        assert(s.take(k).drop_first() =~= s1.take(k1));
        assert(s.take(k)[0] == s[0]);
        assert(s.skip(k) =~= s1.skip(k1));
        assert(encode_utf8(s.take(k)) == head + encode_utf8(s1.take(k1)));
        assert(encode_utf8(s.take(k)) =~= bytes.take(i));
        assert(encode_utf8(s.skip(k)) =~= bytes.skip(i));
        k
    }
}

/// The number of bytes of a prefix is a character boundary.
pub proof fn lemma_prefix_boundary(s: Seq<char>, k: int)
    requires
        0 <= k <= s.len(),
    ensures
        encode_utf8(s.take(k)).len() <= encode_utf8(s).len(),
        is_char_boundary(encode_utf8(s), encode_utf8(s.take(k)).len() as int),
        encode_utf8(s) == encode_utf8(s.take(k)) + encode_utf8(s.skip(k)),
{
    let bytes = encode_utf8(s);
    let i = encode_utf8(s.take(k)).len() as int;
    lemma_encode_concat(s.take(k), s.skip(k));
    assert(s.take(k) + s.skip(k) =~= s);
    encode_utf8_valid_utf8(s);
    if k == s.len() {
        assert(s.take(k) =~= s);
        is_char_boundary_start_end_of_seq(bytes);
    } else {
        lemma_encode_nonempty(s.skip(k));
        assert(bytes[i] == encode_utf8(s.skip(k))[0]);
        is_char_boundary_iff_not_is_continuation_byte(bytes, i);
    }
}

/// The last byte of a text decides whether its last character is a given
/// one-byte character.
pub proof fn lemma_last_byte(s: Seq<char>, c: char)
    requires
        s.len() > 0,
        (c as u32) < 0x80,
    ensures
        encode_utf8(s).len() > 0,
        encode_utf8(s).last() == c as u8 <==> s.last() == c,
        s.last() == c ==> encode_utf8(s) == encode_utf8(s.drop_last()).push(c as u8),
{
    let l = s.last();
    char_u32_cast(l, l as u32);
    let tail = seq![l];
    lemma_encode_concat(s.drop_last(), tail);
    assert(s.drop_last() + tail =~= s);
    lemma_scalar_shape(l);
    lemma_encode_single(l);
    let b = encode_scalar(l as u32);
    assert(encode_utf8(s).last() == b.last());
    if s.last() == c {
        assert(encode_utf8(s) =~= encode_utf8(s.drop_last()).push(c as u8));
    }
    if b.len() > 1 {
        assert(is_continuation_byte(b[b.len() - 1]));
    } else if (l as u32) >= 0x80 {
        assert(b[0] >= 0x80);
    } else {
        assert(b[0] == l as u8);
    }
}

/// The bytes of a text that starts with another character than a slash start with another
/// byte than a slash.
pub proof fn lemma_no_slash(s: Seq<char>)
    requires
        s.len() > 0,
        s[0] != '/',
    ensures
        encode_utf8(s).len() > 0,
        encode_utf8(s)[0] != 47,
{
    lemma_encode_nonempty(s);
    lemma_scalar_shape(s[0]);
    let c = s[0];
    let first = encode_scalar(c as u32);
    char_u32_cast(c, c as u32);
    assert(encode_utf8(s)[0] == first[0]);
    if (c as u32) < 0x80 {
        assert(first[0] == c as u8);
    }
}

/// The bytes of a text that closes with another character than a slash close with another
/// byte than a slash.
pub proof fn lemma_no_slash_at_end(s: Seq<char>)
    requires
        s.len() > 0,
        s.last() != '/',
    ensures
        encode_utf8(s).len() > 0,
        encode_utf8(s).last() != 47,
{
    let before = s.drop_last();
    let c = s.last();
    assert(s =~= before + seq![c]);
    lemma_encode_concat(before, seq![c]);
    lemma_encode_single(c);
    lemma_scalar_shape(c);
    let bytes = encode_scalar(c as u32);
    char_u32_cast(c, c as u32);
    assert(encode_utf8(s).last() == bytes.last());
    if (c as u32) < 0x80 {
        assert(bytes[0] == c as u8);
    } else if bytes.len() > 1 {
        assert(is_continuation_byte(bytes[bytes.len() - 1]));
    }
}

} // verus!
