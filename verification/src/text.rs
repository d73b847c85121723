//! Small string helpers shared by the shaping, reordering and stream modules.
use vstd::prelude::*;
use vstd::utf8::{
    decode_utf8, encode_utf8, is_continuation_byte, is_leading_byte_width_2,
    is_leading_byte_width_3, is_leading_byte_width_4, valid_utf8,
};

verus! {

/// The characters of `text`, in order.
pub fn chars_of(text: &str) -> (v: Vec<char>)
    ensures
        v@ == text@,
{
    let mut v: Vec<char> = Vec::new();
    for c in it: text.chars()
        invariant
            it.seq() == text@,
            v@ == it.seq().take(it.index() as int),
    {
        v.push(c);
    }
    v
}

/// Trusted: `String::push` appends the character `c` to the end of `s`
/// (std documents it as "Appends the given char to the end of this String").
#[verifier::external_body]
pub(crate) fn push_char(s: &mut String, c: char)
    ensures
        final(s)@ == old(s)@.push(c),
{
    s.push(c);
}

/// Appends every character of `cs` to `s`, in order.
pub fn push_all(s: &mut String, cs: &[char])
    ensures
        final(s)@ == old(s)@ + cs@,
{
    let ghost start = s@;
    for i in 0..cs.len()
        invariant
            s@ == start + cs@.take(i as int),
    {
        push_char(s, cs[i]);
        assert(cs@.take(i + 1) == cs@.take(i as int).push(cs@[i as int]));
    }
    assert(cs@.take(cs.len() as int) == cs@);
}


/// The characters with the Unicode `White_Space` property.
pub open spec fn unicode_whitespace(c: char) -> bool {
    let cp = c as u32;
    ||| 0x0009 <= cp <= 0x000D
    ||| cp == 0x0020
    ||| cp == 0x0085
    ||| cp == 0x00A0
    ||| cp == 0x1680
    ||| 0x2000 <= cp <= 0x200A
    ||| cp == 0x2028
    ||| cp == 0x2029
    ||| cp == 0x202F
    ||| cp == 0x205F
    ||| cp == 0x3000
}

/// The ASCII punctuation characters: `!` to `/`, `:` to `@`, `[` to `` ` `` and `{` to `~`.
pub open spec fn ascii_punctuation(c: char) -> bool {
    let cp = c as u32;
    ||| 0x21 <= cp <= 0x2F
    ||| 0x3A <= cp <= 0x40
    ||| 0x5B <= cp <= 0x60
    ||| 0x7B <= cp <= 0x7E
}

/// The ASCII letters `A` to `Z` and `a` to `z`.
pub open spec fn ascii_alphabetic(c: char) -> bool {
    let cp = c as u32;
    0x41 <= cp <= 0x5A || 0x61 <= cp <= 0x7A
}

/// Whether `c` has the Unicode `White_Space` property (what
/// `char::is_whitespace` answers).
pub(crate) fn is_whitespace(c: char) -> (r: bool)
    ensures
        r == unicode_whitespace(c),
{
    let cp = c as u32;
    (0x0009 <= cp && cp <= 0x000D) || cp == 0x0020 || cp == 0x0085 || cp == 0x00A0 || cp
        == 0x1680 || (0x2000 <= cp && cp <= 0x200A) || cp == 0x2028 || cp == 0x2029 || cp
        == 0x202F || cp == 0x205F || cp == 0x3000
}

/// Whether `c` is ASCII punctuation (what `char::is_ascii_punctuation`
/// answers).
pub(crate) fn is_ascii_punctuation(c: char) -> (r: bool)
    ensures
        r == ascii_punctuation(c),
{
    let cp = c as u32;
    (0x21 <= cp && cp <= 0x2F) || (0x3A <= cp && cp <= 0x40) || (0x5B <= cp && cp <= 0x60) || (
    0x7B <= cp && cp <= 0x7E)
}

/// Whether `c` is an ASCII letter (what `char::is_ascii_alphabetic` answers).
pub(crate) fn is_ascii_alphabetic(c: char) -> (r: bool)
    ensures
        r == ascii_alphabetic(c),
{
    let cp = c as u32;
    (0x41 <= cp && cp <= 0x5A) || (0x61 <= cp && cp <= 0x7A)
}

/// A copy of `text` as an owned string.
pub fn to_owned_string(text: &str) -> (r: String)
    ensures
        r@ == text@,
{
    text.to_string()
}


/// The length of the longest prefix of `b` that is valid UTF-8.
pub open spec fn valid_prefix_len(b: Seq<u8>) -> nat
    decreases b.len(),
{
    if valid_utf8(b) || b.len() == 0 {
        b.len()
    } else {
        valid_prefix_len(b.drop_last())
    }
}

/// The longest valid prefix is valid, and no longer prefix is.
pub proof fn lemma_valid_prefix_len(b: Seq<u8>)
    ensures
        valid_prefix_len(b) <= b.len(),
        valid_utf8(b.take(valid_prefix_len(b) as int)),
        forall|k: int| valid_prefix_len(b) < k <= b.len() ==> !valid_utf8(#[trigger] b.take(k)),
        valid_utf8(b) <==> valid_prefix_len(b) == b.len(),
    decreases b.len(),
{
    if valid_utf8(b) || b.len() == 0 {
        assert(b.take(b.len() as int) =~= b);
    } else {
        let c = b.drop_last();
        lemma_valid_prefix_len(c);
        assert(c.take(valid_prefix_len(c) as int) =~= b.take(valid_prefix_len(c) as int));
        assert forall|k: int| valid_prefix_len(b) < k <= b.len() implies !valid_utf8(
            #[trigger] b.take(k),
        ) by {
            if k < b.len() {
                assert(c.take(k) =~= b.take(k));
            } else {
                assert(b.take(k) =~= b);
            }
        }
    }
}

/// Trusted: `std::str::from_utf8` succeeds exactly on valid UTF-8 and then
/// hands back the string slice that the input bytes encode; on failure the error's
/// `valid_up_to()` is, as std documents, the largest index such that the
/// prefix up to it is valid UTF-8.
#[verifier::external_body]
pub(crate) fn str_from_utf8<'a>(bytes: &'a [u8]) -> (r: Result<&'a str, usize>)
    ensures
        r is Ok <==> valid_utf8(bytes@),
        r matches Ok(s) ==> s@ == decode_utf8(bytes@),
        r matches Err(n) ==> n == valid_prefix_len(bytes@),
{
    match std::str::from_utf8(bytes) {
        Ok(s) => Ok(s),
        Err(e) => Err(e.valid_up_to()),
    }
}


/// The ASCII digits `0` to `9`.
pub open spec fn ascii_digit(c: char) -> bool {
    let cp = c as u32;
    0x30 <= cp <= 0x39
}

/// Whether `c` is an ASCII digit (what `char::is_ascii_digit` answers).
pub(crate) fn is_ascii_digit(c: char) -> (r: bool)
    ensures
        r == ascii_digit(c),
{
    let cp = c as u32;
    0x30 <= cp && cp <= 0x39
}


/// Encoding a concatenation encodes the parts one after the other.
pub proof fn lemma_encode_utf8_append(a: Seq<char>, b: Seq<char>)
    ensures
        encode_utf8(a + b) == encode_utf8(a) + encode_utf8(b),
    decreases a.len(),
{
    if a.len() == 0 {
        assert(a + b =~= b);
        assert(encode_utf8(a) =~= Seq::<u8>::empty());
        assert(encode_utf8(a) + encode_utf8(b) =~= encode_utf8(b));
    } else {
        assert((a + b).drop_first() =~= a.drop_first() + b);
        lemma_encode_utf8_append(a.drop_first(), b);
        assert(encode_utf8(a + b) =~= encode_utf8(a) + encode_utf8(b));
    }
}

/// Decoding a concatenation of valid UTF-8 decodes the parts one after the
/// other, and the concatenation is valid.
pub proof fn lemma_decode_utf8_append(a: Seq<u8>, b: Seq<u8>)
    requires
        valid_utf8(a),
        valid_utf8(b),
    ensures
        valid_utf8(a + b),
        decode_utf8(a + b) == decode_utf8(a) + decode_utf8(b),
{
    vstd::utf8::valid_utf8_concat(a, b);
    vstd::utf8::decode_utf8_encode_utf8(a);
    vstd::utf8::decode_utf8_encode_utf8(b);
    let ca = decode_utf8(a);
    let cb = decode_utf8(b);
    lemma_encode_utf8_append(ca, cb);
    vstd::utf8::encode_utf8_decode_utf8(ca + cb);
}


/// A valid prefix of valid UTF-8 ends on a character boundary: what follows
/// it is valid too, and decoding splits there.
pub proof fn lemma_valid_utf8_prefix(p: Seq<u8>, q: Seq<u8>)
    requires
        valid_utf8(p),
        valid_utf8(p + q),
    ensures
        valid_utf8(q),
        decode_utf8(p + q) == decode_utf8(p) + decode_utf8(q),
    decreases p.len(),
{
    let b = p + q;
    if p.len() == 0 {
        assert(b =~= q);
        assert(decode_utf8(p) + decode_utf8(q) =~= decode_utf8(q));
    } else {
        assert(vstd::utf8::valid_first_scalar(p));
        let l = vstd::utf8::length_of_first_scalar(p);
        assert(1 <= l <= 4 && l <= p.len());
        assert(b[0] == p[0]);
        if p.len() > 1 {
            assert(b[1] == p[1]);
        }
        if p.len() > 2 {
            assert(b[2] == p[2]);
        }
        if p.len() > 3 {
            assert(b[3] == p[3]);
        }
        assert(vstd::utf8::decode_first_scalar(b) == vstd::utf8::decode_first_scalar(p));
        assert(vstd::utf8::length_of_first_scalar(b) == l);
        let rp = vstd::utf8::pop_first_scalar(p);
        assert(vstd::utf8::pop_first_scalar(b) =~= rp + q);
        lemma_valid_utf8_prefix(rp, q);
        assert(decode_utf8(b) =~= decode_utf8(p) + decode_utf8(q));
    }
}

/// The start of a multi-byte UTF-8 character cut short: a leading byte of a
/// two-, three- or four-byte encoding, then continuation bytes only, fewer
/// bytes in all than that encoding needs.
pub open spec fn incomplete_char(t: Seq<u8>) -> bool {
    &&& t.len() > 0
    &&& forall|k: int| 1 <= k < t.len() ==> is_continuation_byte(#[trigger] t[k])
    &&& {
        ||| is_leading_byte_width_2(t[0]) && t.len() < 2
        ||| is_leading_byte_width_3(t[0]) && t.len() < 3
        ||| is_leading_byte_width_4(t[0]) && t.len() < 4
    }
}

/// Whether `t` is the start of a multi-byte character cut short.
pub fn is_incomplete_char(t: &[u8]) -> (r: bool)
    ensures
        r == incomplete_char(t@),
{
    if t.len() == 0 {
        return false;
    }
    let b = t[0];
    let width: usize = if 0xC0 <= b && b <= 0xDF {
        2
    } else if 0xE0 <= b && b <= 0xEF {
        3
    } else if 0xF0 <= b && b <= 0xF7 {
        4
    } else {
        0
    };
    if t.len() >= width {
        return false;
    }
    let mut k: usize = 1;
    while k < t.len()
        invariant
            1 <= k <= t.len(),
            forall|j: int| 1 <= j < k ==> is_continuation_byte(#[trigger] t@[j]),
        decreases t.len() - k,
    {
        if !(0x80 <= t[k] && t[k] <= 0xBF) {
            return false;
        }
        k += 1;
    }
    true
}

/// When `b` is not valid UTF-8 but `b + c` is, the bytes of `b` after its
/// longest valid prefix are the start of a single character cut short.
pub proof fn lemma_invalid_tail_short(b: Seq<u8>, c: Seq<u8>)
    requires
        !valid_utf8(b),
        valid_utf8(b + c),
    ensures
        b.len() - valid_prefix_len(b) < 4,
        incomplete_char(b.skip(valid_prefix_len(b) as int)),
{
    lemma_valid_prefix_len(b);
    let v = valid_prefix_len(b) as int;
    let p = b.take(v);
    let tail = b.skip(v);
    let u = tail + c;
    assert(b + c =~= p + u);
    lemma_valid_utf8_prefix(p, u);
    assert(tail.len() > 0);
    assert(u.len() > 0);
    reveal_with_fuel(valid_utf8, 2);
    assert(vstd::utf8::valid_first_scalar(u));
    let l = vstd::utf8::length_of_first_scalar(u);
    if tail.len() >= l {
        let first = vstd::utf8::take_first_scalar(u);
        assert(valid_utf8(first)) by {
            assert(vstd::utf8::pop_first_scalar(first) =~= Seq::<u8>::empty());
            assert(first[0] == u[0]);
            if l > 1 {
                assert(first[1] == u[1]);
            }
            if l > 2 {
                assert(first[2] == u[2]);
            }
            if l > 3 {
                assert(first[3] == u[3]);
            }
        }
        vstd::utf8::valid_utf8_concat(p, first);
        assert(p + first =~= b.take(v + l));
        assert(!valid_utf8(b.take(v + l)));
    }
    assert(tail[0] == u[0]);
    assert forall|k: int| 1 <= k < tail.len() implies is_continuation_byte(#[trigger] tail[k]) by {
        assert(tail[k] == u[k]);
    }
}

} // verus!
