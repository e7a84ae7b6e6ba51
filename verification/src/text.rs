//! Text produced and consumed by the store: UTF-8 names, decimal byte
//! lists and lowercase hexadecimal digests.

use vstd::prelude::*;
use vstd::utf8::*;

verus! {

/// Every byte is below 128.
pub open spec fn is_ascii_bytes(b: Seq<u8>) -> bool {
    forall|i: int| 0 <= i < b.len() ==> #[trigger] b[i] < 128
}

/// The characters that ASCII bytes stand for.
pub open spec fn ascii_chars(b: Seq<u8>) -> Seq<char> {
    Seq::new(b.len(), |i: int| b[i] as char)
}

/// What lossy decoding gives for bytes that are not valid UTF-8.
pub uninterp spec fn lossy_replacement(bytes: Seq<u8>) -> Seq<char>;

/// Lossy UTF-8 decoding: valid input decodes exactly, other input is
/// decoded with replacement characters.
pub open spec fn decode_lossy(bytes: Seq<u8>) -> Seq<char> {
    if valid_utf8(bytes) {
        decode_utf8(bytes)
    } else {
        lossy_replacement(bytes)
    }
}

/// Calls `String::from_utf8_lossy` and takes the owned string.
/// Claimed: a valid UTF-8 input comes back as its decoding; any other input
/// gives a string that depends on the bytes alone (`lossy_replacement`).
#[verifier::external_body]
pub(crate) fn string_from_utf8_lossy(bytes: &[u8]) -> (s: String)
    ensures
        s@ == decode_lossy(bytes@),
        !valid_utf8(bytes@) ==> s@ == lossy_replacement(bytes@),
{
    String::from_utf8_lossy(bytes).to_string()
}

/// ASCII bytes decode to the characters they stand for.
pub proof fn lemma_ascii_decode(b: Seq<u8>)
    requires
        is_ascii_bytes(b),
    ensures
        valid_utf8(b),
        decode_utf8(b) == ascii_chars(b),
{
    let chars = ascii_chars(b);
    assert forall|i: int| 0 <= i < chars.len() implies '\0' <= #[trigger] chars[i] <= '\u{7f}' by {
        assert(b[i] < 128);
    }
    assert(is_ascii_chars(chars));
    is_ascii_chars_encode_utf8(chars);
    assert forall|i: int| 0 <= i < b.len() implies encode_utf8(chars)[i] == b[i] by {
        assert(chars[i] as u8 == encode_utf8(chars)[i]);
        assert(b[i] < 128);
    }
    assert(encode_utf8(chars) =~= b);
    encode_utf8_valid_utf8(chars);
    encode_utf8_decode_utf8(chars);
}

/// The string whose characters are the given ASCII bytes.
pub fn ascii_string(bytes: &[u8]) -> (s: String)
    requires
        is_ascii_bytes(bytes@),
    ensures
        s@ == ascii_chars(bytes@),
{
    proof {
        lemma_ascii_decode(bytes@);
    }
    string_from_utf8_lossy(bytes)
}

/// The ASCII code of the decimal digit `d`.
pub open spec fn digit(d: int) -> u8 {
    (48 + d) as u8
}

/// `x` in decimal, without leading zeros.
pub open spec fn decimal_u8(x: u8) -> Seq<u8> {
    if x >= 100 {
        seq![digit((x / 100) as int), digit(((x / 10) % 10) as int), digit((x % 10) as int)]
    } else if x >= 10 {
        seq![digit((x / 10) as int), digit((x % 10) as int)]
    } else {
        seq![digit(x as int)]
    }
}

/// The decimal numbers of `b`, separated by `", "`.
pub open spec fn decimal_items(b: Seq<u8>) -> Seq<u8>
    decreases b.len(),
{
    if b.len() == 0 {
        seq![]
    } else if b.len() == 1 {
        decimal_u8(b[0])
    } else {
        decimal_items(b.drop_last()) + seq![44u8, 32u8] + decimal_u8(b.last())
    }
}

/// A byte list written as `[1, 2, 3]`.
pub open spec fn decimal_list(b: Seq<u8>) -> Seq<u8> {
    seq![91u8] + decimal_items(b) + seq![93u8]
}

/// The ASCII code of the lowercase hexadecimal digit `v` (below 16).
pub open spec fn hex_digit(v: int) -> u8 {
    if v < 10 {
        (48 + v) as u8
    } else {
        (87 + v) as u8
    }
}

/// Two lowercase hexadecimal digits per byte, high nibble first.
pub open spec fn hex_lower(b: Seq<u8>) -> Seq<u8>
    decreases b.len(),
{
    if b.len() == 0 {
        seq![]
    } else {
        hex_lower(b.drop_last()) + seq![hex_digit((b.last() / 16) as int), hex_digit((b.last() % 16) as int)]
    }
}

/// A decimal number is at least one ASCII digit.
pub proof fn lemma_decimal_ascii(x: u8)
    ensures
        is_ascii_bytes(decimal_u8(x)),
        decimal_u8(x).len() >= 1,
{
}

/// Hexadecimal text is ASCII, two digits per byte.
pub proof fn lemma_hex_lower_shape(b: Seq<u8>)
    ensures
        is_ascii_bytes(hex_lower(b)),
        hex_lower(b).len() == 2 * b.len(),
    decreases b.len(),
{
    if b.len() > 0 {
        lemma_hex_lower_shape(b.drop_last());
    }
}

/// The number a string of decimal digits (most significant first) denotes.
pub open spec fn decimal_value(s: Seq<u8>) -> int
    decreases s.len(),
{
    if s.len() == 0 {
        0
    } else {
        decimal_value(s.drop_last()) * 10 + (s.last() - 48)
    }
}

/// `c` is one of the ASCII digits `0` to `9`.
pub open spec fn is_decimal_digit(c: u8) -> bool {
    48 <= c <= 57
}

/// The decimal text of a byte denotes that byte: one to three digits, no
/// leading zero, whose base-10 value is the byte.
pub proof fn lemma_decimal_u8_denotes(x: u8)
    ensures
        1 <= decimal_u8(x).len() <= 3,
        forall|i: int| 0 <= i < decimal_u8(x).len() ==> is_decimal_digit(#[trigger] decimal_u8(x)[i]),
        decimal_u8(x).len() > 1 ==> decimal_u8(x)[0] != 48,
        decimal_value(decimal_u8(x)) == x,
{
    let d = decimal_u8(x);
    reveal_with_fuel(decimal_value, 4);
    if x >= 100 {
        assert(d.drop_last().drop_last().drop_last() =~= Seq::<u8>::empty());
        assert(d.drop_last().drop_last() =~= seq![d[0]]);
        assert(d.drop_last() =~= seq![d[0], d[1]]);
        assert((x / 100) * 100 + ((x / 10) % 10) * 10 + x % 10 == x);
    } else if x >= 10 {
        assert(d.drop_last().drop_last() =~= Seq::<u8>::empty());
        assert(d.drop_last() =~= seq![d[0]]);
        assert((x / 10) * 10 + x % 10 == x);
    } else {
        assert(d.drop_last() =~= Seq::<u8>::empty());
    }
}

/// The decimal items of two non-empty byte sequences, one after the other,
/// are the items of the first, a comma and a space, then the items of the
/// second; a single byte's item is its decimal text.
pub proof fn lemma_decimal_items_concat(a: Seq<u8>, b: Seq<u8>)
    requires
        a.len() > 0,
        b.len() > 0,
    ensures
        decimal_items(a + b) == decimal_items(a) + seq![44u8, 32u8] + decimal_items(b),
        decimal_items(seq![b[0]]) == decimal_u8(b[0]),
    decreases b.len(),
{
    if b.len() == 1 {
        assert((a + b).drop_last() =~= a);
        assert((a + b).last() == b[0]);
    } else {
        lemma_decimal_items_concat(a, b.drop_last());
        assert((a + b).drop_last() =~= a + b.drop_last());
        assert((a + b).last() == b.last());
        assert(decimal_items(a + b) =~= decimal_items(a) + seq![44u8, 32u8] + decimal_items(b));
    }
}

/// The value of a lowercase hexadecimal digit (`0`-`9`, `a`-`f`), or -1.
pub open spec fn hex_value(c: u8) -> int {
    if 48 <= c <= 57 {
        c - 48
    } else if 97 <= c <= 102 {
        c - 87
    } else {
        -1
    }
}

proof fn lemma_hex_digit_value(v: int)
    requires
        0 <= v < 16,
    ensures
        hex_value(hex_digit(v)) == v,
{
}

/// Hexadecimal text denotes the bytes: byte `i` is written as the two
/// lowercase digits at `2i` and `2i + 1`, high digit first, and reading
/// them in base 16 gives the byte back.
pub proof fn lemma_hex_lower_denotes(b: Seq<u8>)
    ensures
        hex_lower(b).len() == 2 * b.len(),
        forall|i: int|
            0 <= i < b.len() ==> {
                &&& 0 <= hex_value(#[trigger] hex_lower(b)[2 * i]) < 16
                &&& 0 <= hex_value(hex_lower(b)[2 * i + 1]) < 16
                &&& hex_value(hex_lower(b)[2 * i]) * 16 + hex_value(hex_lower(b)[2 * i + 1]) == b[i]
            },
    decreases b.len(),
{
    if b.len() > 0 {
        let p = b.drop_last();
        lemma_hex_lower_denotes(p);
        let x = b.last();
        lemma_hex_digit_value((x / 16) as int);
        lemma_hex_digit_value((x % 16) as int);
        let h = hex_lower(b);
        assert forall|i: int| 0 <= i < b.len() implies {
            &&& 0 <= hex_value(#[trigger] h[2 * i]) < 16
            &&& 0 <= hex_value(h[2 * i + 1]) < 16
            &&& hex_value(h[2 * i]) * 16 + hex_value(h[2 * i + 1]) == b[i]
        } by {
            if i < p.len() {
                assert(h[2 * i] == hex_lower(p)[2 * i]);
                assert(h[2 * i + 1] == hex_lower(p)[2 * i + 1]);
                assert(b[i] == p[i]);
            } else {
                assert(h[2 * i] == hex_digit((x / 16) as int));
                assert(h[2 * i + 1] == hex_digit((x % 16) as int));
                assert((x / 16) * 16 + x % 16 == x);
            }
        }
    }
}

/// Appends `x` in decimal.
fn push_decimal_u8(out: &mut Vec<u8>, x: u8)
    ensures
        final(out)@ == old(out)@ + decimal_u8(x),
{
    if x >= 100 {
        out.push(48 + x / 100);
        out.push(48 + (x / 10) % 10);
        out.push(48 + x % 10);
    } else if x >= 10 {
        out.push(48 + x / 10);
        out.push(48 + x % 10);
    } else {
        out.push(48 + x);
    }
}

/// The bytes `b` written as a list of decimal numbers, `[1, 2, 3]`.
pub fn decimal_list_string(b: &[u8]) -> (s: String)
    ensures
        s@ == ascii_chars(decimal_list(b@)),
{
    let mut out: Vec<u8> = Vec::new();
    out.push(91u8);
    let mut i: usize = 0;
    while i < b.len()
        invariant
            i <= b.len(),
            out@ == seq![91u8] + decimal_items(b@.subrange(0, i as int)),
            is_ascii_bytes(out@),
        decreases b.len() - i,
    {
        let ghost before = out@;
        if i > 0 {
            out.push(44u8);
            out.push(32u8);
        }
        push_decimal_u8(&mut out, b[i]);
        proof {
            lemma_decimal_ascii(b@[i as int]);
            let pre = b@.subrange(0, i as int);
            let post = b@.subrange(0, i + 1);
            assert(post.drop_last() =~= pre);
            assert(post.last() == b@[i as int]);
            if i == 0 {
                assert(post.len() == 1);
            }
            assert(out@ =~= seq![91u8] + decimal_items(post));
            assert forall|j: int| 0 <= j < out@.len() implies #[trigger] out@[j] < 128 by {
                if j < before.len() {
                    assert(out@[j] == before[j]);
                }
            }
        }
        i = i + 1;
    }
    out.push(93u8);
    proof {
        assert(b@.subrange(0, b@.len() as int) =~= b@);
        assert(out@ =~= decimal_list(b@));
    }
    ascii_string(out.as_slice())
}

/// The bytes `b` in lowercase hexadecimal, two digits per byte.
pub fn hex_lower_string(b: &[u8]) -> (s: String)
    ensures
        s@ == ascii_chars(hex_lower(b@)),
{
    let mut out: Vec<u8> = Vec::new();
    let mut i: usize = 0;
    while i < b.len()
        invariant
            i <= b.len(),
            out@ == hex_lower(b@.subrange(0, i as int)),
        decreases b.len() - i,
    {
        let x = b[i];
        let hi = x / 16;
        let lo = x % 16;
        if hi < 10 {
            out.push(48 + hi);
        } else {
            out.push(87 + hi);
        }
        if lo < 10 {
            out.push(48 + lo);
        } else {
            out.push(87 + lo);
        }
        proof {
            let post = b@.subrange(0, i + 1);
            assert(post.drop_last() =~= b@.subrange(0, i as int));
            assert(post.last() == x);
        }
        i = i + 1;
    }
    proof {
        assert(b@.subrange(0, b@.len() as int) =~= b@);
        lemma_hex_lower_shape(b@);
    }
    ascii_string(out.as_slice())
}

} // verus!
