//! Text helpers shared by the formats of this crate: UTF-8 facts about ASCII
//! delimiters, decimal numbers, and building strings.
use vstd::prelude::*;
use vstd::utf8::*;

verus! {

broadcast use vstd::seq::group_seq_axioms;

/// The UTF-8 bytes of a string.
pub open spec fn utf8(s: Seq<char>) -> Seq<u8> {
    encode_utf8(s)
}

/// True when no element of `s` equals `x`.
pub open spec fn lacks<A>(s: Seq<A>, x: A) -> bool {
    forall|i: int| 0 <= i < s.len() ==> s[i] != x
}

/// UTF-8 encoding distributes over concatenation.
pub proof fn lemma_utf8_concat(a: Seq<char>, b: Seq<char>)
    ensures
        utf8(a + b) == utf8(a) + utf8(b),
    decreases a.len(),
{
    if a.len() == 0 {
        assert(a + b =~= b);
        assert(utf8(a) + utf8(b) =~= utf8(b));
    } else {
        lemma_utf8_concat(a.drop_first(), b);
        assert((a + b).drop_first() =~= a.drop_first() + b);
        assert((a + b)[0] == a[0]);
        assert(utf8(a + b) =~= encode_scalar(a[0] as u32) + utf8(a.drop_first() + b));
    }
}

/// A character equals an ASCII byte taken as a character exactly when their
/// code points agree.
pub proof fn lemma_char_is_byte(c: char, b: u8)
    requires
        b < 0x80,
    ensures
        (c == b as char) <==> (c as u32 == b as u32),
        (b as char) as u32 == b as u32,
{
    char_u32_cast(c, c as u32);
    assert((b as char) as u32 == b as u32);
    char_u32_cast(b as char, b as u32);
}

/// An ASCII character encodes as its own single byte; any other character
/// encodes as bytes that all lie above the ASCII range.
pub proof fn lemma_encode_char(c: char)
    ensures
        (c as u32) < 0x80 ==> encode_scalar(c as u32) == seq![(c as u32) as u8],
        (c as u32) < 0x80 ==> ((c as u32) as u8) as u32 == c as u32,
        (c as u32) >= 0x80 ==> forall|i: int|
            0 <= i < encode_scalar(c as u32).len() ==> #[trigger] encode_scalar(c as u32)[i] >= 0x80,
        encode_scalar(c as u32).len() >= 1,
{
    let v = c as u32;
    char_is_scalar(c);
    if has_width_1_encoding(v) {
        assert((v & 0x7F) as u8 == v as u8) by (bit_vector)
            requires
                v <= 0x7f,
        ;
    } else {
        assert((0xC0u8 | ((v >> 6u32) & 0x1Fu32) as u8) >= 0x80u8) by (bit_vector);
        assert((0xE0u8 | ((v >> 12u32) & 0x0Fu32) as u8) >= 0x80u8) by (bit_vector);
        assert((0xF0u8 | ((v >> 18u32) & 0x7u32) as u8) >= 0x80u8) by (bit_vector);
        assert((0x80u8 | (v & 0x3Fu32) as u8) >= 0x80u8) by (bit_vector);
        assert((0x80u8 | ((v >> 6u32) & 0x3Fu32) as u8) >= 0x80u8) by (bit_vector);
        assert((0x80u8 | ((v >> 12u32) & 0x3Fu32) as u8) >= 0x80u8) by (bit_vector);
        assert(v >= 0x80);
    }
}

/// An ASCII byte occurs in the UTF-8 encoding of a string exactly where the
/// corresponding character occurs in the string.
pub proof fn lemma_utf8_lacks_ascii(s: Seq<char>, b: u8)
    requires
        b < 0x80,
    ensures
        lacks(utf8(s), b) <==> lacks(s, b as char),
    decreases s.len(),
{
    if s.len() == 0 {
    } else {
        let rest = s.drop_first();
        lemma_utf8_lacks_ascii(rest, b);
        lemma_encode_char(s[0]);
        let head = encode_scalar(s[0] as u32);
        assert(utf8(s) == head + utf8(rest));
        lemma_char_is_byte(s[0], b);
        if lacks(s, b as char) {
            assert forall|i: int| 0 <= i < utf8(s).len() implies utf8(s)[i] != b by {
                if i < head.len() {
                    if (s[0] as u32) < 0x80 {
                        assert(s[0] != b as char);
                        assert((s[0] as u32) != b as u32);
                    }
                } else {
                    assert(utf8(s)[i] == utf8(rest)[i - head.len()]);
                    assert forall|j: int| 0 <= j < rest.len() implies rest[j] != b as char by {
                        assert(rest[j] == s[j + 1]);
                    }
                }
            }
        }
        if lacks(utf8(s), b) {
            assert forall|j: int| 0 <= j < s.len() implies s[j] != b as char by {
                if j == 0 {
                    if s[0] == b as char {
                        assert(utf8(s)[0] == head[0]);
                    }
                } else {
                    assert(s[j] == rest[j - 1]);
                    assert forall|i: int| 0 <= i < utf8(rest).len() implies utf8(rest)[i] != b by {
                        assert(utf8(s)[i + head.len()] == utf8(rest)[i]);
                    }
                }
            }
        }
    }
}

/// The first byte of a nonempty string's encoding is an ASCII byte `b`
/// exactly when its first character is `b`.
pub proof fn lemma_utf8_first(s: Seq<char>, b: u8)
    requires
        b < 0x80,
        s.len() > 0,
    ensures
        utf8(s).len() > 0,
        utf8(s)[0] == b <==> s[0] == b as char,
{
    lemma_encode_char(s[0]);
    assert(utf8(s) == encode_scalar(s[0] as u32) + utf8(s.drop_first()));
    lemma_char_is_byte(s[0], b);
}

/// The last byte of a nonempty string's encoding is an ASCII byte `b`
/// exactly when its last character is `b`.
pub proof fn lemma_utf8_last(s: Seq<char>, b: u8)
    requires
        b < 0x80,
        s.len() > 0,
    ensures
        utf8(s).len() > 0,
        utf8(s).last() == b <==> s.last() == b as char,
{
    let init = s.drop_last();
    let c = s.last();
    assert(s =~= init + seq![c]);
    lemma_utf8_concat(init, seq![c]);
    assert(seq![c].drop_first() =~= Seq::<char>::empty());
    assert(utf8(seq![c].drop_first()) =~= Seq::<u8>::empty());
    assert(utf8(seq![c]) =~= encode_scalar(c as u32));
    lemma_encode_char(c);
    lemma_char_is_byte(c, b);
}

/// The empty string is the only one with an empty encoding.
pub proof fn lemma_utf8_empty(s: Seq<char>)
    ensures
        utf8(s).len() == 0 <==> s.len() == 0,
{
    if s.len() > 0 {
        lemma_encode_char(s[0]);
    }
}

/// Two strings with the same encoding are the same string.
pub proof fn lemma_utf8_injective(a: Seq<char>, b: Seq<char>)
    requires
        utf8(a) == utf8(b),
    ensures
        a == b,
{
    encode_utf8_decode_utf8(a);
    encode_utf8_decode_utf8(b);
}

} // verus!

verus! {

/// The decimal digits of `n` as ASCII bytes, most significant first, with no
/// leading zeros (`0` is the single digit `0`).
pub open spec fn dec_digits(n: nat) -> Seq<u8>
    decreases n,
{
    if n < 10 {
        seq![(48 + n) as u8]
    } else {
        dec_digits(n / 10).push((48 + n % 10) as u8)
    }
}

/// The decimal digits of `n` as characters.
pub open spec fn dec_chars(n: nat) -> Seq<char> {
    dec_digits(n).map_values(|b: u8| b as char)
}

/// True when every byte is an ASCII digit.
pub open spec fn all_digits(s: Seq<u8>) -> bool {
    forall|i: int| 0 <= i < s.len() ==> 48 <= #[trigger] s[i] <= 57
}

/// The digits of a number are nonempty ASCII digits.
pub proof fn lemma_dec_digits_shape(n: nat)
    ensures
        dec_digits(n).len() >= 1,
        all_digits(dec_digits(n)),
    decreases n,
{
    if n >= 10 {
        lemma_dec_digits_shape(n / 10);
    }
}

/// Appends the decimal digits of `n`.
pub fn push_decimal(out: &mut Vec<u8>, n: u64)
    ensures
        final(out)@ == old(out)@ + dec_digits(n as nat),
    decreases n,
{
    if n < 10 {
        out.push(48u8 + n as u8);
        assert(dec_digits(n as nat) =~= seq![(48 + n) as u8]);
    } else {
        push_decimal(out, n / 10);
        out.push(48u8 + (n % 10) as u8);
        assert(old(out)@ + dec_digits(n as nat) =~= old(out)@ + dec_digits((n / 10) as nat) + seq![(48 + n % 10) as u8]);
    }
}

/// Appends one character to a string (`String::push`).
#[verifier::external_body]
pub(crate) fn push_char(s: &mut String, c: char)
    ensures
        final(s)@ == old(s)@.push(c),
{
    s.push(c);
}

/// The decimal representation of `n`.
pub fn decimal_string(n: u64) -> (r: String)
    ensures
        r@ == dec_chars(n as nat),
{
    let mut digits: Vec<u8> = Vec::new();
    push_decimal(&mut digits, n);
    assert(digits@ =~= dec_digits(n as nat));
    let mut s = String::new();
    let mut i: usize = 0;
    while i < digits.len()
        invariant
            i <= digits@.len(),
            digits@ == dec_digits(n as nat),
            s@ == digits@.take(i as int).map_values(|b: u8| b as char),
        decreases digits.len() - i,
    {
        let c = digits[i] as char;
        push_char(&mut s, c);
        assert(digits@.take(i + 1) =~= digits@.take(i as int).push(digits@[i as int]));
        assert(s@ =~= digits@.take(i + 1).map_values(|b: u8| b as char));
        i = i + 1;
    }
    assert(digits@.take(i as int) =~= digits@);
    s
}

} // verus!

verus! {

/// The string of these characters.
pub fn string_of(cs: &[char]) -> (r: String)
    ensures
        r@ == cs@,
{
    let mut s = String::new();
    let mut i: usize = 0;
    while i < cs.len()
        invariant
            i <= cs@.len(),
            s@ == cs@.take(i as int),
        decreases cs.len() - i,
    {
        push_char(&mut s, cs[i]);
        assert(cs@.take(i + 1) =~= cs@.take(i as int).push(cs@[i as int]));
        i = i + 1;
    }
    assert(cs@.take(i as int) =~= cs@);
    s
}

/// The string of the characters `cs[a..b]`.
pub fn string_of_range(cs: &[char], a: usize, b: usize) -> (r: String)
    requires
        a <= b <= cs@.len(),
    ensures
        r@ == cs@.subrange(a as int, b as int),
{
    let piece = vstd::slice::slice_subrange(cs, a, b);
    string_of(piece)
}

} // verus!
