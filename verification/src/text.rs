//! Strings and their bytes: UTF-8 decoding, ASCII case mapping, comparison
//! and concatenation.
use vstd::prelude::*;
use vstd::utf8::*;

verus! {

broadcast use {vstd::utf8::group_utf8_lib, vstd::string::group_string_axioms};

/// The character that `char::to_ascii_uppercase` gives for `c`: ASCII letters
/// `a` to `z` become `A` to `Z`, every other character stays as it is.
pub open spec fn ascii_upper_char(c: char) -> char {
    if 'a' <= c <= 'z' {
        ((c as u32) - 32) as char
    } else {
        c
    }
}

/// The text that `str::to_ascii_uppercase` gives for `s`.
pub open spec fn ascii_upper(s: Seq<char>) -> Seq<char> {
    s.map_values(|c: char| ascii_upper_char(c))
}

/// Whether every byte of `b` is below 128.
pub open spec fn ascii_bytes(b: Seq<u8>) -> bool {
    forall|i: int| 0 <= i < b.len() ==> #[trigger] b[i] < 128
}

/// What `String::from_utf8` accepts, and the text it gives: `Some` exactly
/// for valid UTF-8, decoded character by character.
pub open spec fn utf8_text(b: Seq<u8>) -> Option<Seq<char>> {
    if valid_utf8(b) {
        Some(decode_utf8(b))
    } else {
        None
    }
}

/// `String::from_utf8`: the bytes become a `String` exactly when they are
/// valid UTF-8 (as `vstd::utf8::valid_utf8` defines it), and the string's
/// characters are then the bytes decoded (`decode_utf8`). The error value is
/// dropped.
#[verifier::external_body]
pub fn string_from_utf8(bytes: Vec<u8>) -> (result: Option<String>)
    ensures
        match result {
            Some(s) => utf8_text(bytes@) == Some(s@),
            None => utf8_text(bytes@) is None,
        },
{
    String::from_utf8(bytes).ok()
}

/// `str::to_ascii_uppercase`: a new string in which the ASCII letters `a` to
/// `z` of `s` are replaced by `A` to `Z` and every other character is kept.
#[verifier::external_body]
pub fn to_ascii_uppercase(s: &str) -> (result: String)
    ensures
        result@ == ascii_upper(s@),
{
    s.to_ascii_uppercase()
}

/// A new string holding the characters of `a` followed by those of `b`.
pub fn concat(a: &str, b: &str) -> (result: String)
    ensures
        result@ == a@ + b@,
{
    let mut result = owned(a);
    result.append(b);
    result
}

/// A new `String` holding the characters of the literal or slice `s`.
pub fn owned(s: &str) -> (result: String)
    ensures
        result@ == s@,
{
    s.to_string()
}

/// The UTF-8 bytes of `s`, as `String::into_bytes` gives them.
pub fn string_bytes(s: &str) -> (result: Vec<u8>)
    ensures
        result@ == encode_utf8(s@),
{
    vstd::slice::slice_to_vec(s.as_bytes())
}

/// Whether the two strings hold the same characters.
pub fn str_eq(a: &str, b: &str) -> (result: bool)
    ensures
        result == (a@ == b@),
{
    let x = a.as_bytes();
    let y = b.as_bytes();
    proof {
        encode_utf8_decode_utf8(a@);
        encode_utf8_decode_utf8(b@);
    }
    if x.len() != y.len() {
        return false;
    }
    let mut i: usize = 0;
    while i < x.len()
        invariant
            x@.len() == y@.len(),
            x@ == encode_utf8(a@),
            y@ == encode_utf8(b@),
            i <= x@.len(),
            forall|j: int| 0 <= j < i ==> x@[j] == y@[j],
        decreases x@.len() - i,
    {
        if x[i] != y[i] {
            return false;
        }
        i = i + 1;
    }
    assert(x@ =~= y@);
    true
}

/// ASCII bytes are valid UTF-8, each byte standing for one character.
pub proof fn lemma_ascii_utf8(b: Seq<u8>)
    requires
        ascii_bytes(b),
    ensures
        valid_utf8(b),
        decode_utf8(b).len() == b.len(),
        encode_utf8(decode_utf8(b)) == b,
        decode_utf8(b) == Seq::new(b.len(), |i: int| b[i] as char),
{
    let c = Seq::new(b.len(), |i: int| b[i] as char);
    assert(is_ascii_chars(c)) by {
        assert forall|i: int| 0 <= i < c.len() implies '\0' <= #[trigger] c[i] <= '\u{7f}' by {
            assert(b[i] < 128);
        }
    }
    is_ascii_chars_encode_utf8(c);
    assert forall|i: int| 0 <= i < c.len() implies #[trigger] encode_utf8(c)[i] == b[i] by {
        assert(c[i] as u8 == encode_utf8(c)[i]);
        let x = b[i];
        assert((x as char) as u8 == x);
    }
    assert(encode_utf8(c) =~= b);
    encode_utf8_valid_utf8(c);
    encode_utf8_decode_utf8(c);
}

/// A `String` holding the ASCII bytes `bytes`.
pub fn string_from_ascii(bytes: Vec<u8>) -> (result: String)
    requires
        ascii_bytes(bytes@),
    ensures
        result@ == decode_utf8(bytes@),
        encode_utf8(result@) == bytes@,
{
    proof {
        lemma_ascii_utf8(bytes@);
    }
    match string_from_utf8(bytes) {
        Some(s) => s,
        None => {
            assert(false);
            String::new()
        },
    }
}

/// The byte that ASCII upper-casing gives for `b`: `a` to `z` become `A` to
/// `Z`, every other byte stays as it is.
pub open spec fn ascii_upper_byte(b: u8) -> u8 {
    if 97 <= b <= 122 {
        (b - 32) as u8
    } else {
        b
    }
}

/// The bytes `b` upper-cased byte by byte, as `<[u8]>::to_ascii_uppercase`
/// gives them.
pub open spec fn ascii_upper_bytes(b: Seq<u8>) -> Seq<u8> {
    b.map_values(|x: u8| ascii_upper_byte(x))
}

/// Upper-casing ASCII characters twice is upper-casing them once.
pub proof fn lemma_ascii_upper_idempotent(t: Seq<char>)
    ensures
        ascii_upper(ascii_upper(t)) == ascii_upper(t),
{
    assert(ascii_upper(ascii_upper(t)) =~= ascii_upper(t));
}

/// For an ASCII byte, upper-casing the byte and upper-casing the character
/// it stands for agree.
proof fn lemma_ascii_upper_char_byte(x: u8)
    requires
        x < 128,
    ensures
        (ascii_upper_byte(x) as u32) as char == ascii_upper_char((x as u32) as char),
{
    let c = (x as u32) as char;
    assert(c as u32 == x as u32);
    if 97 <= x <= 122 {
        assert('a' <= c <= 'z');
        assert(ascii_upper_byte(x) as u32 == (c as u32) - 32);
    } else {
        assert(!('a' <= c <= 'z'));
    }
}

/// Upper-casing the bytes of a text byte by byte keeps them valid UTF-8
/// exactly when they were, and then decodes to the text upper-cased
/// character by character.
pub proof fn lemma_ascii_upper_bytes_utf8(b: Seq<u8>)
    ensures
        valid_utf8(ascii_upper_bytes(b)) == valid_utf8(b),
        valid_utf8(b) ==> decode_utf8(ascii_upper_bytes(b)) == ascii_upper(decode_utf8(b)),
    decreases b.len(),
{
    let u = ascii_upper_bytes(b);
    if b.len() == 0 {
        assert(ascii_upper(decode_utf8(b)) =~= Seq::<char>::empty());
        return ;
    }
    let b0 = b[0];
    assert(u[0] == ascii_upper_byte(b0));
    // The two sequences agree on every byte that is not an ASCII letter, and
    // on whether a byte is a continuation byte.
    assert forall|i: int| 0 <= i < b.len() implies #[trigger] is_continuation_byte(u[i])
        == is_continuation_byte(b[i]) && (is_continuation_byte(b[i]) ==> u[i] == b[i]) by {
        assert(u[i] == ascii_upper_byte(b[i]));
    }
    if b0 < 128 {
        let x = b0;
        let y = ascii_upper_byte(x);
        assert(x & 0x7f == x) by (bit_vector)
            requires
                x < 128,
        ;
        assert(y & 0x7f == y) by (bit_vector)
            requires
                y < 128,
        ;
        assert(valid_first_scalar(b));
        assert(valid_first_scalar(u));
        assert(decode_first_scalar(b) == x as u32);
        assert(decode_first_scalar(u) == y as u32);
        assert(length_of_first_scalar(b) == 1);
        assert(length_of_first_scalar(u) == 1);
    } else {
        assert(u[0] == b0);
        if valid_leading_and_continuation_bytes_first_codepoint(b) {
            assert(valid_leading_and_continuation_bytes_first_codepoint(u));
            let k = length_of_first_codepoint(b);
            assert(length_of_first_codepoint(u) == k);
            if k >= 2 {
                assert(u[1] == b[1]);
            }
            if k >= 3 {
                assert(u[2] == b[2]);
            }
            if k >= 4 {
                assert(u[3] == b[3]);
            }
            assert(decode_first_codepoint(u) == decode_first_codepoint(b));
        } else {
            assert(!valid_leading_and_continuation_bytes_first_codepoint(u));
        }
        assert(valid_first_scalar(u) == valid_first_scalar(b));
    }
    if valid_first_scalar(b) {
        let k = length_of_first_scalar(b);
        let rest = pop_first_scalar(b);
        assert(pop_first_scalar(u) =~= ascii_upper_bytes(rest));
        lemma_ascii_upper_bytes_utf8(rest);
        if valid_utf8(b) {
            let c = decode_first_scalar(b) as char;
            let cu = decode_first_scalar(u) as char;
            assert(cu == ascii_upper_char(c)) by {
                if b0 < 128 {
                    lemma_ascii_upper_char_byte(b0);
                } else {
                    assert(decode_first_scalar(u) == decode_first_scalar(b));
                    if 'a' <= c <= 'z' {
                        decode_utf8_first_scalar(b);
                        let cv = c as u32;
                        assert(cv & 0x7f == cv) by (bit_vector)
                            requires
                                cv < 128,
                        ;
                        assert(encode_scalar(cv)[0] == cv as u8);
                        assert(take_first_scalar(b)[0] == b0);
                        assert(false);
                    }
                }
            }
            assert(decode_utf8(b) == seq![c] + decode_utf8(rest));
            assert(decode_utf8(u) == seq![cu] + decode_utf8(pop_first_scalar(u)));
            assert(decode_utf8(u) =~= ascii_upper(decode_utf8(b)));
        }
    }
}

} // verus!
