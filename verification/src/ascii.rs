use vstd::prelude::*;
use vstd::utf8::is_ascii_chars;

verus! {

/// The bytes of a character sequence, one byte per character.
/// Meaningful when every character is ASCII.
pub open spec fn ascii_seq(s: Seq<char>) -> Seq<u8> {
    Seq::new(s.len(), |i: int| s[i] as u8)
}

/// The characters a byte sequence spells, one character per byte.
/// Meaningful when every byte is ASCII.
pub open spec fn chars_of(s: Seq<u8>) -> Seq<char> {
    Seq::new(s.len(), |i: int| s[i] as char)
}

/// Every byte is ASCII (below 0x80).
pub open spec fn is_ascii_bytes(s: Seq<u8>) -> bool {
    forall|i: int| 0 <= i < s.len() ==> s[i] < 128
}

pub proof fn lemma_bytes_chars_inverse(s: Seq<u8>)
    requires
        is_ascii_bytes(s),
    ensures
        is_ascii_chars(chars_of(s)),
        ascii_seq(chars_of(s)) =~= s,
{
    assert forall|i: int| 0 <= i < chars_of(s).len() implies '\0' <= #[trigger] chars_of(s)[i]
        <= '\u{7f}' by {
        assert(chars_of(s)[i] == s[i] as char);
    }
}

pub proof fn lemma_chars_bytes_inverse(s: Seq<char>)
    requires
        is_ascii_chars(s),
    ensures
        is_ascii_bytes(ascii_seq(s)),
        chars_of(ascii_seq(s)) =~= s,
{
    assert forall|i: int| 0 <= i < ascii_seq(s).len() implies ascii_seq(s)[i] < 128 by {
        assert('\0' <= s[i] <= '\u{7f}');
    }
}

/// Relies on std's String::from_utf8: a sequence of ASCII bytes is valid
/// UTF-8 and decodes to exactly one character per byte, with equal code
/// points.
#[verifier::external_body]
pub fn ascii_to_string(bytes: &[u8]) -> (r: String)
    requires
        is_ascii_bytes(bytes@),
    ensures
        r@ == chars_of(bytes@),
{
    String::from_utf8(bytes.to_vec()).unwrap()
}

/// Relies on std's String::from_utf8: it accepts exactly the valid UTF-8
/// byte sequences, and decodes an accepted one to its character sequence.
#[verifier::external_body]
pub fn utf8_to_string(bytes: &[u8]) -> (r: Option<String>)
    ensures
        r matches Some(s) ==> vstd::utf8::valid_utf8(bytes@) && s@ == vstd::utf8::decode_utf8(
            bytes@,
        ),
        r is None ==> !vstd::utf8::valid_utf8(bytes@),
{
    String::from_utf8(bytes.to_vec()).ok()
}

/// The bytes of an ASCII string slice.
pub fn str_bytes<'a>(s: &'a str) -> (r: &'a [u8])
    requires
        is_ascii_chars(s@),
    ensures
        r@ == ascii_seq(s@),
{
    proof {
        vstd::string::is_ascii_spec_bytes(s);
    }
    let r = s.as_bytes();
    assert(r@ =~= ascii_seq(s@));
    r
}

} // verus!
