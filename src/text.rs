use vstd::prelude::*;
use base64::Engine;
use sha1::Digest;

verus! {

/// What a byte sequence reads as in UTF-8, where it is valid UTF-8.
pub uninterp spec fn utf8_decoding(b: Seq<u8>) -> Option<Seq<char>>;

/// The standard base64 text (with padding) of a byte sequence.
pub uninterp spec fn base64_of(b: Seq<u8>) -> Seq<char>;

/// The SHA-1 digest of a byte sequence.
pub uninterp spec fn sha1_of(b: Seq<u8>) -> Seq<u8>;

/// The lower-case hexadecimal digit for a value below sixteen.
pub open spec fn hex_digit(d: int) -> char {
    if d == 0 { '0' } else if d == 1 { '1' } else if d == 2 { '2' } else if d == 3 { '3' }
    else if d == 4 { '4' } else if d == 5 { '5' } else if d == 6 { '6' } else if d == 7 { '7' }
    else if d == 8 { '8' } else if d == 9 { '9' } else if d == 10 { 'a' } else if d == 11 { 'b' }
    else if d == 12 { 'c' } else if d == 13 { 'd' } else if d == 14 { 'e' } else { 'f' }
}

/// Two lower-case hexadecimal digits for each byte, high digit first.
pub open spec fn hex_text(b: Seq<u8>) -> Seq<char> {
    Seq::new(
        2 * b.len(),
        |i: int|
            if i % 2 == 0 {
                hex_digit(b[i / 2] as int / 16)
            } else {
                hex_digit(b[i / 2] as int % 16)
            },
    )
}

/// Relies on std::str::from_utf8: it succeeds exactly on valid UTF-8, and
/// the text then holds the decoded characters.
#[verifier::external_body]
pub(crate) fn utf8_text(b: &Vec<u8>) -> (r: Option<String>)
    ensures
        r matches Some(t) ==> utf8_decoding(b@) == Some(t@),
        r is None ==> utf8_decoding(b@) is None,
{
    std::str::from_utf8(b.as_slice()).ok().map(|t| t.to_string())
}

/// Relies on base64's standard engine (`general_purpose::STANDARD.encode`).
#[verifier::external_body]
pub(crate) fn base64_text(b: &Vec<u8>) -> (r: String)
    ensures
        r@ == base64_of(b@),
{
    base64::engine::general_purpose::STANDARD.encode(b.as_slice())
}

/// Relies on sha1's `Sha1::digest`, whose output is 20 bytes long.
#[verifier::external_body]
pub(crate) fn sha1_digest(b: &Vec<u8>) -> (r: Vec<u8>)
    ensures
        r@ == sha1_of(b@),
        r@.len() == 20,
{
    sha1::Sha1::digest(b.as_slice()).to_vec()
}

/// Relies on hex::encode: two lower-case digits for each byte, high digit first.
#[verifier::external_body]
pub(crate) fn hex_encode(b: &Vec<u8>) -> (r: String)
    ensures
        r@ == hex_text(b@),
{
    hex::encode(b.as_slice())
}

/// The readable form of a byte string: its text where it is valid UTF-8,
/// else its base64 text.
pub enum TextForm {
    Utf8(String),
    Base64(String),
}

/// The readable form of a byte string, which loses nothing: where the bytes
/// are not valid UTF-8 they are given in base64.
pub fn text_form(b: &Vec<u8>) -> (r: TextForm)
    ensures
        match utf8_decoding(b@) {
            Some(t) => r matches TextForm::Utf8(s) && s@ == t,
            None => r matches TextForm::Base64(s) && s@ == base64_of(b@),
        },
{
    match utf8_text(b) {
        Some(t) => TextForm::Utf8(t),
        None => TextForm::Base64(base64_text(b)),
    }
}

/// Lower-case hexadecimal text of a byte sequence, two digits a byte.
pub fn to_hex(b: &Vec<u8>) -> (r: String)
    ensures
        r@ == hex_text(b@),
{
    hex_encode(b)
}

} // verus!
