//! Text: turning bytes into strings and characters.

use vstd::prelude::*;
use vstd::utf8::{decode_utf8, encode_scalar, encode_utf8, valid_utf8};

use crate::error::Error;

verus! {

/// The string the bytes encode in UTF-8, if they are valid UTF-8.
///
/// Calls `String::from_utf8`, which std documents to succeed exactly on valid
/// UTF-8 and to keep the bytes as they are; the contract states this over
/// vstd's definition of UTF-8.
#[verifier::external_body]
pub(crate) fn string_from_utf8(bytes: Vec<u8>) -> (res: Option<String>)
    ensures
        res is Some <==> valid_utf8(bytes@),
        res matches Some(s) ==> s@ == decode_utf8(bytes@),
{
    String::from_utf8(bytes).ok()
}

/// How many bytes follow a UTF-8 leading byte, or `None` if it does not
/// begin a character.
pub open spec fn lead_following(lead: u8) -> Option<usize> {
    if lead <= 0x7f {
        Some(0usize)
    } else if 0xc2 <= lead <= 0xdf {
        Some(1usize)
    } else if 0xe0 <= lead <= 0xef {
        Some(2usize)
    } else if 0xf0 <= lead <= 0xf4 {
        Some(3usize)
    } else {
        None::<usize>
    }
}

/// The first byte of a character's UTF-8 encoding announces exactly the
/// bytes that follow it in that encoding.
pub proof fn lead_announces_encoding(c: char)
    ensures
        encode_utf8(seq![c]).len() >= 1,
        lead_following(encode_utf8(seq![c])[0]) == Some((encode_utf8(seq![c]).len() - 1) as usize),
{
    let s = seq![c];
    let v = c as u32;
    vstd::utf8::char_is_scalar(c);
    assert(s.drop_first() =~= Seq::<char>::empty());
    assert(encode_utf8(Seq::<char>::empty()) =~= Seq::<u8>::empty());
    assert(encode_utf8(s) == encode_scalar(v) + encode_utf8(s.drop_first()));
    assert(encode_utf8(s) =~= encode_scalar(v));
    if v <= 0x7f {
        assert((v & 0x7f) as u8 <= 0x7f) by (bit_vector);
    } else if 0x80 <= v <= 0x7ff {
        assert(0x80 <= v <= 0x7ff ==> 0xc2 <= (0xC0 | ((v >> 6) & 0x1F) as u8) <= 0xdf)
            by (bit_vector);
    } else if 0x800 <= v <= 0xffff {
        assert(0x800 <= v <= 0xffff ==> 0xe0 <= (0xE0 | ((v >> 12) & 0x0F) as u8) <= 0xef)
            by (bit_vector);
    } else {
        assert(0x10000 <= v <= 0x10ffff ==> 0xf0 <= (0xF0 | ((v >> 18) & 0x7) as u8) <= 0xf4)
            by (bit_vector);
    }
}

/// How many bytes follow a UTF-8 leading byte, or `None` if it does not
/// begin a character.
pub fn utf8_following_bytes(lead: u8) -> (r: Option<usize>)
    ensures
        r == lead_following(lead),
{
    if lead <= 0x7f {
        Some(0)
    } else if 0xc2 <= lead && lead <= 0xdf {
        Some(1)
    } else if 0xe0 <= lead && lead <= 0xef {
        Some(2)
    } else if 0xf0 <= lead && lead <= 0xf4 {
        Some(3)
    } else {
        None
    }
}

/// The first character of `bytes`, which must be valid UTF-8 and hold one.
pub fn first_char(bytes: &[u8]) -> (r: Result<char, Error>)
    ensures
        r is Ok <==> valid_utf8(bytes@) && decode_utf8(bytes@).len() > 0,
        r matches Ok(c) ==> c == decode_utf8(bytes@)[0],
        r is Err ==> r matches Err(Error::BadChar),
{
    let v = vstd::slice::slice_to_vec(bytes);
    match string_from_utf8(v) {
        Some(s) => {
            let text = s.as_str();
            if text.unicode_len() == 0 {
                Err(Error::BadChar)
            } else {
                Ok(text.get_char(0))
            }
        },
        None => Err(Error::BadChar),
    }
}

} // verus!
