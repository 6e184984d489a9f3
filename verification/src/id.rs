//! Field and variant identifiers.
//!
//! An identifier is written as a single byte, sometimes followed by a name.
//! The low seven bits of that byte are:
//!
//! | value | meaning |
//! | --- | --- |
//! | below [`ID_LEN`] | the length of the name, which follows |
//! | [`ID_LEN`] | a longer name: its length follows as a varint, then the name |
//! | [`ID_LEN_NAME`] to `ID_LEN_NAME + ID_COUNT - 1` | the numbered name `_0` to `_59`, with no name bytes |
//! | above | reserved |
//!
//! The high bit, [`ID_BLOCK`], states whether a block follows the identifier.

use vstd::prelude::*;
use vstd::utf8::{decode_utf8, encode_utf8, valid_utf8};

use crate::utf8::string_from_utf8;

verus! {

/// The name length that means the length itself follows.
pub const ID_LEN: u8 = 64;

/// The first value that means a numbered identifier rather than a name.
pub const ID_LEN_NAME: u8 = 65;

/// How many identifiers encode as a number.
pub const ID_COUNT: usize = 60;

/// The bit of the identifier byte stating that a block follows.
pub const ID_BLOCK: u8 = 0x80;

/// The bytes of the numbered identifier `_n`, in canonical decimal notation.
pub open spec fn ident_name(n: nat) -> Seq<u8> {
    if n < 10 {
        seq![0x5fu8, (0x30 + n) as u8]
    } else {
        seq![0x5fu8, (0x30 + n / 10) as u8, (0x30 + n % 10) as u8]
    }
}

/// The number of an identifier of the form `_N` with `N` below [`ID_COUNT`]
/// written in canonical decimal notation.
pub open spec fn spec_ident_number(b: Seq<u8>) -> Option<nat> {
    if b.len() == 2 && b[0] == 0x5f && 0x30 <= b[1] <= 0x39 {
        Some((b[1] - 0x30) as nat)
    } else if b.len() == 3 && b[0] == 0x5f && 0x31 <= b[1] <= 0x35 && 0x30 <= b[2] <= 0x39 {
        Some((10 * (b[1] - 0x30) + (b[2] - 0x30)) as nat)
    } else {
        None
    }
}

/// The writer derives the number from the name and the reader derives the
/// name from the number: an identifier is numbered exactly when it is the
/// name of a number below [`ID_COUNT`], and then it is the name of that number.
pub proof fn numbered_idents_agree(b: Seq<u8>, n: nat)
    ensures
        spec_ident_number(b) == Some(n) <==> (n < ID_COUNT && b == ident_name(n)),
{
    if n < ID_COUNT && b == ident_name(n) {
        if n >= 10 {
            assert(1 <= n / 10 <= 5 && n % 10 < 10 && n == 10 * (n / 10) + n % 10)
                by (nonlinear_arith)
                requires
                    10 <= n < 60,
            ;
        }
    }
    if spec_ident_number(b) == Some(n) {
        if b.len() == 3 {
            let t = (b[1] - 0x30) as nat;
            let u = (b[2] - 0x30) as nat;
            assert(n / 10 == t && n % 10 == u) by (nonlinear_arith)
                requires
                    n == 10 * t + u,
                    u < 10,
            ;
            assert(b =~= ident_name(n));
        } else {
            assert(b =~= ident_name(n));
        }
    }
}

/// The identifier a numbered field encodes to, if the number fits in one
/// byte.
pub fn numbered_ident(id: usize) -> (r: Option<String>)
    ensures
        id < ID_COUNT ==> r is Some && encode_utf8(r.unwrap()@) == ident_name(id as nat),
        id >= ID_COUNT ==> r is None,
{
    if id >= ID_COUNT {
        return None;
    }
    let mut bytes: Vec<u8> = Vec::new();
    bytes.push(0x5f);
    if id >= 10 {
        bytes.push((0x30 + id / 10) as u8);
    }
    bytes.push((0x30 + id % 10) as u8);
    assert(bytes@ =~= ident_name(id as nat));
    proof {
        lemma_ascii_valid_utf8(bytes@);
    }
    let r = string_from_utf8(bytes);
    proof {
        vstd::utf8::decode_utf8_encode_utf8(ident_name(id as nat));
    }
    r
}

/// The number of an identifier of the form `_N`, if it encodes in one byte.
pub fn ident_number(ident: &str) -> (r: Option<usize>)
    ensures
        r matches Some(n) ==> spec_ident_number(encode_utf8(ident@)) == Some(n as nat),
        r is None ==> spec_ident_number(encode_utf8(ident@)) is None,
{
    let b = ident.as_bytes();
    if b.len() == 2 && b[0] == 0x5f && 0x30 <= b[1] && b[1] <= 0x39 {
        Some((b[1] - 0x30) as usize)
    } else if b.len() == 3 && b[0] == 0x5f && 0x31 <= b[1] && b[1] <= 0x35 && 0x30 <= b[2] && b[2]
        <= 0x39 {
        Some((10 * (b[1] - 0x30) + (b[2] - 0x30)) as usize)
    } else {
        None
    }
}

/// Bytes below 0x80 are valid UTF-8, each a character of its own.
pub proof fn lemma_ascii_valid_utf8(b: Seq<u8>)
    requires
        forall|i: int| 0 <= i < b.len() ==> b[i] <= 0x7f,
    ensures
        valid_utf8(b),
    decreases b.len(),
{
    if b.len() > 0 {
        let rest = b.subrange(1, b.len() as int);
        assert forall|i: int| 0 <= i < rest.len() implies rest[i] <= 0x7f by {
            assert(rest[i] == b[i + 1]);
        }
        lemma_ascii_valid_utf8(rest);
        assert(vstd::utf8::pop_first_scalar(b) =~= rest);
    }
}

} // verus!
