//! The header a stream begins with.
//!
//! Two bytes: a magic byte, then one holding a fixed bit pattern, whether
//! identifiers are serialized, and the version of the data format.
//!
//! ```text
//!  byte 0     byte 1
//! ┌────────┐ ┌───┬───┬───┬───┬───┬───┬───┬───┐
//! │  0xba  │ │ 1 │ 0 │ 1 │ I │ v │ v │ v │ v │
//! └────────┘ └───┴───┴───┴───┴───┴───┴───┴───┘
//!              fixed      │    version
//!                         └ identifiers
//! ```

use vstd::prelude::*;

use crate::cfg::{Version, version_byte};
use crate::error::Error;

verus! {

/// First byte, identifying the data as this format.
pub const MAGIC: u8 = 0xba;

/// Bits of the second byte that are always the same.
pub const FIXED_MASK: u8 = 0b1110_0000;

/// The value of the bits that are always the same.
pub const FIXED: u8 = 0b1010_0000;

/// Bit of the second byte stating whether identifiers are serialized.
pub const IDENTS: u8 = 0b0001_0000;

/// Bits of the second byte stating the version of the data format.
///
/// Version 15 is reserved to state that an extended version follows.
pub const VERSION_MASK: u8 = 0b0000_1111;

/// The header stating the version of the data format and whether
/// identifiers are serialized.
pub open spec fn spec_header(version: Version, with_idents: bool) -> Seq<u8> {
    seq![MAGIC, (FIXED + (if with_idents { IDENTS } else { 0 }) + version_byte(version)) as u8]
}

/// What reading a header gives.
pub open spec fn spec_parse_header(b0: u8, b1: u8, with_idents: bool) -> Result<Version, Error> {
    if b0 != MAGIC || b1 & FIXED_MASK != FIXED {
        Err(Error::BadHeader)
    } else if (b1 & IDENTS != 0) != with_idents {
        Err(Error::WithIdentsMismatch(b1 & IDENTS != 0))
    } else if b1 & VERSION_MASK == 1 {
        Ok(Version::Postbag1)
    } else {
        Err(Error::UnsupportedVersion(b1 & VERSION_MASK))
    }
}

/// The header stating the version of the data format and whether
/// identifiers are serialized.
pub fn bytes(version: Version, with_idents: bool) -> (r: [u8; 2])
    ensures
        r@ == spec_header(version, with_idents),
{
    let idents = if with_idents { IDENTS } else { 0 };
    let r = [MAGIC, FIXED + idents + version.as_u8()];
    assert(r@ =~= spec_header(version, with_idents));
    r
}

/// Reads the header, returning the version of the data format it states.
pub fn parse(bytes: [u8; 2], with_idents: bool) -> (r: Result<Version, Error>)
    ensures
        r == spec_parse_header(bytes[0], bytes[1], with_idents),
{
    if bytes[0] != MAGIC || bytes[1] & FIXED_MASK != FIXED {
        return Err(Error::BadHeader);
    }
    let data_has_idents = bytes[1] & IDENTS != 0;
    if data_has_idents != with_idents {
        return Err(Error::WithIdentsMismatch(data_has_idents));
    }
    let version = bytes[1] & VERSION_MASK;
    if version == 1 {
        Ok(Version::Postbag1)
    } else {
        Err(Error::UnsupportedVersion(version))
    }
}

/// A header is read back as the version it was written for, unless that is
/// version 0.4, which knows no header.
pub proof fn header_round_trip(version: Version, with_idents: bool)
    ensures
        ({
            let h = spec_header(version, with_idents);
            &&& version != Version::Postbag0_4 ==> spec_parse_header(h[0], h[1], with_idents)
                == Ok::<Version, Error>(version)
            &&& version == Version::Postbag0_4 ==> spec_parse_header(h[0], h[1], with_idents)
                == Err::<Version, Error>(Error::UnsupportedVersion(0))
        }),
{
    let h = spec_header(version, with_idents);
    let b = h[1];
    let v = version_byte(version);
    assert(v <= 1);
    if with_idents {
        assert(b == 0xb0 + v);
        assert(v <= 1 ==> (0xb0u8 + v) as u8 & 0xe0 == 0xa0 && (0xb0u8 + v) as u8 & 0x10 != 0
            && (0xb0u8 + v) as u8 & 0x0f == v) by (bit_vector);
    } else {
        assert(b == 0xa0 + v);
        assert(v <= 1 ==> (0xa0u8 + v) as u8 & 0xe0 == 0xa0 && (0xa0u8 + v) as u8 & 0x10 == 0
            && (0xa0u8 + v) as u8 & 0x0f == v) by (bit_vector);
    }
}

/// A header written for one configuration is refused by the other.
pub proof fn header_mismatch(version: Version, with_idents: bool)
    ensures
        ({
            let h = spec_header(version, with_idents);
            spec_parse_header(h[0], h[1], !with_idents) == Err::<Version, Error>(
                Error::WithIdentsMismatch(with_idents),
            )
        }),
{
    let h = spec_header(version, with_idents);
    let v = version_byte(version);
    if with_idents {
        assert(v <= 1 ==> (0xb0u8 + v) as u8 & 0xe0 == 0xa0 && (0xb0u8 + v) as u8 & 0x10 != 0)
            by (bit_vector);
    } else {
        assert(v <= 1 ==> (0xa0u8 + v) as u8 & 0xe0 == 0xa0 && (0xa0u8 + v) as u8 & 0x10 == 0)
            by (bit_vector);
    }
}

} // verus!
