//! What the (de)serialization running on a thread is doing.
//!
//! The record itself is kept per thread by the code that drives a
//! (de)serialization; this module holds what is recorded.

use vstd::prelude::*;

use crate::cfg::{Cfg, Version, skips_fields, writes_header};

verus! {

/// Whether data is being written or read.
#[derive(Clone, Copy, PartialEq, Eq, Structural, Hash, Debug)]
pub enum Direction {
    /// Data is being serialized.
    Serialize,
    /// Data is being deserialized.
    Deserialize,
}

/// What a running (de)serialization is doing: the configuration in use,
/// stripped of whether identifiers are serialized, and the direction the
/// data is flowing in.
#[derive(Clone, Copy, PartialEq, Eq, Structural, Hash, Debug)]
pub struct Info {
    /// Whether data is being written or read.
    pub direction: Direction,
    /// Whether the data being written may leave out a struct field; already
    /// accounts for whether identifiers are serialized.
    pub allow_skip: bool,
    /// The limit for the nesting depth of serialized and deserialized data.
    pub depth_limit: usize,
    /// The version of the data format.
    pub version: Version,
    /// Whether the data begins with a header.
    pub header: bool,
}

impl Info {
    /// What a (de)serialization in `direction` with `cfg` is doing.
    ///
    /// When deserializing, pass the configuration after the version stated
    /// by the header has been applied to it.
    pub fn new<const WITH_IDENTS: bool>(direction: Direction, cfg: &Cfg<WITH_IDENTS>) -> (r: Info)
        ensures
            r == (Info {
                direction,
                allow_skip: skips_fields(cfg@, WITH_IDENTS),
                depth_limit: cfg@.depth_limit,
                version: cfg@.version,
                header: writes_header(cfg@),
            }),
    {
        Info {
            direction,
            allow_skip: cfg.allow_skip(),
            depth_limit: cfg.depth_limit(),
            version: cfg.version(),
            header: cfg.header(),
        }
    }
}

} // verus!
