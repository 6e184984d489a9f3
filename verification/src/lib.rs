//! A compact binary serialization format with support for schema evolution.

pub mod error;
pub mod varint;
pub mod zigzag;
pub mod utf8;
pub mod id;
pub mod cfg;
pub mod header;
pub mod block;
pub mod source;
pub mod skip_read;
pub mod skip_write;
pub mod format;
pub mod ser;
pub mod de;
pub mod info;
pub mod skip;
pub mod recoverable;
pub mod fixint;
pub mod varfloat;
pub mod compact;
pub mod round_trip;
