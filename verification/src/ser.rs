//! Serialization: the bytes each kind of value is written as.
//!
//! A [`Serializer`] is driven value by value: each method writes one value,
//! or the beginning or end of a compound one. Nested values are bracketed by
//! [`Serializer::enter`] and [`Serializer::exit`], which bound the nesting
//! depth and pass on whether the nested value reaches the end of the
//! enclosing block, in which case it leaves out its own length.

use vstd::prelude::*;
use vstd::utf8::encode_utf8;

use crate::cfg::{Cfg, Version};
use crate::error::Error;
use crate::format::{
    FALSE, MORE, NO_MORE, NONE, SOME, SPECIAL_LEN, TRUE, UNKNOWN_LEN, ident_enc, le_bytes, len_enc,
};
use crate::id::{ID_BLOCK, ID_LEN, ID_LEN_NAME, ident_number};
use crate::skip_write::{SkipWrite, closed, lemma_wrote_wrote, wrote};
use crate::varint::{varint_enc, varint_u128, varint_u16, varint_u32, varint_u64};
use crate::zigzag::{zig_zag, zig_zag_i128, zig_zag_i16, zig_zag_i32, zig_zag_i64};

verus! {

/// What a serializer holds.
pub struct SerView {
    /// What has been written outside any block, then the content so far of
    /// each open block.
    pub parts: Seq<Seq<u8>>,
    /// How many more levels of nesting are allowed.
    pub remaining_depth: nat,
    /// The version of the data format written.
    pub version: Version,
    /// Whether the value about to be written reaches the end of the
    /// enclosing block.
    pub owns_block: bool,
}

/// Whether a field value reaches the end of a block of its own, and so may
/// leave out its length.
pub open spec fn field_owns(with_idents: bool, version: Version) -> bool {
    with_idents && version != Version::Postbag0_4
}

/// The state after writing `d` into the innermost block.
pub open spec fn put(v: SerView, d: Seq<u8>) -> SerView {
    SerView { parts: wrote(v.parts, d), ..v }
}

/// The state after opening a block.
pub open spec fn opened(v: SerView) -> SerView {
    SerView { parts: v.parts.push(Seq::empty()), ..v }
}

/// The state after closing the innermost block.
pub open spec fn shut(v: SerView) -> SerView {
    SerView { parts: closed(v.parts), ..v }
}

/// The state after taking the flag that says whether the value reaches the
/// end of its block.
pub open spec fn taken(v: SerView) -> SerView {
    SerView { owns_block: false, ..v }
}

/// What a run of bytes that states its own length is written as, where it
/// does not reach the end of its block, or as what it is where it does.
pub open spec fn prefixed(v: SerView, b: Seq<u8>) -> Seq<u8> {
    if v.owns_block {
        b
    } else {
        varint_enc(b.len()) + b
    }
}

/// The tag of an enum variant: its identifier, or its index.
pub open spec fn variant_enc(with_idents: bool, index: u32, name: Seq<u8>, block: bool) -> Seq<u8> {
    if with_idents {
        ident_enc(name, block)
    } else {
        varint_enc(index as nat)
    }
}

/// Setting the block bit of an identifier byte adds it.
proof fn lemma_block_bit(x: u8)
    requires
        x < 128,
    ensures
        x | 0x80u8 == x + 128,
{
    assert(x < 128 ==> x | 0x80u8 == x + 128) by (bit_vector);
}

/// Serializer.
pub struct Serializer<const WITH_IDENTS: bool> {
    output: SkipWrite,
    remaining_depth: usize,
    version: Version,
    owns_block: bool,
}

impl<const WITH_IDENTS: bool> View for Serializer<WITH_IDENTS> {
    type V = SerView;

    closed spec fn view(&self) -> SerView {
        SerView {
            parts: self.output@,
            remaining_depth: self.remaining_depth as nat,
            version: self.version,
            owns_block: self.owns_block,
        }
    }
}

impl<const WITH_IDENTS: bool> Serializer<WITH_IDENTS> {
    /// Creates a new serializer using the specified configuration.
    pub fn new(cfg: Cfg<WITH_IDENTS>) -> (r: Self)
        ensures
            r@ == (SerView {
                parts: seq![Seq::<u8>::empty()],
                remaining_depth: cfg@.depth_limit as nat,
                version: cfg@.version,
                owns_block: false,
            }),
    {
        Self {
            output: SkipWrite::new(),
            remaining_depth: cfg.depth_limit(),
            version: cfg.version(),
            owns_block: false,
        }
    }

    /// There is always the part outside any block.
    pub proof fn lemma_has_base(&self)
        ensures
            self@.parts.len() >= 1,
    {
        self.output.lemma_has_base();
    }

    /// Enters a nested value, returning the depth allowance to go back to.
    ///
    /// Fails with [`Error::RecursionLimit`] when the configured depth limit
    /// would be exceeded. `owns_block` states whether the nested value
    /// reaches the end of the enclosing block.
    pub fn enter(&mut self, owns_block: bool) -> (res: Result<usize, Error>)
        ensures
            old(self)@.remaining_depth == 0 ==> final(self)@ == old(self)@,
            old(self)@.remaining_depth == 0 ==> res matches Err(Error::RecursionLimit),
            old(self)@.remaining_depth > 0 ==> res == Ok::<usize, Error>(
                old(self)@.remaining_depth as usize,
            ) && final(self)@ == (SerView {
                remaining_depth: (old(self)@.remaining_depth - 1) as nat,
                owns_block,
                ..old(self)@
            }),
    {
        if self.remaining_depth == 0 {
            return Err(Error::RecursionLimit);
        }
        let saved = self.remaining_depth;
        self.remaining_depth = saved - 1;
        self.owns_block = owns_block;
        Ok(saved)
    }

    /// Leaves a nested value, going back to the depth allowance `saved`.
    pub fn exit(&mut self, saved: usize)
        ensures
            final(self)@ == (SerView { remaining_depth: saved as nat, ..old(self)@ }),
    {
        self.remaining_depth = saved;
    }

    /// How many blocks are open.
    pub fn open_blocks(&self) -> (r: usize)
        ensures
            r + 1 == self@.parts.len(),
    {
        self.output.depth()
    }

    /// Whether the value being serialized reaches the end of its block, and
    /// so can leave out its own length. Clears the flag.
    fn takes_block(&mut self) -> (r: bool)
        ensures
            r == old(self)@.owns_block,
            final(self)@ == taken(old(self)@),
    {
        let r = self.owns_block;
        self.owns_block = false;
        r
    }

    /// Whether a field value may leave out its own length.
    fn field_owns_block(&self) -> (r: bool)
        ensures
            r == field_owns(WITH_IDENTS, self@.version),
    {
        WITH_IDENTS && !self.version.is_0_4()
    }

    /// Whether the tag of an enum variant carries the flag stating whether a
    /// block holding its payload follows.
    fn variant_is_tagged(&self, owns_block: bool) -> (r: bool)
        ensures
            r == (field_owns(WITH_IDENTS, self@.version) && !owns_block),
    {
        self.field_owns_block() && !owns_block
    }

    /// The bytes written outside any block.
    pub fn finalize(self) -> (r: Vec<u8>)
        ensures
            r@ == self@.parts[0],
    {
        self.output.into_inner()
    }

    fn write_usize(&mut self, data: usize)
        ensures
            final(self)@ == put(old(self)@, varint_enc(data as nat)),
    {
        self.write_u64(data as u64);
    }

    fn write_u128(&mut self, data: u128)
        ensures
            final(self)@ == put(old(self)@, varint_enc(data as nat)),
    {
        let buf = varint_u128(data);
        self.output.write(buf.as_slice());
    }

    fn write_u64(&mut self, data: u64)
        ensures
            final(self)@ == put(old(self)@, varint_enc(data as nat)),
    {
        let buf = varint_u64(data);
        self.output.write(buf.as_slice());
    }

    fn write_u32(&mut self, data: u32)
        ensures
            final(self)@ == put(old(self)@, varint_enc(data as nat)),
    {
        let buf = varint_u32(data);
        self.output.write(buf.as_slice());
    }

    fn write_u16(&mut self, data: u16)
        ensures
            final(self)@ == put(old(self)@, varint_enc(data as nat)),
    {
        let buf = varint_u16(data);
        self.output.write(buf.as_slice());
    }

    /// Writes an identifier and block flag.
    pub fn write_identifier(&mut self, ident: &str, block: bool)
        ensures
            final(self)@ == put(old(self)@, ident_enc(encode_utf8(ident@), block)),
    {
        proof {
            self.output.lemma_has_base();
        }
        let ghost v0 = self@;
        let ghost name = encode_utf8(ident@);
        let b = ident.as_bytes();
        match ident_number(ident) {
            Some(id) => {
                let mut idb: u8 = ID_LEN_NAME + id as u8;
                if block {
                    proof {
                        lemma_block_bit(idb);
                    }
                    idb = idb | ID_BLOCK;
                }
                self.output.write_byte(idb);
            },
            None => {
                let len = b.len();
                if len < ID_LEN as usize {
                    let mut l = len as u8;
                    if block {
                        proof {
                            lemma_block_bit(l);
                        }
                        l = l | ID_BLOCK;
                    }
                    self.output.write_byte(l);
                    self.output.write(b);
                    proof {
                        lemma_wrote_wrote(v0.parts, seq![l], name);
                    }
                } else {
                    let mut idb = ID_LEN;
                    if block {
                        proof {
                            lemma_block_bit(idb);
                        }
                        idb = idb | ID_BLOCK;
                    }
                    self.output.write_byte(idb);
                    self.write_usize(len);
                    self.output.write(b);
                    proof {
                        lemma_wrote_wrote(v0.parts, seq![idb], varint_enc(len as nat));
                        lemma_wrote_wrote(
                            v0.parts,
                            seq![idb] + varint_enc(len as nat),
                            name,
                        );
                    }
                }
            },
        }
    }

    /// Writes a run of bytes that states its own length, unless it reaches
    /// the end of its block.
    fn write_prefixed(&mut self, b: &[u8])
        ensures
            final(self)@ == taken(put(old(self)@, prefixed(old(self)@, b@))),
    {
        proof {
            self.output.lemma_has_base();
        }
        let ghost v0 = self@;
        if !self.takes_block() {
            self.write_usize(b.len());
            proof {
                lemma_wrote_wrote(v0.parts, varint_enc(b@.len()), b@);
            }
        }
        self.output.write(b);
    }

    /// Writes a boolean.
    pub fn serialize_bool(&mut self, v: bool)
        ensures
            final(self)@ == put(old(self)@, seq![if v { TRUE } else { FALSE }]),
    {
        self.output.write_byte(if v { TRUE } else { FALSE });
    }

    /// Writes an `i8` as its byte.
    pub fn serialize_i8(&mut self, v: i8)
        ensures
            final(self)@ == put(old(self)@, seq![v as u8]),
    {
        self.output.write_byte(v as u8);
    }

    /// Writes an `i16` zigzag encoded, as a varint.
    pub fn serialize_i16(&mut self, v: i16)
        ensures
            final(self)@ == put(old(self)@, varint_enc(zig_zag(v as int))),
    {
        let zzv = zig_zag_i16(v);
        self.write_u16(zzv);
    }

    /// Writes an `i32` zigzag encoded, as a varint.
    pub fn serialize_i32(&mut self, v: i32)
        ensures
            final(self)@ == put(old(self)@, varint_enc(zig_zag(v as int))),
    {
        let zzv = zig_zag_i32(v);
        self.write_u32(zzv);
    }

    /// Writes an `i64` zigzag encoded, as a varint.
    pub fn serialize_i64(&mut self, v: i64)
        ensures
            final(self)@ == put(old(self)@, varint_enc(zig_zag(v as int))),
    {
        let zzv = zig_zag_i64(v);
        self.write_u64(zzv);
    }

    /// Writes an `i128` zigzag encoded, as a varint.
    pub fn serialize_i128(&mut self, v: i128)
        ensures
            final(self)@ == put(old(self)@, varint_enc(zig_zag(v as int))),
    {
        let zzv = zig_zag_i128(v);
        self.write_u128(zzv);
    }

    /// Writes a `u8` as its byte.
    pub fn serialize_u8(&mut self, v: u8)
        ensures
            final(self)@ == put(old(self)@, seq![v]),
    {
        self.output.write_byte(v);
    }

    /// Writes a `u16` as a varint.
    pub fn serialize_u16(&mut self, v: u16)
        ensures
            final(self)@ == put(old(self)@, varint_enc(v as nat)),
    {
        self.write_u16(v);
    }

    /// Writes a `u32` as a varint.
    pub fn serialize_u32(&mut self, v: u32)
        ensures
            final(self)@ == put(old(self)@, varint_enc(v as nat)),
    {
        self.write_u32(v);
    }

    /// Writes a `u64` as a varint.
    pub fn serialize_u64(&mut self, v: u64)
        ensures
            final(self)@ == put(old(self)@, varint_enc(v as nat)),
    {
        self.write_u64(v);
    }

    /// Writes a `u128` as a varint.
    pub fn serialize_u128(&mut self, v: u128)
        ensures
            final(self)@ == put(old(self)@, varint_enc(v as nat)),
    {
        self.write_u128(v);
    }

    /// Writes the bits of an `f32`, least significant byte first.
    pub fn serialize_f32_bits(&mut self, bits: u32)
        ensures
            final(self)@ == put(old(self)@, le_bytes(bits as nat, 4)),
    {
        let mut buf: Vec<u8> = Vec::new();
        let mut x = bits;
        let mut i: usize = 0;
        while i < 4
            invariant
                i <= 4,
                buf@ + le_bytes(x as nat, (4 - i) as nat) == le_bytes(bits as nat, 4),
            decreases 4 - i,
        {
            let ghost before = buf@;
            buf.push((x % 256) as u8);
            assert(le_bytes(x as nat, (4 - i) as nat) == seq![(x % 256) as u8] + le_bytes(
                (x / 256) as nat,
                (4 - i - 1) as nat,
            ));
            assert(buf@ + le_bytes((x / 256) as nat, (4 - i - 1) as nat) =~= before + le_bytes(
                x as nat,
                (4 - i) as nat,
            ));
            x = x / 256;
            i = i + 1;
        }
        assert(buf@ =~= le_bytes(bits as nat, 4));
        self.output.write(buf.as_slice());
    }

    /// Writes the bits of an `f64`, least significant byte first.
    pub fn serialize_f64_bits(&mut self, bits: u64)
        ensures
            final(self)@ == put(old(self)@, le_bytes(bits as nat, 8)),
    {
        let mut buf: Vec<u8> = Vec::new();
        let mut x = bits;
        let mut i: usize = 0;
        while i < 8
            invariant
                i <= 8,
                buf@ + le_bytes(x as nat, (8 - i) as nat) == le_bytes(bits as nat, 8),
            decreases 8 - i,
        {
            let ghost before = buf@;
            buf.push((x % 256) as u8);
            assert(le_bytes(x as nat, (8 - i) as nat) == seq![(x % 256) as u8] + le_bytes(
                (x / 256) as nat,
                (8 - i - 1) as nat,
            ));
            assert(buf@ + le_bytes((x / 256) as nat, (8 - i - 1) as nat) =~= before + le_bytes(
                x as nat,
                (8 - i) as nat,
            ));
            x = x / 256;
            i = i + 1;
        }
        assert(buf@ =~= le_bytes(bits as nat, 8));
        self.output.write(buf.as_slice());
    }

    /// Writes a character as the string holding it.
    pub fn serialize_char(&mut self, v: char)
        ensures
            final(self)@ == taken(put(old(self)@, prefixed(old(self)@, encode_utf8(seq![v])))),
    {
        let mut buf: Vec<u8> = Vec::new();
        let c = v as u32;
        if c <= 0x7f {
            buf.push((c & 0x7f) as u8);
        } else if c <= 0x7ff {
            buf.push(0xc0 | ((c >> 6) & 0x1f) as u8);
            buf.push(0x80 | (c & 0x3f) as u8);
        } else if c <= 0xffff {
            buf.push(0xe0 | ((c >> 12) & 0x0f) as u8);
            buf.push(0x80 | ((c >> 6) & 0x3f) as u8);
            buf.push(0x80 | (c & 0x3f) as u8);
        } else {
            buf.push(0xf0 | ((c >> 18) & 0x7) as u8);
            buf.push(0x80 | ((c >> 12) & 0x3f) as u8);
            buf.push(0x80 | ((c >> 6) & 0x3f) as u8);
            buf.push(0x80 | (c & 0x3f) as u8);
        }
        proof {
            let s = seq![v];
            assert(s[0] == v);
            assert(s.drop_first() =~= Seq::<char>::empty());
            assert(encode_utf8(Seq::<char>::empty()) =~= Seq::<u8>::empty());
            assert(encode_utf8(s) == vstd::utf8::encode_scalar(v as u32) + encode_utf8(
                s.drop_first(),
            ));
            assert(encode_utf8(s) =~= vstd::utf8::encode_scalar(v as u32));
            assert(buf@ =~= encode_utf8(s));
        }
        self.write_prefixed(buf.as_slice());
    }

    /// Writes a string: its length, unless it reaches the end of its block,
    /// then its UTF-8 bytes.
    pub fn serialize_str(&mut self, v: &str)
        ensures
            final(self)@ == taken(put(old(self)@, prefixed(old(self)@, encode_utf8(v@)))),
    {
        self.write_prefixed(v.as_bytes());
    }

    /// Writes bytes: their length, unless they reach the end of their block,
    /// then the bytes.
    pub fn serialize_bytes(&mut self, v: &[u8])
        ensures
            final(self)@ == taken(put(old(self)@, prefixed(old(self)@, v@))),
    {
        self.write_prefixed(v);
    }

    /// Writes an absent optional value.
    pub fn serialize_none(&mut self)
        ensures
            final(self)@ == put(old(self)@, seq![NONE]),
    {
        self.output.write_byte(NONE);
    }

    /// Writes the tag of a present optional value, and returns whether the
    /// value that follows reaches the end of the block: it does where the
    /// optional value did.
    pub fn serialize_some(&mut self) -> (owns_block: bool)
        ensures
            owns_block == old(self)@.owns_block,
            final(self)@ == taken(put(old(self)@, seq![SOME])),
    {
        let owns_block = self.takes_block();
        self.output.write_byte(SOME);
        owns_block
    }

    /// Writes a variant without payload.
    pub fn serialize_unit_variant(&mut self, variant_index: u32, variant: &str)
        ensures
            final(self)@ == taken(
                put(
                    old(self)@,
                    variant_enc(WITH_IDENTS, variant_index, encode_utf8(variant@), false),
                ),
            ),
    {
        self.takes_block();
        if WITH_IDENTS {
            self.write_identifier(variant, false);
        } else {
            self.write_u32(variant_index);
        }
    }

    /// Begins a newtype struct; `recoverable` states whether it is the
    /// wrapper of a recoverable value, which a block encloses where nothing
    /// else bounds it.
    ///
    /// Returns whether a block was opened, to be closed with
    /// [`Self::end_block`] after the value, and whether the value reaches
    /// the end of its block.
    pub fn begin_newtype_struct(&mut self, recoverable: bool) -> (r: (bool, bool))
        ensures
            r.0 == (recoverable && !old(self)@.owns_block && old(self)@.version
                != Version::Postbag0_4),
            r.1 == (if r.0 {
                field_owns(WITH_IDENTS, old(self)@.version)
            } else {
                old(self)@.owns_block
            }),
            final(self)@ == (if r.0 {
                opened(taken(old(self)@))
            } else {
                taken(old(self)@)
            }),
    {
        let owns_block = self.takes_block();
        let block = recoverable && !owns_block && !self.version.is_0_4();
        if block {
            self.output.start_skippable();
        }
        let value_owns_block = if block {
            self.field_owns_block()
        } else {
            owns_block
        };
        (block, value_owns_block)
    }

    /// Begins a variant with one value as payload.
    ///
    /// Returns whether a block was opened for the payload, to be closed with
    /// [`Self::end_block`] after it, and whether the payload reaches the end
    /// of a block.
    pub fn begin_newtype_variant(&mut self, variant_index: u32, variant: &str) -> (r: (
        bool,
        bool,
    ))
        ensures
            r.0 == (field_owns(WITH_IDENTS, old(self)@.version) && !old(self)@.owns_block),
            r.1 == (r.0 || old(self)@.owns_block),
            final(self)@ == (if r.0 {
                opened(
                    taken(
                        put(
                            old(self)@,
                            variant_enc(WITH_IDENTS, variant_index, encode_utf8(variant@), true),
                        ),
                    ),
                )
            } else {
                taken(
                    put(
                        old(self)@,
                        variant_enc(WITH_IDENTS, variant_index, encode_utf8(variant@), false),
                    ),
                )
            }),
    {
        let owns_block = self.takes_block();
        let block = self.variant_is_tagged(owns_block);
        if WITH_IDENTS {
            if block {
                self.write_identifier(variant, true);
                self.output.start_skippable();
            } else {
                self.write_identifier(variant, false);
            }
        } else {
            self.write_u32(variant_index);
        }
        (block, block || owns_block)
    }

    /// Closes the innermost block.
    pub fn end_block(&mut self)
        requires
            old(self)@.parts.len() >= 2,
        ensures
            final(self)@ == shut(old(self)@),
    {
        self.output.end_skippable();
    }

    /// Writes the length of a sequence, or where it is not known, the
    /// markers saying so, and opens the block its elements then sit in.
    pub fn serialize_seq(&mut self, len: Option<usize>) -> (r: SeqSerializer)
        ensures
            r@ == len,
            final(self)@ == (if len is None {
                opened(put(old(self)@, len_enc(len)))
            } else {
                put(old(self)@, len_enc(len))
            }),
    {
        self.write_len(len);
        SeqSerializer { len }
    }

    /// Writes the length of a map, or where it is not known, the markers
    /// saying so, and opens the block its entries then sit in.
    pub fn serialize_map(&mut self, len: Option<usize>) -> (r: MapSerializer)
        ensures
            r@ == len,
            final(self)@ == (if len is None {
                opened(put(old(self)@, len_enc(len)))
            } else {
                put(old(self)@, len_enc(len))
            }),
    {
        self.write_len(len);
        MapSerializer { len }
    }

    fn write_len(&mut self, len: Option<usize>)
        ensures
            final(self)@ == (if len is None {
                opened(put(old(self)@, len_enc(len)))
            } else {
                put(old(self)@, len_enc(len))
            }),
    {
        proof {
            self.output.lemma_has_base();
        }
        let ghost v0 = self@;
        match len {
            Some(n) => {
                if n == SPECIAL_LEN {
                    self.write_usize(SPECIAL_LEN);
                    self.write_usize(SPECIAL_LEN);
                    proof {
                        lemma_wrote_wrote(
                            v0.parts,
                            varint_enc(SPECIAL_LEN as nat),
                            varint_enc(SPECIAL_LEN as nat),
                        );
                    }
                } else {
                    self.write_usize(n);
                }
            },
            None => {
                self.write_usize(SPECIAL_LEN);
                self.write_usize(UNKNOWN_LEN);
                proof {
                    lemma_wrote_wrote(
                        v0.parts,
                        varint_enc(SPECIAL_LEN as nat),
                        varint_enc(UNKNOWN_LEN as nat),
                    );
                }
                self.output.start_skippable();
            },
        }
    }

    /// Begins a variant with a tuple as payload.
    pub fn serialize_tuple_variant(&mut self, variant_index: u32, variant: &str, len: usize) -> (r:
        VariantSerializer)
        ensures
            r@ == (field_owns(WITH_IDENTS, old(self)@.version) && !old(self)@.owns_block && len
                > 0),
            final(self)@ == (if r@ {
                opened(
                    taken(
                        put(
                            old(self)@,
                            variant_enc(WITH_IDENTS, variant_index, encode_utf8(variant@), true),
                        ),
                    ),
                )
            } else {
                taken(
                    put(
                        old(self)@,
                        variant_enc(WITH_IDENTS, variant_index, encode_utf8(variant@), false),
                    ),
                )
            }),
    {
        let owns_block = self.takes_block();
        let block = self.variant_is_tagged(owns_block) && len > 0;
        if WITH_IDENTS {
            self.write_identifier(variant, block);
        } else {
            self.write_u32(variant_index);
        }
        if block {
            self.output.start_skippable();
        }
        VariantSerializer { block }
    }

    /// Begins a struct: its field count, unless it reaches the end of its
    /// block, and without identifiers, the block its fields sit in.
    pub fn serialize_struct(&mut self, len: usize)
        ensures
            ({
                let v1 = if old(self)@.owns_block {
                    taken(old(self)@)
                } else {
                    taken(put(old(self)@, varint_enc(len as nat)))
                };
                final(self)@ == if WITH_IDENTS {
                    v1
                } else {
                    opened(v1)
                }
            }),
    {
        if !self.takes_block() {
            self.write_usize(len);
        }
        if !WITH_IDENTS {
            self.output.start_skippable();
        }
    }

    /// Begins a variant with a struct as payload.
    pub fn serialize_struct_variant(&mut self, variant_index: u32, variant: &str, len: usize) -> (r:
        VariantSerializer)
        ensures
            ({
                let owns = old(self)@.owns_block;
                let block = field_owns(WITH_IDENTS, old(self)@.version) && !owns && len > 0;
                let v1 = taken(
                    put(
                        old(self)@,
                        variant_enc(WITH_IDENTS, variant_index, encode_utf8(variant@), block),
                    ),
                );
                let v2 = if block {
                    opened(v1)
                } else {
                    v1
                };
                let v3 = if !field_owns(WITH_IDENTS, old(self)@.version) && !owns {
                    put(v2, varint_enc(len as nat))
                } else {
                    v2
                };
                &&& r@ == (block || !WITH_IDENTS)
                &&& final(self)@ == if WITH_IDENTS {
                    v3
                } else {
                    opened(v3)
                }
            }),
    {
        let owns_block = self.takes_block();
        let block = self.variant_is_tagged(owns_block) && len > 0;
        if WITH_IDENTS {
            self.write_identifier(variant, block);
        } else {
            self.write_u32(variant_index);
        }
        if block {
            self.output.start_skippable();
        }
        if !self.field_owns_block() && !owns_block {
            self.write_usize(len);
        }
        if !WITH_IDENTS {
            self.output.start_skippable();
        }
        VariantSerializer { block: block || !WITH_IDENTS }
    }

    /// Begins a field of a struct: with identifiers, writes the field's and
    /// opens the block its value sits in. Returns whether the value reaches
    /// the end of its block.
    pub fn begin_field(&mut self, key: &str) -> (owns_block: bool)
        ensures
            owns_block == field_owns(WITH_IDENTS, old(self)@.version),
            final(self)@ == if WITH_IDENTS {
                opened(put(old(self)@, ident_enc(encode_utf8(key@), false)))
            } else {
                old(self)@
            },
    {
        if WITH_IDENTS {
            self.write_identifier(key, false);
            self.output.start_skippable();
        }
        self.field_owns_block()
    }

    /// Ends a field of a struct: with identifiers, closes its block.
    pub fn end_field(&mut self)
        requires
            WITH_IDENTS ==> old(self)@.parts.len() >= 2,
        ensures
            final(self)@ == if WITH_IDENTS {
                shut(old(self)@)
            } else {
                old(self)@
            },
    {
        if WITH_IDENTS {
            self.output.end_skippable();
        }
    }

    /// Ends a struct: without identifiers, closes the block its fields sit
    /// in.
    pub fn end_struct(&mut self)
        requires
            !WITH_IDENTS ==> old(self)@.parts.len() >= 2,
        ensures
            final(self)@ == if WITH_IDENTS {
                old(self)@
            } else {
                shut(old(self)@)
            },
    {
        if !WITH_IDENTS {
            self.output.end_skippable();
        }
    }
}

/// The state of a sequence being serialized: its length, if it was known.
pub struct SeqSerializer {
    len: Option<usize>,
}

impl View for SeqSerializer {
    type V = Option<usize>;

    closed spec fn view(&self) -> Option<usize> {
        self.len
    }
}

impl SeqSerializer {
    /// Whether the length was known: where it was not, the elements sit in
    /// a block that `end` closes.
    pub fn len_known(&self) -> (r: bool)
        ensures
            r == self@ is Some,
    {
        self.len.is_some()
    }

    /// Writes what comes before an element: where the length was not known,
    /// the announcement of another element.
    pub fn before_element<const WITH_IDENTS: bool>(&self, ser: &mut Serializer<WITH_IDENTS>)
        ensures
            final(ser)@ == if self@ is None && old(ser)@.version != Version::Postbag0_4 {
                put(old(ser)@, seq![MORE])
            } else {
                old(ser)@
            },
    {
        if self.len.is_none() && !ser.version.is_0_4() {
            ser.output.write_byte(MORE);
        }
    }

    /// Ends the sequence: where the length was not known, writes that no
    /// element follows and closes the block.
    pub fn end<const WITH_IDENTS: bool>(self, ser: &mut Serializer<WITH_IDENTS>)
        requires
            self@ is None ==> old(ser)@.parts.len() >= 2,
        ensures
            final(ser)@ == if self@ is None {
                if old(ser)@.version != Version::Postbag0_4 {
                    shut(put(old(ser)@, seq![NO_MORE]))
                } else {
                    shut(old(ser)@)
                }
            } else {
                old(ser)@
            },
    {
        if self.len.is_none() {
            if !ser.version.is_0_4() {
                ser.output.write_byte(NO_MORE);
            }
            ser.output.end_skippable();
        }
    }
}

/// The state of a map being serialized: its length, if it was known.
pub struct MapSerializer {
    len: Option<usize>,
}

impl View for MapSerializer {
    type V = Option<usize>;

    closed spec fn view(&self) -> Option<usize> {
        self.len
    }
}

impl MapSerializer {
    /// Whether the length was known: where it was not, the entries sit in a
    /// block that `end` closes.
    pub fn len_known(&self) -> (r: bool)
        ensures
            r == self@ is Some,
    {
        self.len.is_some()
    }

    /// Writes what comes before a key: where the length was not known, the
    /// announcement of another entry.
    pub fn before_key<const WITH_IDENTS: bool>(&self, ser: &mut Serializer<WITH_IDENTS>)
        ensures
            final(ser)@ == if self@ is None && old(ser)@.version != Version::Postbag0_4 {
                put(old(ser)@, seq![MORE])
            } else {
                old(ser)@
            },
    {
        if self.len.is_none() && !ser.version.is_0_4() {
            ser.output.write_byte(MORE);
        }
    }

    /// Ends the map: where the length was not known, writes that no entry
    /// follows and closes the block.
    pub fn end<const WITH_IDENTS: bool>(self, ser: &mut Serializer<WITH_IDENTS>)
        requires
            self@ is None ==> old(ser)@.parts.len() >= 2,
        ensures
            final(ser)@ == if self@ is None {
                if old(ser)@.version != Version::Postbag0_4 {
                    shut(put(old(ser)@, seq![NO_MORE]))
                } else {
                    shut(old(ser)@)
                }
            } else {
                old(ser)@
            },
    {
        if self.len.is_none() {
            if !ser.version.is_0_4() {
                ser.output.write_byte(NO_MORE);
            }
            ser.output.end_skippable();
        }
    }
}

/// The state of the payload of a tuple or struct enum variant being
/// serialized: whether a block was opened that has to be closed when the
/// variant ends, the one wrapping the payload or, without identifiers, the
/// one a struct variant always has.
pub struct VariantSerializer {
    block: bool,
}

impl View for VariantSerializer {
    type V = bool;

    closed spec fn view(&self) -> bool {
        self.block
    }
}

impl VariantSerializer {
    /// Whether the variant opened a block that `end` closes.
    pub fn opened_block(&self) -> (r: bool)
        ensures
            r == self@,
    {
        self.block
    }

    /// Ends the variant, closing its block if it opened one.
    pub fn end<const WITH_IDENTS: bool>(self, ser: &mut Serializer<WITH_IDENTS>)
        requires
            self@ ==> old(ser)@.parts.len() >= 2,
        ensures
            final(ser)@ == if self@ {
                shut(old(ser)@)
            } else {
                old(ser)@
            },
    {
        if self.block {
            ser.output.end_skippable();
        }
    }
}

} // verus!
