//! What the serializer writes, the deserializer reads back.
//!
//! Each law here joins what a [`crate::ser::Serializer`] method is stated to
//! write with what the matching [`crate::de::Deserializer`] method is stated
//! to accept: the written bytes, followed by anything, are read as the value
//! that was written, and reading them does not fail for want of a valid
//! encoding.

use vstd::prelude::*;
use vstd::utf8::{decode_utf8, encode_utf8, valid_utf8};

use crate::block::{Frame, Stream, StreamEnd, block_round_trip, encode_block, frame_content, prepend, skip};
use crate::format::{from_le_bytes, le_bytes, le_bytes_round_trip};
use crate::zigzag::{de_zig_zag, zig_zag, zig_zag_round_trip};
use crate::skip_read::read_succeeds;
use crate::de::{
    DeView, ahead, char_bytes_ok, char_ok, cleared, has_after, ident_dec, ident_ok, len_dec, len_ok, prefixed_ok, took,
    took_prefixed, took_varint, top,
};
use crate::skip_read::level_of;
use crate::cfg::Version;
use crate::ser::{SerView, field_owns, prefixed};
use crate::format::{FALSE, SPECIAL_LEN, TRUE, UNKNOWN_LEN, block_bit, ident_enc, len_enc};
use crate::id::{ID_COUNT, ID_LEN, ID_LEN_NAME, ident_name, numbered_idents_agree, spec_ident_number};
use crate::varint::{
    MAX_LAST_U64, VARINT_MAX_U64, VarintParse, lemma_varint_bounds, lemma_varint_parse_prefix,
    lemma_varint_round_trip, varint_bound, varint_enc, varint_parse, varint_u64_round_trip,
};

verus! {

/// A block, written, is read back as its content, and the level it sits in
/// continues right after it.
pub proof fn block_read_back(c: Seq<u8>, s: Stream)
    ensures
        frame_content(prepend(encode_block(c), s), Frame { remaining: 0, has_next: true }) == (
            Stream { bytes: c, end: StreamEnd::Clean },
            Some(s),
        ),
{
    let ps = prepend(encode_block(c), s);
    block_round_trip(c, s);
    assert(skip(ps, 0) == ps) by {
        assert(ps.bytes.skip(0) =~= ps.bytes);
    }
    assert(ps.bytes.take(0) + c =~= c);
    assert(ps.bytes.skip(encode_block(c).len() as int) =~= s.bytes);
}

/// A 64-bit varint, written, is read back, whatever follows it.
proof fn lemma_u64_front(v: nat, t: Seq<u8>)
    requires
        v <= u64::MAX,
    ensures
        varint_parse(varint_enc(v) + t, VARINT_MAX_U64 as nat, MAX_LAST_U64 as nat)
            == VarintParse::Value(v, varint_enc(v).len()),
        (varint_enc(v) + t).skip(varint_enc(v).len() as int) == t,
{
    varint_u64_round_trip(v as u64, t);
    assert((varint_enc(v) + t).skip(varint_enc(v).len() as int) =~= t);
}

/// The length of a sequence or map, written, is read back, whatever follows
/// it.
pub proof fn len_round_trip(len: Option<usize>, rest: Stream)
    ensures
        len_dec(len_enc(len)) == Some(len),
        len_ok(prepend(len_enc(len), rest)),
{
    let e = len_enc(len);
    let s = e + rest.bytes;
    let special = varint_enc(SPECIAL_LEN as nat);
    match len {
        Some(n) => {
            if n == SPECIAL_LEN {
                lemma_u64_front(SPECIAL_LEN as nat, special);
                lemma_u64_front(SPECIAL_LEN as nat, Seq::empty());
                assert(special + Seq::<u8>::empty() =~= special);
                lemma_u64_front(SPECIAL_LEN as nat, special + rest.bytes);
                assert(s =~= special + (special + rest.bytes));
                lemma_u64_front(SPECIAL_LEN as nat, rest.bytes);
            } else {
                lemma_u64_front(n as nat, Seq::empty());
                assert(varint_enc(n as nat) + Seq::<u8>::empty() =~= varint_enc(n as nat));
                lemma_u64_front(n as nat, rest.bytes);
            }
        },
        None => {
            let unknown = varint_enc(UNKNOWN_LEN as nat);
            lemma_u64_front(SPECIAL_LEN as nat, unknown);
            lemma_u64_front(UNKNOWN_LEN as nat, Seq::empty());
            assert(unknown + Seq::<u8>::empty() =~= unknown);
            lemma_u64_front(SPECIAL_LEN as nat, unknown + rest.bytes);
            assert(s =~= special + (unknown + rest.bytes));
            lemma_u64_front(UNKNOWN_LEN as nat, rest.bytes);
        },
    }
}

/// A run of bytes that states its own length, written, is read back,
/// whatever follows it, unless it is empty and what follows cannot even be
/// begun; one that reaches the end of its block is read back where its
/// block ends.
pub proof fn prefixed_round_trip(b: Seq<u8>, rest: Stream)
    requires
        b.len() <= usize::MAX,
        b.len() > 0 || read_succeeds(rest, 0),
    ensures
        prefixed_ok(false, prepend(varint_enc(b.len()) + b, rest)),
        prepend(varint_enc(b.len()) + b, rest).bytes.subrange(
            varint_enc(b.len()).len() as int,
            (varint_enc(b.len()).len() + b.len()) as int,
        ) == b,
        prefixed_ok(true, Stream { bytes: b, end: StreamEnd::Clean }),
{
    let h = varint_enc(b.len());
    let s = prepend(h + b, rest);
    assert(s.bytes =~= h + (b + rest.bytes));
    lemma_u64_front(b.len(), b + rest.bytes);
    assert(skip(s, h.len()).bytes =~= b + rest.bytes);
    assert(s.bytes.subrange(h.len() as int, (h.len() + b.len()) as int) =~= b);
}

/// The UTF-8 encoding of a character is valid and decodes to it.
pub proof fn char_round_trip(c: char)
    ensures
        valid_utf8(encode_utf8(seq![c])),
        decode_utf8(encode_utf8(seq![c])).len() > 0,
        decode_utf8(encode_utf8(seq![c]))[0] == c,
        1 <= encode_utf8(seq![c]).len() <= 4,
{
    vstd::utf8::encode_utf8_valid_utf8(seq![c]);
    vstd::utf8::encode_utf8_decode_utf8(seq![c]);
    let s = seq![c];
    assert(s.drop_first() =~= Seq::<char>::empty());
    assert(encode_utf8(Seq::<char>::empty()) =~= Seq::<u8>::empty());
    assert(encode_utf8(s) == vstd::utf8::encode_scalar(c as u32) + encode_utf8(s.drop_first()));
}

/// Only the current format, with identifiers, lets a field value run to the
/// end of its block and leave out its own length.
pub proof fn field_owns_only_current_format(with_idents: bool, version: Version)
    ensures
        field_owns(with_idents, version) <==> (with_idents && version == Version::Postbag1),
{
}

/// Under the legacy format a field value states its own length, with
/// identifiers or without, so that a reader of that format, which never
/// takes a field's block as the end of its value, reads back what was
/// written, whatever follows it.
pub proof fn legacy_field_states_length(with_idents: bool, v: SerView, b: Seq<u8>, rest: Stream)
    requires
        v.version == Version::Postbag0_4,
        b.len() <= usize::MAX,
        b.len() > 0 || read_succeeds(rest, 0),
    ensures
        ({
            let w = SerView { owns_block: field_owns(with_idents, v.version), ..v };
            &&& prefixed(w, b) == varint_enc(b.len()) + b
            &&& prefixed_ok(false, prepend(prefixed(w, b), rest))
            &&& prepend(prefixed(w, b), rest).bytes.subrange(
                varint_enc(b.len()).len() as int,
                (varint_enc(b.len()).len() + b.len()) as int,
            ) == b
        }),
{
    prefixed_round_trip(b, rest);
}

/// A character written as the whole content of its field block is read back:
/// its encoding is the one character that its first byte announces.
pub proof fn char_owned_round_trip(c: char)
    ensures
        char_bytes_ok(encode_utf8(seq![c])),
        char_ok(true, Stream { bytes: encode_utf8(seq![c]), end: StreamEnd::Clean }),
        decode_utf8(encode_utf8(seq![c]))[0] == c,
{
    char_round_trip(c);
    crate::utf8::lead_announces_encoding(c);
    let e = encode_utf8(seq![c]);
    assert(e.take(e.len() as int) =~= e);
}

/// A character written as a string that states its length is read back,
/// whatever follows it.
pub proof fn char_counted_round_trip(c: char, rest: Stream)
    ensures
        char_ok(
            false,
            prepend(
                varint_enc(encode_utf8(seq![c]).len()) + encode_utf8(seq![c]),
                rest,
            ),
        ),
{
    char_round_trip(c);
    prefixed_round_trip(encode_utf8(seq![c]), rest);
    let e = encode_utf8(seq![c]);
    let s = prepend(varint_enc(e.len()) + e, rest);
    lemma_u64_front(e.len(), e + rest.bytes);
    assert(s.bytes =~= varint_enc(e.len()) + (e + rest.bytes));
}

/// An identifier, written, is read back as the name and block flag it was
/// written with, whatever follows it, unless its name is empty and what
/// follows cannot even be begun.
pub proof fn ident_round_trip(name: Seq<u8>, block: bool, rest: Stream)
    requires
        valid_utf8(name),
        name.len() <= usize::MAX,
        name.len() > 0 || read_succeeds(rest, 0),
    ensures
        ident_dec(ident_enc(name, block)) == Some((name, block)),
        ident_ok(prepend(ident_enc(name, block), rest)),
{
    let e = ident_enc(name, block);
    let s = prepend(e, rest);
    match spec_ident_number(name) {
        Some(n) => {
            numbered_idents_agree(name, n);
            assert(e[0] % 128 == ID_LEN_NAME + n);
            assert((e[0] >= 128) == block);
            assert(s.bytes[0] == e[0]);
        },
        None => {
            if name.len() < ID_LEN {
                let first = (name.len() + block_bit(block)) as u8;
                assert(e =~= seq![first] + name);
                assert(first % 128 == name.len() && (first >= 128) == block);
                assert(e.drop_first() =~= name);
                assert(s.bytes =~= seq![first] + (name + rest.bytes));
                assert(skip(s, 1).bytes =~= name + rest.bytes);
                assert(s.bytes.subrange(1, (1 + name.len()) as int) =~= name);
            } else {
                let first = (ID_LEN + block_bit(block)) as u8;
                let h = varint_enc(name.len());
                assert(e =~= seq![first] + h + name);
                assert(first % 128 == ID_LEN && (first >= 128) == block);
                assert(e.drop_first() =~= h + name);
                lemma_u64_front(name.len(), name);
                assert(e.subrange((1 + h.len()) as int, e.len() as int) =~= name);
                assert(s.bytes =~= seq![first] + (h + (name + rest.bytes)));
                assert(s.bytes.drop_first() =~= h + (name + rest.bytes));
                lemma_u64_front(name.len(), name + rest.bytes);
                assert(skip(s, 1 + h.len()).bytes =~= name + rest.bytes);
                assert(s.bytes.subrange((1 + h.len()) as int, (1 + h.len() + name.len()) as int)
                    =~= name);
            }
        },
    }
}

/// Whether, for a read going from `v0` to `v1`, what lay ahead of the
/// deserializer, for a source that goes on to deliver `rest`, began with `w`.
pub open spec fn ahead_begins(v0: DeView, v1: DeView, rest: Seq<u8>, w: Seq<u8>) -> bool {
    let s = ahead(v0, v1, rest).bytes;
    w.len() <= s.len() && s.take(w.len() as int) == w
}

/// What a read took is what lay ahead at its front.
proof fn lemma_took_front(v0: DeView, v1: DeView, rest: Seq<u8>, h: Seq<u8>)
    requires
        took(v0, v1, h),
    ensures
        ahead(v0, v1, rest).bytes == h + level_of(v1.input, rest, top(v0)).bytes,
{
    let w = level_of(v1.input, rest, top(v0));
    assert(ahead(v0, v1, rest) == prepend(h, w));
}

/// Two encodings that both begin the same bytes, of which the shorter is
/// known to be the whole encoding, are one encoding.
proof fn lemma_same_front(s: Seq<u8>, a: Seq<u8>, b: Seq<u8>)
    requires
        a.len() == b.len(),
        a.len() <= s.len(),
        s.take(a.len() as int) == a,
        s.take(b.len() as int) == b,
    ensures
        a == b,
{
}

/// A varint read where the varint of `v` lay ahead gives `v`, whatever
/// followed it.
pub proof fn varint_read_back(
    v0: DeView,
    v1: DeView,
    rest: Seq<u8>,
    v: nat,
    u: nat,
    max_len: nat,
    max_last: nat,
)
    requires
        1 <= max_len,
        max_last < 128,
        v < varint_bound(max_len, max_last),
        took_varint(v0, v1, max_len, max_last, u),
        ahead_begins(v0, v1, rest, varint_enc(v)),
    ensures
        u == v,
{
    let h = choose|h: Seq<u8>|
        #[trigger] took(v0, v1, h) && varint_parse(h, max_len, max_last) == VarintParse::Value(
            u,
            h.len(),
        );
    lemma_took_front(v0, v1, rest, h);
    let s = ahead(v0, v1, rest).bytes;
    let w = level_of(v1.input, rest, top(v0)).bytes;
    lemma_varint_parse_prefix(h, w, max_len, max_last);
    let e = varint_enc(v);
    let tail = s.skip(e.len() as int);
    assert(s =~= e + tail);
    lemma_varint_round_trip(v, tail, max_len, max_last);
}

/// A signed integer read where what the writer wrote for `x` lay ahead
/// gives `x`: the varint of its zigzag mapping.
pub proof fn signed_read_back(
    v0: DeView,
    v1: DeView,
    rest: Seq<u8>,
    x: int,
    y: int,
    max_len: nat,
    max_last: nat,
)
    requires
        1 <= max_len,
        max_last < 128,
        zig_zag(x) < varint_bound(max_len, max_last),
        exists|u: nat| de_zig_zag(u) == y && #[trigger] took_varint(v0, v1, max_len, max_last, u),
        ahead_begins(v0, v1, rest, varint_enc(zig_zag(x))),
    ensures
        y == x,
{
    let u = choose|u: nat| de_zig_zag(u) == y && #[trigger] took_varint(v0, v1, max_len, max_last, u);
    varint_read_back(v0, v1, rest, zig_zag(x), u, max_len, max_last);
    zig_zag_round_trip(x);
}

/// A boolean read where what the writer wrote for `b` lay ahead gives `b`.
pub proof fn bool_read_back(v0: DeView, v1: DeView, rest: Seq<u8>, b: bool, c: bool)
    requires
        took(v0, v1, seq![if c { TRUE } else { FALSE }]),
        ahead_begins(v0, v1, rest, seq![if b { TRUE } else { FALSE }]),
    ensures
        c == b,
{
    lemma_took_front(v0, v1, rest, seq![if c { TRUE } else { FALSE }]);
    let s = ahead(v0, v1, rest).bytes;
    assert(s[0] == (if c { TRUE } else { FALSE }));
    assert(s.take(1)[0] == s[0]);
}

/// The bits of a float read where what the writer wrote for `bits`, its
/// `n` bytes least significant first, lay ahead are `bits`.
pub proof fn bits_read_back(v0: DeView, v1: DeView, rest: Seq<u8>, bits: nat, n: nat, b: Seq<u8>)
    requires
        bits < vstd::arithmetic::power::pow(256, n),
        took(v0, v1, b),
        b.len() == n,
        ahead_begins(v0, v1, rest, le_bytes(bits, n)),
    ensures
        from_le_bytes(b) == bits,
{
    lemma_took_front(v0, v1, rest, b);
    le_bytes_round_trip(bits, n);
    let s = ahead(v0, v1, rest).bytes;
    assert(s.take(n as int) =~= b);
    lemma_same_front(s, b, le_bytes(bits, n));
    vstd::arithmetic::div_mod::lemma_small_mod(bits, vstd::arithmetic::power::pow(256, n) as nat);
}

/// A run of bytes that states its own length, read where what the writer
/// wrote for `b` lay ahead, is `b`.
pub proof fn prefixed_read_back(v0: DeView, v1: DeView, rest: Seq<u8>, b: Seq<u8>, c: Seq<u8>)
    requires
        !v0.owns_block,
        b.len() <= usize::MAX,
        took_prefixed(v0, v1, c),
        ahead_begins(v0, v1, rest, varint_enc(b.len()) + b),
    ensures
        c == b,
{
    let h = choose|h: Seq<u8>|
        #[trigger] took(cleared(v0), v1, h + c) && varint_parse(
            h,
            VARINT_MAX_U64 as nat,
            MAX_LAST_U64 as nat,
        ) == VarintParse::Value(c.len(), h.len());
    lemma_took_front(cleared(v0), v1, rest, h + c);
    assert(ahead(cleared(v0), v1, rest) == ahead(v0, v1, rest));
    let s = ahead(v0, v1, rest).bytes;
    let w = level_of(v1.input, rest, top(v0)).bytes;
    assert(s =~= h + (c + w));
    lemma_varint_parse_prefix(h, c + w, VARINT_MAX_U64 as nat, MAX_LAST_U64 as nat);
    let e = varint_enc(b.len());
    let tail = s.skip(e.len() as int);
    assert(s.take((e + b).len() as int) == e + b);
    assert(s =~= e + tail) by {
        assert(s.take(e.len() as int) =~= (e + b).take(e.len() as int));
        assert((e + b).take(e.len() as int) =~= e);
    }
    lemma_varint_bounds();
    lemma_varint_round_trip(b.len(), tail, VARINT_MAX_U64 as nat, MAX_LAST_U64 as nat);
    assert(h.len() == e.len() && c.len() == b.len());
    assert(c =~= s.subrange(h.len() as int, (h.len() + c.len()) as int));
    assert(b =~= (e + b).subrange(e.len() as int, (e.len() + b.len()) as int));
    assert(s.subrange(e.len() as int, (e.len() + b.len()) as int) =~= s.take((e + b).len() as int).subrange(
        e.len() as int,
        (e.len() + b.len()) as int,
    ));
}

/// Where an identifier encoding `h` begins `s`, its length is fixed by `s`.
proof fn lemma_ident_len(h: Seq<u8>, s: Seq<u8>)
    requires
        ident_dec(h) is Some,
        h.len() <= s.len(),
        s.take(h.len() as int) == h,
    ensures
        h.len() == ident_len(s),
{
    assert(s[0] == h[0]) by {
        assert(s.take(h.len() as int)[0] == s[0]);
    }
    let id = (h[0] % 128) as nat;
    if id < ID_LEN_NAME && id == ID_LEN {
        let t = s.drop_first();
        let hd = h.drop_first();
        assert(t.take(hd.len() as int) =~= hd) by {
            assert forall|i: int| 0 <= i < hd.len() implies t[i] == hd[i] by {
                assert(s.take(h.len() as int)[i + 1] == s[i + 1]);
            }
        }
        assert(t =~= hd + t.skip(hd.len() as int));
        lemma_varint_parse_prefix(hd, t.skip(hd.len() as int), VARINT_MAX_U64 as nat, MAX_LAST_U64 as nat);
    }
}

/// How long the identifier at the front of `s` is, read from `s` itself.
pub open spec fn ident_len(s: Seq<u8>) -> nat {
    let id = (s[0] % 128) as nat;
    if id >= ID_LEN_NAME {
        1
    } else if id == ID_LEN {
        match varint_parse(s.drop_first(), VARINT_MAX_U64 as nat, MAX_LAST_U64 as nat) {
            VarintParse::Value(n, k) => 1 + k + n,
            _ => 0,
        }
    } else {
        1 + id
    }
}

/// An identifier read where what the writer wrote for `name` and `block`
/// lay ahead gives that name and block flag.
pub proof fn ident_read_back(
    v0: DeView,
    v1: DeView,
    rest: Seq<u8>,
    name: Seq<u8>,
    block: bool,
    h: Seq<u8>,
)
    requires
        valid_utf8(name),
        name.len() <= usize::MAX,
        took(v0, v1, h),
        ident_dec(h) is Some,
        ahead_begins(v0, v1, rest, ident_enc(name, block)),
    ensures
        ident_dec(h) == Some((name, block)),
{
    lemma_took_front(v0, v1, rest, h);
    let s = ahead(v0, v1, rest).bytes;
    let e = ident_enc(name, block);
    assert(s.take(h.len() as int) =~= h);
    lemma_varint_bounds();
    ident_round_trip(name, block, Stream { bytes: s.skip(e.len() as int), end: StreamEnd::Clean });
    lemma_ident_len(h, s);
    lemma_ident_len(e, s);
    lemma_same_front(s, h, e);
}

/// A length read where what the writer wrote for `len` lay ahead gives
/// `len`.
pub proof fn len_read_back(v0: DeView, v1: DeView, rest: Seq<u8>, len: Option<usize>, h: Seq<u8>)
    requires
        took(v0, v1, h),
        len_dec(h) is Some,
        ahead_begins(v0, v1, rest, len_enc(len)),
    ensures
        len_dec(h) == Some(len),
{
    lemma_took_front(v0, v1, rest, h);
    let s = ahead(v0, v1, rest).bytes;
    let e = len_enc(len);
    assert(s.take(h.len() as int) =~= h);
    len_round_trip(len, Stream { bytes: s.skip(e.len() as int), end: StreamEnd::Clean });
    lemma_len_len(h, s);
    lemma_len_len(e, s);
    lemma_same_front(s, h, e);
}

/// How long the length at the front of `s` is, read from `s` itself.
pub open spec fn len_len(s: Seq<u8>) -> nat {
    match varint_parse(s, VARINT_MAX_U64 as nat, MAX_LAST_U64 as nat) {
        VarintParse::Value(v, k) => if v == SPECIAL_LEN {
            match varint_parse(s.skip(k as int), VARINT_MAX_U64 as nat, MAX_LAST_U64 as nat) {
                VarintParse::Value(w, k2) => k + k2,
                _ => 0,
            }
        } else {
            k
        },
        _ => 0,
    }
}

/// Where a length encoding `h` begins `s`, its length is fixed by `s`.
proof fn lemma_len_len(h: Seq<u8>, s: Seq<u8>)
    requires
        len_dec(h) is Some,
        h.len() <= s.len(),
        s.take(h.len() as int) == h,
    ensures
        h.len() == len_len(s),
{
    assert(s =~= h + s.skip(h.len() as int));
    lemma_varint_parse_prefix(h, s.skip(h.len() as int), VARINT_MAX_U64 as nat, MAX_LAST_U64 as nat);
    if let VarintParse::Value(v, k) = varint_parse(h, VARINT_MAX_U64 as nat, MAX_LAST_U64 as nat) {
        if v == SPECIAL_LEN {
            let hk = h.skip(k as int);
            let sk = s.skip(k as int);
            assert(sk =~= hk + s.skip(h.len() as int));
            lemma_varint_parse_prefix(hk, s.skip(h.len() as int), VARINT_MAX_U64 as nat, MAX_LAST_U64 as nat);
        }
    }
}

/// An identifier is written as the format lays it out: a numbered name as
/// the one byte `0x41 + n`, a name shorter than 64 bytes as its length and
/// then the name, and a longer one as `0x40`, its length as a varint and then
/// the name; the first byte has `0x80` added where a block follows.
pub proof fn identifier_layout(name: Seq<u8>, block: bool)
    ensures
        ident_enc(name, block) == ({
            let f: nat = if block {
                0x80
            } else {
                0
            };
            match spec_ident_number(name) {
                Some(n) => seq![(0x41 + n + f) as u8],
                None => if name.len() < 64 {
                    seq![(name.len() + f) as u8] + name
                } else {
                    seq![(0x40 + f) as u8] + varint_enc(name.len()) + name
                },
            }
        }),
{
}

} // verus!
