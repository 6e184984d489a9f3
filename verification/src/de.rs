//! Deserialization: reading back each kind of value.
//!
//! A [`Deserializer`] is driven value by value, as its counterpart
//! [`crate::ser::Serializer`] is. What each method reads is stated over the
//! reader's model: for every source, what the innermost open block delivers
//! from now on. A method that succeeds read an encoding of its result from
//! the front of it; a method that fails, other than by a failure of the byte
//! source, found no valid encoding there.

use vstd::prelude::*;

use crate::block::{Frame, Stream, StreamEnd, fail_of, frame_content, prepend, skip};
use crate::cfg::{Cfg, Version};
use crate::error::Error;
use crate::id::{ID_BLOCK, ID_COUNT, ID_LEN, ID_LEN_NAME, ident_name, numbered_ident};
use crate::format::{
    FALSE, MORE, NO_MORE, NONE, SOME, SPECIAL_LEN, TRUE, UNKNOWN_LEN, from_le_bytes, le_value,
};
use crate::skip_read::{
    Model, SkipRead, extends, failed_at, fresh, from_source, level_of, lemma_fresh_compose,
    log_grew, moved_at, read_error, read_succeeds, varint_failed, exhausted, closing_failed, touch_failed, popping,
    fail_is,
    lemma_moved_compose, lemma_moved_then_failed,
};
use crate::source::ByteSource;
use crate::utf8::{first_char, lead_following, string_from_utf8, utf8_following_bytes};
use vstd::utf8::{decode_utf8, encode_utf8, valid_utf8};
use crate::varint::{
    MAX_LAST_U128, MAX_LAST_U16, MAX_LAST_U32, MAX_LAST_U64, VARINT_MAX_U128, VARINT_MAX_U16,
    VARINT_MAX_U32, VARINT_MAX_U64, VarintParse, lemma_varint_bounds, lemma_varint_parse_bound,
    lemma_varint_parse_prefix, varint_parse,
};
use crate::zigzag::{
    de_zig_zag, de_zig_zag_i128, de_zig_zag_i16, de_zig_zag_i32, de_zig_zag_i64,
};

verus! {

/// What a deserializer holds.
pub struct DeView {
    /// The open blocks and what the source delivered.
    pub input: Model,
    /// Whether the source has failed.
    pub failed: bool,
    /// How many more levels of nesting are allowed.
    pub remaining_depth: nat,
    /// The version of the data format read.
    pub version: Version,
    /// Whether the value about to be read reaches the end of the enclosing
    /// block, having left out its own length.
    pub owns_block: bool,
}

/// The level values are read at: that of the innermost open block.
pub open spec fn top(v: DeView) -> nat {
    v.input.frames.len()
}

/// What the innermost block delivers, going from `v0` to `v1`, for a source
/// that goes on to deliver `rest`.
pub open spec fn ahead(v0: DeView, v1: DeView, rest: Seq<u8>) -> Stream {
    level_of(v0.input, fresh(v0.input, v1.input) + rest, top(v0))
}

/// All but the input are as they were.
pub open spec fn same_state(v0: DeView, v1: DeView) -> bool {
    &&& v1.remaining_depth == v0.remaining_depth
    &&& v1.version == v0.version
    &&& v1.owns_block == v0.owns_block
}

/// Going from `v0` to `v1` read `b` from the innermost block and changed
/// nothing else.
pub open spec fn took(v0: DeView, v1: DeView, b: Seq<u8>) -> bool {
    &&& moved_at(v0.input, v1.input, top(v0), b)
    &&& v1.failed == v0.failed
    &&& same_state(v0, v1)
}

/// Going from `v0` to `v1` ended in the error `e`, and changed nothing but
/// the input.
pub open spec fn errored(v0: DeView, v1: DeView, e: Error) -> bool {
    &&& log_grew(v0.input, v1.input)
    &&& v1.failed == (v0.failed || e is Io)
    &&& same_state(v0, v1)
}

/// The state with the flag that says whether the value reaches the end of
/// its block taken.
pub open spec fn cleared(v: DeView) -> DeView {
    DeView { owns_block: false, ..v }
}

/// Whether a stream begins with a byte for which `ok` holds.
pub open spec fn byte_ok(s: Stream, ok: spec_fn(u8) -> bool) -> bool {
    s.bytes.len() >= 1 && ok(s.bytes[0])
}

/// Whether a stream begins with a varint of the shape.
pub open spec fn varint_ok(s: Stream, max_len: nat, max_last: nat) -> bool {
    varint_parse(s.bytes, max_len, max_last) is Value
}

/// Whether a stream begins with a 64-bit varint that fits in `usize`.
pub open spec fn usize_ok(s: Stream) -> bool {
    varint_parse(s.bytes, VARINT_MAX_U64 as nat, MAX_LAST_U64 as nat) matches VarintParse::Value(
        v,
        _,
    ) && v <= usize::MAX
}

/// Going from `v0` to `v1` read a varint of the shape worth `u`.
pub open spec fn took_varint(v0: DeView, v1: DeView, max_len: nat, max_last: nat, u: nat) -> bool {
    exists|h: Seq<u8>|
        #[trigger] took(v0, v1, h) && varint_parse(h, max_len, max_last) == VarintParse::Value(
            u,
            h.len(),
        )
}

/// A byte read is the first of what the level delivered.
pub proof fn lemma_first_byte(m0: Model, m1: Model, level: nat, b: u8, rest: Seq<u8>)
    requires
        moved_at(m0, m1, level, seq![b]),
    ensures
        level_of(m0, fresh(m0, m1) + rest, level).bytes.len() >= 1,
        level_of(m0, fresh(m0, m1) + rest, level).bytes[0] == b,
{
    let w = level_of(m1, rest, level);
    assert(level_of(m0, fresh(m0, m1) + rest, level) == crate::block::prepend(seq![b], w));
    assert((seq![b] + w.bytes)[0] == b);
}

/// A varint read is what the level delivered begins with.
pub proof fn lemma_varint_front(
    m0: Model,
    m1: Model,
    level: nat,
    h: Seq<u8>,
    max_len: nat,
    max_last: nat,
    u: nat,
    rest: Seq<u8>,
)
    requires
        moved_at(m0, m1, level, h),
        varint_parse(h, max_len, max_last) == VarintParse::Value(u, h.len()),
    ensures
        varint_parse(level_of(m0, fresh(m0, m1) + rest, level).bytes, max_len, max_last)
            == VarintParse::Value(u, h.len()),
{
    let w = level_of(m1, rest, level);
    lemma_varint_parse_prefix(h, w.bytes, max_len, max_last);
}

/// Whether `n` bytes can be read from a stream after its first `k`.
pub open spec fn has_after(s: Stream, k: nat, n: nat) -> bool {
    read_succeeds(skip(s, k), n)
}

/// Going from `v0` to `v1` read a run of bytes `b` that stated its own
/// length, or, where the value reached the end of its block, ran to that
/// end.
pub open spec fn took_prefixed(v0: DeView, v1: DeView, b: Seq<u8>) -> bool {
    if v0.owns_block {
        &&& took(cleared(v0), v1, b)
        &&& forall|rest: Seq<u8>|
            #![trigger level_of(v1.input, rest, top(v0))]
            exhausted(level_of(v1.input, rest, top(v0)))
    } else {
        exists|h: Seq<u8>|
            #[trigger] took(cleared(v0), v1, h + b) && varint_parse(
                h,
                VARINT_MAX_U64 as nat,
                MAX_LAST_U64 as nat,
            ) == VarintParse::Value(b.len(), h.len())
    }
}

/// Whether a stream begins with a run of bytes that states its own length,
/// or, for a value reaching the end of its block, whether the block ends
/// cleanly.
pub open spec fn prefixed_ok(owns: bool, s: Stream) -> bool {
    if owns {
        s.end is Clean
    } else {
        match varint_parse(s.bytes, VARINT_MAX_U64 as nat, MAX_LAST_U64 as nat) {
            VarintParse::Value(n, k) => n <= usize::MAX && has_after(s, k, n),
            _ => false,
        }
    }
}

/// Going from `v0` to `v1` read `h`, then a read of nothing failed with `e`
/// below the innermost block, where a block underneath could not go on to
/// its next chunk.
pub open spec fn touch_failed_after(v0: DeView, v1: DeView, h: Seq<u8>, e: Error) -> bool {
    exists|vk: DeView|
        #[trigger] took(v0, vk, h) && extends(vk.input, v1.input) && touch_failed(
            vk.input,
            v1.input,
            top(v0),
            e,
        )
}

/// Where a read of nothing failed after `h` was read, what was ahead began
/// with `h`.
pub proof fn lemma_touch_front(v0: DeView, v1: DeView, h: Seq<u8>, e: Error, rest: Seq<u8>)
    requires
        touch_failed_after(v0, v1, h, e),
    ensures
        exists|w: Stream| ahead(v0, v1, rest) == #[trigger] prepend(h, w),
{
    let vk = choose|vk: DeView|
        #[trigger] took(v0, vk, h) && extends(vk.input, v1.input) && touch_failed(
            vk.input,
            v1.input,
            top(v0),
            e,
        );
    lemma_took_then(v0, vk, v1, h, rest);
    assert(ahead(v0, v1, rest) == prepend(h, ahead(vk, v1, rest)));
}

/// A run stated to hold no bytes holds no character.
pub proof fn lemma_empty_run_no_char(v0: DeView, v1: DeView, h: Seq<u8>, e: Error, rest: Seq<u8>)
    requires
        varint_parse(h, VARINT_MAX_U64 as nat, MAX_LAST_U64 as nat) == VarintParse::Value(0, h.len()),
        touch_failed_after(v0, v1, h, e),
    ensures
        !char_ok(false, ahead(v0, v1, rest)),
{
    lemma_touch_front(v0, v1, h, e, rest);
    let w = choose|w: Stream| ahead(v0, v1, rest) == #[trigger] prepend(h, w);
    lemma_varint_parse_prefix(h, w.bytes, VARINT_MAX_U64 as nat, MAX_LAST_U64 as nat);
    let s = ahead(v0, v1, rest);
    assert(s.bytes =~= h + w.bytes);
    assert(s.bytes.subrange(h.len() as int, h.len() as int) =~= Seq::<u8>::empty());
    assert(decode_utf8(Seq::<u8>::empty()) =~= Seq::<char>::empty());
}

/// Reading a run of bytes that states its own length, going from `v0` to
/// `v1`, failed with `e`: no such run was ahead, or the run was empty and
/// the read of nothing failed below the innermost block.
pub open spec fn prefixed_failed(v0: DeView, v1: DeView, e: Error) -> bool {
    ||| forall|rest: Seq<u8>|
        #![trigger ahead(v0, v1, rest)]
        !prefixed_ok(v0.owns_block, ahead(v0, v1, rest))
    ||| exists|h: Seq<u8>|
        varint_parse(h, VARINT_MAX_U64 as nat, MAX_LAST_U64 as nat) == VarintParse::Value(0, h.len())
            && #[trigger] touch_failed_after(cleared(v0), v1, h, e)
}

/// Reading the rest of an identifier whose first byte is `first`, going
/// from `v0` to `v1`, failed with `e`: no identifier was there, or its name
/// was empty and the read of nothing failed below the innermost block.
pub open spec fn ident_rest_failed(v0: DeView, v1: DeView, first: u8, e: Error) -> bool {
    ||| forall|rest: Seq<u8>|
        #![trigger ahead(v0, v1, rest)]
        !ident_ok(prepend(seq![first], ahead(v0, v1, rest)))
    ||| exists|h: Seq<u8>| ident_name_shape(first, h, 0) && #[trigger] touch_failed_after(v0, v1, h, e)
}

/// Reading an identifier, going from `v0` to `v1`, failed with `e`: no
/// identifier was there, or its name was empty and the read of nothing
/// failed below the innermost block.
pub open spec fn ident_failed(v0: DeView, v1: DeView, e: Error) -> bool {
    ||| forall|rest: Seq<u8>| #![trigger ahead(v0, v1, rest)] !ident_ok(ahead(v0, v1, rest))
    ||| exists|h: Seq<u8>|
        h.len() >= 1 && ident_name_shape(h[0], h.drop_first(), 0) && #[trigger] touch_failed_after(
            v0,
            v1,
            h,
            e,
        )
}

/// What a level delivered is what was read, then what it delivers now.
pub proof fn lemma_front(m0: Model, m1: Model, level: nat, h: Seq<u8>, rest: Seq<u8>)
    requires
        moved_at(m0, m1, level, h),
    ensures
        level_of(m0, fresh(m0, m1) + rest, level) == prepend(h, level_of(m1, rest, level)),
        skip(prepend(h, level_of(m1, rest, level)), h.len()) == level_of(m1, rest, level),
{
    let w = level_of(m1, rest, level);
    assert((h + w.bytes).skip(h.len() as int) =~= w.bytes);
}

/// Four bytes make a number below `2^32`.
pub proof fn lemma_le_bound(b: Seq<u8>)
    requires
        b.len() == 4,
    ensures
        from_le_bytes(b) < 0x1_0000_0000,
{
    let b1 = b.drop_first();
    let b2 = b1.drop_first();
    let b3 = b2.drop_first();
    let b4 = b3.drop_first();
    assert(b4.len() == 0);
    assert(from_le_bytes(b3) == b3[0] + 256 * from_le_bytes(b4));
    assert(from_le_bytes(b2) == b2[0] + 256 * from_le_bytes(b3));
    assert(from_le_bytes(b1) == b1[0] + 256 * from_le_bytes(b2));
    assert(from_le_bytes(b) == b[0] + 256 * from_le_bytes(b1));
}

/// One read after another is one read of both.
pub proof fn lemma_took_compose(v0: DeView, v1: DeView, v2: DeView, a: Seq<u8>, b: Seq<u8>)
    requires
        took(v0, v1, a),
        took(v1, v2, b),
    ensures
        took(v0, v2, a + b),
{
    lemma_moved_compose(v0.input, v1.input, v2.input, top(v0), a, b);
}

/// A read and then an error is an error.
pub proof fn lemma_errored_after(v0: DeView, v1: DeView, v2: DeView, t: Seq<u8>, e: Error)
    requires
        took(v0, v1, t),
        errored(v1, v2, e),
    ensures
        errored(v0, v2, e),
{
    lemma_fresh_compose(v0.input, v1.input, v2.input);
}

/// What was ahead is what was read, then what is ahead now.
pub proof fn lemma_took_then(v0: DeView, v1: DeView, v2: DeView, t: Seq<u8>, rest: Seq<u8>)
    requires
        moved_at(v0.input, v1.input, top(v0), t),
        log_grew(v1.input, v2.input),
    ensures
        log_grew(v0.input, v2.input),
        top(v1) == top(v0) ==> ahead(v0, v2, rest) == prepend(t, ahead(v1, v2, rest)),
{
    lemma_moved_then_failed(v0.input, v1.input, v2.input, top(v0), t, rest);
}

/// Whether `b` is the encoding of one character, read to the end of its
/// block: a leading byte and as many bytes as it announces.
pub open spec fn char_bytes_ok(b: Seq<u8>) -> bool {
    &&& b.len() >= 1
    &&& lead_following(b[0]) == Some((b.len() - 1) as usize)
    &&& valid_utf8(b)
    &&& decode_utf8(b).len() > 0
}

/// Going from `v0` to `v1` read the encoding `b` of a character.
pub open spec fn took_char(v0: DeView, v1: DeView, b: Seq<u8>) -> bool {
    if v0.owns_block {
        took(cleared(v0), v1, b) && char_bytes_ok(b)
    } else {
        took_prefixed(v0, v1, b) && valid_utf8(b) && decode_utf8(b).len() > 0
    }
}

/// Whether a stream begins with the encoding of a character.
pub open spec fn char_ok(owns: bool, s: Stream) -> bool {
    if owns {
        &&& s.bytes.len() >= 1
        &&& match lead_following(s.bytes[0]) {
            Some(k) => s.bytes.len() >= 1 + k && valid_utf8(s.bytes.take(1 + k)) && decode_utf8(
                s.bytes.take(1 + k),
            ).len() > 0,
            None => false,
        }
    } else {
        match varint_parse(s.bytes, VARINT_MAX_U64 as nat, MAX_LAST_U64 as nat) {
            VarintParse::Value(n, k) => n <= usize::MAX && has_after(s, k, n) && valid_utf8(
                s.bytes.subrange(k as int, (k + n) as int),
            ) && decode_utf8(s.bytes.subrange(k as int, (k + n) as int)).len() > 0,
            _ => false,
        }
    }
}

/// The name and block flag that the bytes `b` of an identifier encode.
pub open spec fn ident_dec(b: Seq<u8>) -> Option<(Seq<u8>, bool)> {
    if b.len() == 0 {
        None
    } else {
        let block = b[0] >= 128;
        let id = (b[0] % 128) as nat;
        if id >= ID_LEN_NAME {
            if id - ID_LEN_NAME < ID_COUNT && b.len() == 1 {
                Some((ident_name((id - ID_LEN_NAME) as nat), block))
            } else {
                None
            }
        } else if id == ID_LEN {
            match varint_parse(b.drop_first(), VARINT_MAX_U64 as nat, MAX_LAST_U64 as nat) {
                VarintParse::Value(n, k) => if n <= usize::MAX && b.len() == 1 + k + n && valid_utf8(
                    b.subrange((1 + k) as int, b.len() as int),
                ) {
                    Some((b.subrange((1 + k) as int, b.len() as int), block))
                } else {
                    None
                },
                _ => None,
            }
        } else if b.len() == 1 + id && valid_utf8(b.drop_first()) {
            Some((b.drop_first(), block))
        } else {
            None
        }
    }
}

/// Whether a stream begins with an identifier.
pub open spec fn ident_ok(s: Stream) -> bool {
    &&& s.bytes.len() >= 1
    &&& {
        let id = (s.bytes[0] % 128) as nat;
        if id >= ID_LEN_NAME {
            id - ID_LEN_NAME < ID_COUNT
        } else if id == ID_LEN {
            match varint_parse(s.bytes.drop_first(), VARINT_MAX_U64 as nat, MAX_LAST_U64 as nat) {
                VarintParse::Value(n, k) => n <= usize::MAX && has_after(s, 1 + k, n) && valid_utf8(
                    s.bytes.subrange((1 + k) as int, (1 + k + n) as int),
                ),
                _ => false,
            }
        } else {
            has_after(s, 1, id) && valid_utf8(s.bytes.subrange(1, (1 + id) as int))
        }
    }
}

/// The block bit and the rest of an identifier byte.
proof fn lemma_ident_byte(first: u8)
    ensures
        (first & ID_BLOCK != 0) == (first >= 128),
        first & 0x7f == first % 128,
{
    assert((first & 0x80u8 != 0) == (first >= 128)) by (bit_vector);
    assert(first & 0x7fu8 == first % 128) by (bit_vector);
}

/// The shape of the bytes of a name read after an identifier byte `first`
/// below [`ID_LEN_NAME`]: the varint `h` of its length where there is one,
/// and the name.
pub open spec fn ident_name_shape(first: u8, h: Seq<u8>, len: nat) -> bool {
    let id = (first % 128) as nat;
    &&& id < ID_LEN_NAME
    &&& id == ID_LEN ==> varint_parse(h, VARINT_MAX_U64 as nat, MAX_LAST_U64 as nat)
        == VarintParse::Value(len, h.len()) && len <= usize::MAX
    &&& id != ID_LEN ==> h.len() == 0 && len == id
}

/// A name whose bytes could not all be read: no identifier was there.
proof fn lemma_ident_name_missing(
    v1: DeView,
    vk: DeView,
    vf: DeView,
    first: u8,
    h: Seq<u8>,
    len: nat,
    e: Error,
)
    requires
        took(v1, vk, h),
        ident_name_shape(first, h, len),
        failed_at(vk.input, vf.input, top(vk), len, e),
    ensures
        forall|rest: Seq<u8>|
            #![trigger ahead(v1, vf, rest)]
            !ident_ok(prepend(seq![first], ahead(v1, vf, rest))),
{
    assert forall|rest: Seq<u8>| #[trigger]
        ahead(v1, vf, rest) == ahead(v1, vf, rest) implies !ident_ok(
        prepend(seq![first], ahead(v1, vf, rest)),
    ) by {
        lemma_took_then(v1, vk, vf, h, rest);
        let w = ahead(vk, vf, rest);
        assert(!read_succeeds(w, len));
        assert((seq![first] + (h + w.bytes))[0] == first);
        assert((seq![first] + (h + w.bytes)).drop_first() =~= h + w.bytes);
        lemma_varint_parse_prefix(h, w.bytes, VARINT_MAX_U64 as nat, MAX_LAST_U64 as nat);
        assert(skip(prepend(seq![first], prepend(h, w)), 1 + h.len()) == w) by {
            assert((seq![first] + (h + w.bytes)).skip((1 + h.len()) as int) =~= w.bytes);
        }
    }
}

/// A name read in full is what the identifier decodes to.
proof fn lemma_ident_name_read(first: u8, h: Seq<u8>, bb: Seq<u8>)
    requires
        ident_name_shape(first, h, bb.len()),
        valid_utf8(bb),
    ensures
        ident_dec(seq![first] + h + bb) == Some((bb, first >= 128)),
{
    let b = seq![first] + h + bb;
    assert(b[0] == first);
    assert(b.drop_first() =~= h + bb);
    lemma_varint_parse_prefix(h, bb, VARINT_MAX_U64 as nat, MAX_LAST_U64 as nat);
    assert(b.subrange((1 + h.len()) as int, b.len() as int) =~= bb);
}

/// A name that is no UTF-8: no identifier was there.
proof fn lemma_ident_name_bad(v1: DeView, vf: DeView, first: u8, h: Seq<u8>, bb: Seq<u8>)
    requires
        took(v1, vf, h + bb),
        ident_name_shape(first, h, bb.len()),
        !valid_utf8(bb),
    ensures
        forall|rest: Seq<u8>|
            #![trigger ahead(v1, vf, rest)]
            !ident_ok(prepend(seq![first], ahead(v1, vf, rest))),
{
    assert forall|rest: Seq<u8>| #[trigger]
        ahead(v1, vf, rest) == ahead(v1, vf, rest) implies !ident_ok(
        prepend(seq![first], ahead(v1, vf, rest)),
    ) by {
        lemma_front(v1.input, vf.input, top(v1), h + bb, rest);
        let w = level_of(vf.input, rest, top(v1));
        let t = seq![first] + (h + bb + w.bytes);
        assert(t[0] == first);
        assert(t.drop_first() =~= h + (bb + w.bytes));
        lemma_varint_parse_prefix(h, bb + w.bytes, VARINT_MAX_U64 as nat, MAX_LAST_U64 as nat);
        assert(t.subrange((1 + h.len()) as int, (1 + h.len() + bb.len()) as int) =~= bb);
    }
}

/// What reading whether another element of a sequence of unstated length
/// follows gives, going from `v0` to `v1`: in the format of version 0.4,
/// whether its block has more; otherwise the byte [`MORE`] or [`NO_MORE`].
pub open spec fn announced(v0: DeView, v1: DeView, res: Result<bool, Error>) -> bool {
    &&& res matches Err(e) ==> read_error(e) || e is BadLen
    &&& res matches Err(e) ==> errored(v0, v1, e)
    &&& v0.version == Version::Postbag0_4 ==> (res matches Ok(x) ==> took(v0, v1, Seq::empty())
        && forall|rest: Seq<u8>|
        #![trigger level_of(v1.input, rest, top(v0))]
        x == !exhausted(level_of(v1.input, rest, top(v0))))
    &&& v0.version == Version::Postbag0_4 ==> (res matches Err(e) ==> !from_source(e) ==> forall|
        rest: Seq<u8>,
    |
        #![trigger ahead(v0, v1, rest)]
        !read_succeeds(ahead(v0, v1, rest), 0))
    &&& v0.version != Version::Postbag0_4 ==> (res matches Ok(x) ==> took(
        v0,
        v1,
        seq![if x { MORE } else { NO_MORE }],
    ))
    &&& v0.version != Version::Postbag0_4 ==> (res matches Err(e) ==> !from_source(e) ==> forall|
        rest: Seq<u8>,
    |
        #![trigger ahead(v0, v1, rest)]
        !byte_ok(ahead(v0, v1, rest), |b: u8| b == MORE || b == NO_MORE))
    &&& v0.version != Version::Postbag0_4 ==> (res matches Err(e) ==> !from_source(e) ==> byte_failed(
        v0,
        v1,
        e,
        Error::BadLen,
    ))
}

/// The state with a block opened in state `f`.
pub open spec fn with_block(v: DeView, f: Frame) -> DeView {
    DeView { input: Model { frames: v.input.frames.push(f), log: v.input.log }, ..v }
}

/// A block whose first chunk length is still to be read.
pub open spec fn new_block() -> Frame {
    Frame { remaining: 0, has_next: true }
}

/// A block that holds nothing.
pub open spec fn empty_block() -> Frame {
    Frame { remaining: 0, has_next: false }
}

/// Going from `v0` to `v1` closed the innermost block, skipping what was
/// left of it, and changed nothing else.
pub open spec fn closed_block(v0: DeView, v1: DeView) -> bool {
    &&& crate::skip_read::closed_top(v0.input, v1.input)
    &&& v1.failed == v0.failed
    &&& same_state(v0, v1)
}

/// Going from `v0` to `v1` failed with `e` to close the innermost block:
/// what it holds does not end cleanly, or, with `UsizeOverflow`, more chunks
/// were skipped than a 64-bit count holds.
pub open spec fn close_failed(v0: DeView, v1: DeView, e: Error) -> bool {
    &&& read_error(e) || e is UsizeOverflow
    &&& errored(v0, v1, e)
    &&& !from_source(e) ==> ((e is UsizeOverflow && fresh(v0.input, v1.input).len() >= u64::MAX)
        || closing_failed(v0.input, v1.input, top(v0), e))
}

/// The length of a sequence or map that the bytes `h` state: `None` where
/// they say that it was not known.
pub open spec fn len_dec(h: Seq<u8>) -> Option<Option<usize>> {
    match varint_parse(h, VARINT_MAX_U64 as nat, MAX_LAST_U64 as nat) {
        VarintParse::Value(v, k) => if v > usize::MAX {
            None
        } else if v != SPECIAL_LEN {
            if k == h.len() {
                Some(Some(v as usize))
            } else {
                None
            }
        } else {
            match varint_parse(h.skip(k as int), VARINT_MAX_U64 as nat, MAX_LAST_U64 as nat) {
                VarintParse::Value(w, k2) => if k + k2 != h.len() {
                    None
                } else if w == SPECIAL_LEN {
                    Some(Some(SPECIAL_LEN))
                } else if w == UNKNOWN_LEN {
                    Some(None)
                } else {
                    None
                },
                _ => None,
            }
        },
        _ => None,
    }
}

/// Whether a stream begins with the length of a sequence or map.
pub open spec fn len_ok(s: Stream) -> bool {
    match varint_parse(s.bytes, VARINT_MAX_U64 as nat, MAX_LAST_U64 as nat) {
        VarintParse::Value(v, k) => v <= usize::MAX && (v == SPECIAL_LEN ==> match varint_parse(
            s.bytes.skip(k as int),
            VARINT_MAX_U64 as nat,
            MAX_LAST_U64 as nat,
        ) {
            VarintParse::Value(w, _) => w == SPECIAL_LEN || w == UNKNOWN_LEN,
            _ => false,
        }),
        _ => false,
    }
}

/// The second varint of a length, read after the first.
proof fn lemma_len_second(h1: Seq<u8>, t: Seq<u8>)
    requires
        varint_parse(h1, VARINT_MAX_U64 as nat, MAX_LAST_U64 as nat) == VarintParse::Value(
            SPECIAL_LEN as nat,
            h1.len(),
        ),
    ensures
        varint_parse(h1 + t, VARINT_MAX_U64 as nat, MAX_LAST_U64 as nat) == VarintParse::Value(
            SPECIAL_LEN as nat,
            h1.len(),
        ),
        (h1 + t).skip(h1.len() as int) == t,
{
    lemma_varint_parse_prefix(h1, t, VARINT_MAX_U64 as nat, MAX_LAST_U64 as nat);
    assert((h1 + t).skip(h1.len() as int) =~= t);
}

/// The UTF-8 names of the fields.
pub open spec fn field_names(fields: Seq<String>) -> Seq<Seq<u8>> {
    fields.map_values(|f: String| encode_utf8(f@))
}

/// Where among `fields` the field named `name` goes: the last position
/// with that name.
pub open spec fn field_slot(fields: Seq<Seq<u8>>, name: Seq<u8>) -> Option<nat>
    decreases fields.len(),
{
    if fields.len() == 0 {
        None
    } else if fields.last() == name {
        Some((fields.len() - 1) as nat)
    } else {
        field_slot(fields.drop_last(), name)
    }
}

/// The values of the fields named `names`, read in this order as `raws`,
/// put in the positions of `fields`: the last value read for each, and
/// `None` for one not read. Values of fields not among `fields` are
/// dropped.
pub open spec fn placed(fields: Seq<Seq<u8>>, names: Seq<Seq<u8>>, raws: Seq<Seq<u8>>) -> Seq<
    Option<Seq<u8>>,
>
    decreases names.len(),
{
    if names.len() == 0 || raws.len() == 0 {
        Seq::new(fields.len(), |i: int| None)
    } else {
        let p = placed(fields, names.drop_last(), raws.drop_last());
        match field_slot(fields, names.last()) {
            Some(k) => p.update(k as int, Some(raws.last())),
            None => p,
        }
    }
}

/// A slot found is a position of a field of that name.
proof fn lemma_field_slot(fields: Seq<Seq<u8>>, name: Seq<u8>)
    ensures
        field_slot(fields, name) matches Some(k) ==> k < fields.len() && fields[k as int] == name,
    decreases fields.len(),
{
    if fields.len() > 0 && fields.last() != name {
        lemma_field_slot(fields.drop_last(), name);
    }
}

/// Placing keeps one slot per field.
proof fn lemma_placed_len(fields: Seq<Seq<u8>>, names: Seq<Seq<u8>>, raws: Seq<Seq<u8>>)
    ensures
        placed(fields, names, raws).len() == fields.len(),
    decreases names.len(),
{
    if names.len() > 0 && raws.len() > 0 {
        lemma_placed_len(fields, names.drop_last(), raws.drop_last());
        lemma_field_slot(fields, names.last());
    }
}

/// The value read last under the name `name`, among the fields named
/// `names` with the values `raws`, if any was.
pub open spec fn last_read(names: Seq<Seq<u8>>, raws: Seq<Seq<u8>>, name: Seq<u8>) -> Option<Seq<u8>>
    decreases names.len(),
{
    if names.len() == 0 || raws.len() == 0 {
        None
    } else if names.last() == name {
        Some(raws.last())
    } else {
        last_read(names.drop_last(), raws.drop_last(), name)
    }
}

/// Whatever order the fields came in, each declared field gets the value
/// read last under its name, and none where no value came under it; values
/// under names not declared go nowhere.
pub proof fn fields_placed_by_name(fields: Seq<Seq<u8>>, names: Seq<Seq<u8>>, raws: Seq<Seq<u8>>, k: int)
    requires
        0 <= k < fields.len(),
        field_slot(fields, fields[k]) == Some(k as nat),
    ensures
        placed(fields, names, raws)[k] == last_read(names, raws, fields[k]),
    decreases names.len(),
{
    lemma_placed_len(fields, names, raws);
    if names.len() > 0 && raws.len() > 0 {
        fields_placed_by_name(fields, names.drop_last(), raws.drop_last(), k);
        lemma_placed_len(fields, names.drop_last(), raws.drop_last());
        lemma_field_slot(fields, names.last());
    }
}

/// A read going from `v0` to `v1` found nothing ahead and failed with `e`,
/// the error the innermost block ends in there.
pub open spec fn ended(v0: DeView, v1: DeView, e: Error) -> bool {
    forall|rest: Seq<u8>|
        #![trigger ahead(v0, v1, rest)]
        ahead(v0, v1, rest).bytes.len() == 0 && fail_is(fail_of(ahead(v0, v1, rest).end), e)
}

/// A read of one byte going from `v0` to `v1` failed with `e`: where a byte
/// lay ahead, it was refused with `bad`; where none did, `e` is the error the
/// innermost block ends in there.
pub open spec fn byte_failed(v0: DeView, v1: DeView, e: Error, bad: Error) -> bool {
    forall|rest: Seq<u8>|
        #![trigger ahead(v0, v1, rest)]
        if ahead(v0, v1, rest).bytes.len() >= 1 {
            e == bad
        } else {
            fail_is(fail_of(ahead(v0, v1, rest).end), e)
        }
}

/// A varint read going from `v0` to `v1` failed with `e`: what lay ahead is
/// no varint of the shape, and `e` says why.
pub open spec fn varint_read_failed(v0: DeView, v1: DeView, max_len: nat, max_last: nat, e: Error) -> bool {
    varint_failed(v0.input, v1.input, top(v0), max_len, max_last, e)
}

/// Whether an identifier byte is a code that names no identifier.
pub open spec fn reserved_ident(b: u8) -> bool {
    (b % 128) as nat >= ID_LEN_NAME && (b % 128) as nat - ID_LEN_NAME >= ID_COUNT
}

/// A read going from `v0` to `v1` that failed with `e` where a reserved
/// identifier code lay ahead failed with `BadIdentifier`.
pub open spec fn reserved_refused(v0: DeView, v1: DeView, e: Error) -> bool {
    forall|rest: Seq<u8>|
        #![trigger ahead(v0, v1, rest)]
        ahead(v0, v1, rest).bytes.len() >= 1 && reserved_ident(ahead(v0, v1, rest).bytes[0])
            ==> e is BadIdentifier
}

/// `mid` begins with the identifier `b` naming the field `name`, then a
/// block holding `raw`, and goes on as `tail` after them.
pub open spec fn field_at(mid: Stream, b: Seq<u8>, after: Stream, name: Seq<u8>, raw: Seq<u8>, tail: Stream) -> bool {
    &&& mid == prepend(b, after)
    &&& ident_dec(b) matches Some((n, _)) && n == name
    &&& frame_content(after, Frame { remaining: 0, has_next: true }) == (
    Stream { bytes: raw, end: StreamEnd::Clean },
    Some(tail),
    )
}

/// The stream `s` begins with the fields named `names`, each an identifier
/// followed by a block holding the value of the same position in `raws`,
/// and goes on as `tail` after them.
pub open spec fn fields_then(s: Stream, names: Seq<Seq<u8>>, raws: Seq<Seq<u8>>, tail: Stream) -> bool
    decreases names.len(),
{
    if names.len() == 0 {
        raws.len() == 0 && s == tail
    } else {
        &&& raws.len() == names.len()
        &&& exists|mid: Stream, b: Seq<u8>, after: Stream|
            #[trigger] field_at(mid, b, after, names.last(), raws.last(), tail) && fields_then(
                s,
                names.drop_last(),
                raws.drop_last(),
                mid,
            )
    }
}

/// Reading a block from `m0`, at `level`, failed with `e` on the way to
/// `m1`: the block that lay there does not end as its framing says.
pub open spec fn block_failed(m0: Model, m1: Model, level: nat, e: Error) -> bool {
    forall|rest: Seq<u8>|
        #![trigger level_of(m0, fresh(m0, m1) + rest, level)]
        {
            let c = frame_content(
                level_of(m0, fresh(m0, m1) + rest, level),
                Frame { remaining: 0, has_next: true },
            ).0;
            !(c.end is Clean) && fail_is(fail_of(c.end), e)
        }
}

/// Reading the next field of a struct, going from `mk` to `v1`, failed with
/// `e`: making sure of the block's next chunk failed, or no identifier lay
/// ahead, or the block after a well-formed identifier `h` did not end as
/// its framing says.
pub open spec fn field_failed(mk: DeView, v1: DeView, e: Error) -> bool {
    ||| failed_at(mk.input, v1.input, top(mk), 0, e)
    ||| ident_failed(mk, v1, e)
    ||| exists|va: DeView, h: Seq<u8>|
        #[trigger] took(mk, va, h) && ident_dec(h) is Some && block_failed(va.input, v1.input, top(mk), e)
}

/// Going from `m0` to `m`, level `lvl` delivered the fields named `names`
/// with the values `raws`.
pub open spec fn fields_read(m0: Model, m: Model, lvl: nat, names: Seq<Seq<u8>>, raws: Seq<Seq<u8>>) -> bool {
    &&& extends(m0, m)
    &&& forall|rest: Seq<u8>|
        #![trigger level_of(m, rest, lvl)]
        fields_then(level_of(m0, fresh(m0, m) + rest, lvl), names, raws, level_of(m, rest, lvl))
}

/// Nothing read yet is no field read.
proof fn lemma_fields_none(m0: Model, lvl: nat)
    ensures
        fields_read(m0, m0, lvl, Seq::empty(), Seq::empty()),
{
    assert(m0.log.take(m0.log.len() as int) =~= m0.log);
    assert forall|rest: Seq<u8>| #[trigger] level_of(m0, rest, lvl) == level_of(m0, rest, lvl) implies fields_then(
        level_of(m0, fresh(m0, m0) + rest, lvl),
        Seq::empty(),
        Seq::empty(),
        level_of(m0, rest, lvl),
    ) by {
        assert(fresh(m0, m0) + rest =~= rest);
    }
}

/// A move that reads nothing keeps the fields read.
proof fn lemma_fields_idle(m0: Model, mi: Model, me: Model, lvl: nat, names: Seq<Seq<u8>>, raws: Seq<Seq<u8>>)
    requires
        fields_read(m0, mi, lvl, names, raws),
        moved_at(mi, me, lvl, Seq::empty()),
    ensures
        fields_read(m0, me, lvl, names, raws),
{
    lemma_fresh_compose(m0, mi, me);
    assert forall|rest: Seq<u8>| #[trigger] level_of(me, rest, lvl) == level_of(me, rest, lvl) implies fields_then(
        level_of(m0, fresh(m0, me) + rest, lvl),
        names,
        raws,
        level_of(me, rest, lvl),
    ) by {
        let ri = fresh(mi, me) + rest;
        assert(fresh(m0, me) + rest =~= fresh(m0, mi) + ri);
        assert(level_of(mi, ri, lvl) == prepend(Seq::empty(), level_of(me, rest, lvl)));
        assert(prepend(Seq::empty(), level_of(me, rest, lvl)).bytes =~= level_of(me, rest, lvl).bytes);
        assert(level_of(mi, ri, lvl) == level_of(me, rest, lvl));
    }
}

/// Reading an identifier and then a block adds a field to those read.
proof fn lemma_fields_step(
    m0: Model,
    mi: Model,
    ma: Model,
    mb: Model,
    lvl: nat,
    names: Seq<Seq<u8>>,
    raws: Seq<Seq<u8>>,
    b: Seq<u8>,
    name: Seq<u8>,
    raw: Seq<u8>,
)
    requires
        fields_read(m0, mi, lvl, names, raws),
        moved_at(mi, ma, lvl, b),
        ident_dec(b) matches Some((n, _)) && n == name,
        extends(ma, mb),
        forall|rest: Seq<u8>|
            #![trigger level_of(mb, rest, lvl)]
            frame_content(level_of(ma, fresh(ma, mb) + rest, lvl), Frame { remaining: 0, has_next: true })
                == (Stream { bytes: raw, end: StreamEnd::Clean }, Some(level_of(mb, rest, lvl))),
    ensures
        fields_read(m0, mb, lvl, names.push(name), raws.push(raw)),
{
    lemma_fresh_compose(mi, ma, mb);
    lemma_fresh_compose(m0, mi, mb);
    assert forall|rest: Seq<u8>| #[trigger] level_of(mb, rest, lvl) == level_of(mb, rest, lvl) implies fields_then(
        level_of(m0, fresh(m0, mb) + rest, lvl),
        names.push(name),
        raws.push(raw),
        level_of(mb, rest, lvl),
    ) by {
        let ra = fresh(ma, mb) + rest;
        let ri = fresh(mi, mb) + rest;
        assert(ri =~= fresh(mi, ma) + ra);
        assert(fresh(m0, mb) + rest =~= fresh(m0, mi) + ri);
        let mid = level_of(mi, ri, lvl);
        let after = level_of(ma, ra, lvl);
        let tail = level_of(mb, rest, lvl);
        assert(mid == prepend(b, after));
        assert(field_at(mid, b, after, name, raw, tail));
        assert(fields_then(level_of(m0, fresh(m0, mi) + ri, lvl), names, raws, mid));
        let ns = names.push(name);
        let rs = raws.push(raw);
        assert(ns.drop_last() =~= names);
        assert(rs.drop_last() =~= raws);
        assert(ns.last() == name);
        assert(rs.last() == raw);
        assert(field_at(mid, b, after, ns.last(), rs.last(), tail) && fields_then(
            level_of(m0, fresh(m0, mb) + rest, lvl),
            ns.drop_last(),
            rs.drop_last(),
            mid,
        ));
        assert(fields_then(level_of(m0, fresh(m0, mb) + rest, lvl), ns, rs, tail));
    }
}

/// The values of a struct's fields, read ahead of time and put in the order
/// the fields are declared in.
pub struct BufferedFieldSeqAccess {
    field_data: Vec<Option<Vec<u8>>>,
    index: usize,
    remaining_depth: usize,
    version: Version,
}

/// What a buffered struct holds.
pub struct BufferedView {
    /// The value of each field, or `None` for one not read or handed out.
    pub field_data: Seq<Option<Seq<u8>>>,
    /// The position of the next field to hand out.
    pub index: nat,
    /// How many more levels of nesting are allowed.
    pub remaining_depth: nat,
    /// The version of the data format read.
    pub version: Version,
}

impl View for BufferedFieldSeqAccess {
    type V = BufferedView;

    closed spec fn view(&self) -> BufferedView {
        BufferedView {
            field_data: self.field_data@.map_values(|o: Option<Vec<u8>>| match o {
                Some(v) => Some(v@),
                None => None,
            }),
            index: self.index as nat,
            remaining_depth: self.remaining_depth as nat,
            version: self.version,
        }
    }
}

/// Deserializer.
pub struct Deserializer<R, const WITH_IDENTS: bool> {
    input: SkipRead<R>,
    remaining_depth: usize,
    version: Version,
    owns_block: bool,
}

impl<R, const WITH_IDENTS: bool> View for Deserializer<R, WITH_IDENTS> {
    type V = DeView;

    closed spec fn view(&self) -> DeView {
        DeView {
            input: self.input.model(),
            failed: self.input.failed(),
            remaining_depth: self.remaining_depth as nat,
            version: self.version,
            owns_block: self.owns_block,
        }
    }
}

impl<R, const WITH_IDENTS: bool> Deserializer<R, WITH_IDENTS> {
    /// The reader the deserializer pulls from.
    pub closed spec fn source(&self) -> R {
        self.input.source()
    }
}

impl<R: ByteSource, const WITH_IDENTS: bool> Deserializer<R, WITH_IDENTS> {
    /// Obtain a Deserializer from a reader, using the specified configuration.
    pub fn new(read: R, cfg: Cfg<WITH_IDENTS>) -> (r: Self)
        ensures
            r@ == (DeView {
                input: Model { frames: Seq::empty(), log: Seq::empty() },
                failed: false,
                remaining_depth: cfg@.depth_limit as nat,
                version: cfg@.version,
                owns_block: false,
            }),
            r.source() == read,
    {
        Self::with_depth_limit(read, cfg.depth_limit(), cfg.version())
    }

    /// Obtain a Deserializer from a reader, using the specified nesting depth
    /// limit.
    fn with_depth_limit(read: R, depth_limit: usize, version: Version) -> (r: Self)
        ensures
            r@ == (DeView {
                input: Model { frames: Seq::empty(), log: Seq::empty() },
                failed: false,
                remaining_depth: depth_limit as nat,
                version,
                owns_block: false,
            }),
            r.source() == read,
    {
        Deserializer { input: SkipRead::new(read), remaining_depth: depth_limit, version, owns_block: false }
    }

    /// Obtain a Deserializer over the bytes of exactly one field value.
    ///
    /// The value fills them, so it may have left out a length of its own; the
    /// bytes are treated as an open block so that reading to the end of the
    /// value stays bounded by them.
    pub fn for_field_value(read: R, len: usize, depth_limit: usize, version: Version) -> (r: Self)
        ensures
            r@ == (DeView {
                input: Model {
                    frames: seq![Frame { remaining: len, has_next: false }],
                    log: Seq::empty(),
                },
                failed: false,
                remaining_depth: depth_limit as nat,
                version,
                owns_block: WITH_IDENTS && version != Version::Postbag0_4,
            }),
            r.source() == read,
    {
        Deserializer {
            input: SkipRead::new_value(read, len),
            remaining_depth: depth_limit,
            version,
            owns_block: WITH_IDENTS && !version.is_0_4(),
        }
    }

    /// Returns the reader.
    pub fn finalize(self) -> (r: R)
        ensures
            r == self.source(),
    {
        self.input.into_inner()
    }

    /// Enters a nested value, returning the depth allowance to go back to.
    ///
    /// Fails with [`Error::RecursionLimit`] when the configured depth limit
    /// would be exceeded. This bounds the stack used for deeply nested
    /// input. `owns_block` states whether the nested value reaches the end
    /// of the enclosing block; it must be passed exactly where the
    /// serializer passes it.
    pub fn enter(&mut self, owns_block: bool) -> (res: Result<usize, Error>)
        ensures
            old(self)@.remaining_depth == 0 ==> final(self)@ == old(self)@,
            old(self)@.remaining_depth == 0 ==> res matches Err(Error::RecursionLimit),
            old(self)@.remaining_depth > 0 ==> res == Ok::<usize, Error>(
                old(self)@.remaining_depth as usize,
            ) && final(self)@ == (DeView {
                remaining_depth: (old(self)@.remaining_depth - 1) as nat,
                owns_block,
                ..old(self)@
            }),
    {
        if self.remaining_depth == 0 {
            return Err(Error::RecursionLimit);
        }
        let saved = self.remaining_depth;
        self.remaining_depth = saved - 1;
        self.owns_block = owns_block;
        Ok(saved)
    }

    /// Leaves a nested value, going back to the depth allowance `saved`.
    pub fn exit(&mut self, saved: usize)
        ensures
            final(self)@ == (DeView { remaining_depth: saved as nat, ..old(self)@ }),
    {
        self.remaining_depth = saved;
    }

    /// The version of the data format being read.
    pub fn version(&self) -> (r: Version)
        ensures
            r == self@.version,
    {
        self.version
    }

    /// Whether the value being read reaches the end of its block, so that it
    /// did not state its own length. Clears the flag.
    fn takes_block(&mut self) -> (r: bool)
        ensures
            r == old(self)@.owns_block,
            final(self)@ == cleared(old(self)@),
    {
        let r = self.owns_block;
        self.owns_block = false;
        r
    }

    /// Whether a field value left out its own length.
    fn field_owns_block(&self) -> (r: bool)
        ensures
            r == (WITH_IDENTS && self@.version != Version::Postbag0_4),
    {
        WITH_IDENTS && !self.version.is_0_4()
    }

    /// Whether the tag of an enum variant carries the flag stating whether a
    /// block holding its payload follows.
    fn variant_is_tagged(&self, owns_block: bool) -> (r: bool)
        ensures
            r == (WITH_IDENTS && self@.version != Version::Postbag0_4 && !owns_block),
    {
        self.field_owns_block() && !owns_block
    }

    /// Reads one byte.
    fn next_byte(&mut self) -> (res: Result<u8, Error>)
        ensures
            res matches Err(e) ==> read_error(e),
            res matches Ok(b) ==> took(old(self)@, final(self)@, seq![b]),
            res matches Err(e) ==> errored(old(self)@, final(self)@, e) && (!from_source(e)
                ==> forall|rest: Seq<u8>|
                #![trigger ahead(old(self)@, final(self)@, rest)]
                ahead(old(self)@, final(self)@, rest).bytes.len() == 0),
            res matches Err(e) ==> !from_source(e) ==> ended(old(self)@, final(self)@, e),
    {
        let res = self.input.read_u8();
        proof {
            if res is Err {
                let e = res->Err_0;
                if !from_source(e) {
                    let m0 = old(self)@.input;
                    let m1 = self@.input;
                    assert forall|rest: Seq<u8>| #[trigger]
                        ahead(old(self)@, self@, rest) == ahead(old(self)@, self@, rest) implies ahead(
                        old(self)@,
                        self@,
                        rest,
                    ).bytes.len() == 0 && fail_is(fail_of(ahead(old(self)@, self@, rest).end), e) by {
                        assert(!read_succeeds(level_of(m0, fresh(m0, m1) + rest, m0.frames.len()), 1));
                    }
                }
            }
        }
        res
    }

    /// Reads a varint of at most `max_len` bytes.
    fn next_varint(&mut self, max_len: usize, max_last: u8) -> (res: Result<u128, Error>)
        requires
            1 <= max_len <= 19,
            max_last < 128,
            crate::varint::varint_bound(max_len as nat, max_last as nat)
                <= 0x1_0000_0000_0000_0000_0000_0000_0000_0000,
        ensures
            res matches Err(e) ==> read_error(e),
            res matches Ok(u) ==> took_varint(
                old(self)@,
                final(self)@,
                max_len as nat,
                max_last as nat,
                u as nat,
            ),
            res matches Ok(u) ==> u < crate::varint::varint_bound(max_len as nat, max_last as nat),
            res matches Err(e) ==> errored(old(self)@, final(self)@, e) && (!from_source(e)
                ==> forall|rest: Seq<u8>|
                #![trigger ahead(old(self)@, final(self)@, rest)]
                !varint_ok(ahead(old(self)@, final(self)@, rest), max_len as nat, max_last as nat)),
            res matches Err(e) ==> !from_source(e) ==> varint_read_failed(
                old(self)@,
                final(self)@,
                max_len as nat,
                max_last as nat,
                e,
            ),
    {
        let res = self.input.read_varint(max_len, max_last);
        proof {
            let v0 = old(self)@;
            let v1 = self@;
            if res is Ok {
                {
                    let u = res->Ok_0;
                    let h = choose|h: Seq<u8>|
                        #[trigger] moved_at(v0.input, v1.input, v0.input.frames.len(), h)
                            && varint_parse(h, max_len as nat, max_last as nat)
                            == VarintParse::Value(u as nat, h.len());
                    assert(took(v0, v1, h));
                    lemma_varint_parse_bound(h, max_len as nat, max_last as nat);
                }
            } else {
                {
                    let e = res->Err_0;
                    if !from_source(e) {
                        assert forall|rest: Seq<u8>| #[trigger]
                            ahead(v0, v1, rest) == ahead(v0, v1, rest) implies !varint_ok(
                            ahead(v0, v1, rest),
                            max_len as nat,
                            max_last as nat,
                        ) by {
                            assert(varint_failed(
                                v0.input,
                                v1.input,
                                v0.input.frames.len(),
                                max_len as nat,
                                max_last as nat,
                                e,
                            ));
                        }
                    }
                }
            }
        }
        res
    }

    /// Reads a 16-bit varint.
    pub fn read_varint_u16(&mut self) -> (res: Result<u16, Error>)
        ensures
            res matches Err(e) ==> read_error(e),
            res matches Ok(u) ==> took_varint(
                old(self)@,
                final(self)@,
                VARINT_MAX_U16 as nat,
                MAX_LAST_U16 as nat,
                u as nat,
            ),
            res matches Err(e) ==> errored(old(self)@, final(self)@, e) && (!from_source(e)
                ==> forall|rest: Seq<u8>|
                #![trigger ahead(old(self)@, final(self)@, rest)]
                !varint_ok(
                    ahead(old(self)@, final(self)@, rest),
                    VARINT_MAX_U16 as nat,
                    MAX_LAST_U16 as nat,
                )),
            res matches Err(e) ==> !from_source(e) ==> varint_read_failed(
                old(self)@,
                final(self)@,
                VARINT_MAX_U16 as nat,
                MAX_LAST_U16 as nat,
                e,
            ),
    {
        proof {
            lemma_varint_bounds();
        }
        match self.next_varint(VARINT_MAX_U16, MAX_LAST_U16) {
            Ok(u) => Ok(u as u16),
            Err(e) => Err(e),
        }
    }

    /// Reads a 32-bit varint.
    pub fn read_varint_u32(&mut self) -> (res: Result<u32, Error>)
        ensures
            res matches Err(e) ==> read_error(e),
            res matches Ok(u) ==> took_varint(
                old(self)@,
                final(self)@,
                VARINT_MAX_U32 as nat,
                MAX_LAST_U32 as nat,
                u as nat,
            ),
            res matches Err(e) ==> errored(old(self)@, final(self)@, e) && (!from_source(e)
                ==> forall|rest: Seq<u8>|
                #![trigger ahead(old(self)@, final(self)@, rest)]
                !varint_ok(
                    ahead(old(self)@, final(self)@, rest),
                    VARINT_MAX_U32 as nat,
                    MAX_LAST_U32 as nat,
                )),
            res matches Err(e) ==> !from_source(e) ==> varint_read_failed(
                old(self)@,
                final(self)@,
                VARINT_MAX_U32 as nat,
                MAX_LAST_U32 as nat,
                e,
            ),
    {
        proof {
            lemma_varint_bounds();
        }
        match self.next_varint(VARINT_MAX_U32, MAX_LAST_U32) {
            Ok(u) => Ok(u as u32),
            Err(e) => Err(e),
        }
    }

    /// Reads a 64-bit varint.
    pub fn read_varint_u64(&mut self) -> (res: Result<u64, Error>)
        ensures
            res matches Err(e) ==> read_error(e),
            res matches Ok(u) ==> took_varint(
                old(self)@,
                final(self)@,
                VARINT_MAX_U64 as nat,
                MAX_LAST_U64 as nat,
                u as nat,
            ),
            res matches Err(e) ==> errored(old(self)@, final(self)@, e) && (!from_source(e)
                ==> forall|rest: Seq<u8>|
                #![trigger ahead(old(self)@, final(self)@, rest)]
                !varint_ok(
                    ahead(old(self)@, final(self)@, rest),
                    VARINT_MAX_U64 as nat,
                    MAX_LAST_U64 as nat,
                )),
            res matches Err(e) ==> !from_source(e) ==> varint_read_failed(
                old(self)@,
                final(self)@,
                VARINT_MAX_U64 as nat,
                MAX_LAST_U64 as nat,
                e,
            ),
    {
        proof {
            lemma_varint_bounds();
        }
        match self.next_varint(VARINT_MAX_U64, MAX_LAST_U64) {
            Ok(u) => Ok(u as u64),
            Err(e) => Err(e),
        }
    }

    /// Reads a 128-bit varint.
    pub fn read_varint_u128(&mut self) -> (res: Result<u128, Error>)
        ensures
            res matches Err(e) ==> read_error(e),
            res matches Ok(u) ==> took_varint(
                old(self)@,
                final(self)@,
                VARINT_MAX_U128 as nat,
                MAX_LAST_U128 as nat,
                u as nat,
            ),
            res matches Err(e) ==> errored(old(self)@, final(self)@, e) && (!from_source(e)
                ==> forall|rest: Seq<u8>|
                #![trigger ahead(old(self)@, final(self)@, rest)]
                !varint_ok(
                    ahead(old(self)@, final(self)@, rest),
                    VARINT_MAX_U128 as nat,
                    MAX_LAST_U128 as nat,
                )),
            res matches Err(e) ==> !from_source(e) ==> varint_read_failed(
                old(self)@,
                final(self)@,
                VARINT_MAX_U128 as nat,
                MAX_LAST_U128 as nat,
                e,
            ),
    {
        proof {
            lemma_varint_bounds();
        }
        self.next_varint(VARINT_MAX_U128, MAX_LAST_U128)
    }

    /// Reads a 64-bit varint that must fit in `usize`.
    pub fn read_varint_usize(&mut self) -> (res: Result<usize, Error>)
        ensures
            res matches Err(e) ==> read_error(e) || e is UsizeOverflow,
            res matches Ok(u) ==> took_varint(
                old(self)@,
                final(self)@,
                VARINT_MAX_U64 as nat,
                MAX_LAST_U64 as nat,
                u as nat,
            ),
            res matches Err(e) ==> errored(old(self)@, final(self)@, e) && (!from_source(e)
                ==> forall|rest: Seq<u8>|
                #![trigger ahead(old(self)@, final(self)@, rest)]
                !usize_ok(ahead(old(self)@, final(self)@, rest))),
            res matches Err(Error::UsizeOverflow) ==> exists|u: nat|
                u > usize::MAX && #[trigger] took_varint(
                    old(self)@,
                    final(self)@,
                    VARINT_MAX_U64 as nat,
                    MAX_LAST_U64 as nat,
                    u,
                ),
            res matches Err(e) ==> !from_source(e) && !(e is UsizeOverflow) ==> varint_read_failed(
                old(self)@,
                final(self)@,
                VARINT_MAX_U64 as nat,
                MAX_LAST_U64 as nat,
                e,
            ),
    {
        let value = self.read_varint_u64();
        match value {
            Ok(u) => {
                if u > usize::MAX as u64 {
                    proof {
                        let v0 = old(self)@;
                        let v1 = self@;
                        let h = choose|h: Seq<u8>|
                            #[trigger] took(v0, v1, h) && varint_parse(
                                h,
                                VARINT_MAX_U64 as nat,
                                MAX_LAST_U64 as nat,
                            ) == VarintParse::Value(u as nat, h.len());
                        assert forall|rest: Seq<u8>| #[trigger]
                            ahead(v0, v1, rest) == ahead(v0, v1, rest) implies !usize_ok(
                            ahead(v0, v1, rest),
                        ) by {
                            lemma_varint_front(
                                v0.input,
                                v1.input,
                                top(v0),
                                h,
                                VARINT_MAX_U64 as nat,
                                MAX_LAST_U64 as nat,
                                u as nat,
                                rest,
                            );
                        }
                        assert(took_varint(
                            v0,
                            v1,
                            VARINT_MAX_U64 as nat,
                            MAX_LAST_U64 as nat,
                            u as nat,
                        ));
                        assert(exists|x: nat|
                            x > usize::MAX && #[trigger] took_varint(
                                v0,
                                v1,
                                VARINT_MAX_U64 as nat,
                                MAX_LAST_U64 as nat,
                                x,
                            ));
                    }
                    Err(Error::UsizeOverflow)
                } else {
                    Ok(u as usize)
                }
            },
            Err(e) => {
                proof {
                    let v0 = old(self)@;
                    let v1 = self@;
                    if !from_source(e) {
                        assert forall|rest: Seq<u8>| #[trigger]
                            ahead(v0, v1, rest) == ahead(v0, v1, rest) implies !usize_ok(
                            ahead(v0, v1, rest),
                        ) by {
                            assert(!varint_ok(
                                ahead(v0, v1, rest),
                                VARINT_MAX_U64 as nat,
                                MAX_LAST_U64 as nat,
                            ));
                        }
                    }
                }
                Err(e)
            },
        }
    }

    /// Reads a boolean: the byte [`FALSE`] or [`TRUE`].
    pub fn deserialize_bool(&mut self) -> (res: Result<bool, Error>)
        ensures
            res matches Err(e) ==> read_error(e) || e is BadBool,
            res matches Ok(b) ==> took(
                old(self)@,
                final(self)@,
                seq![if b { TRUE } else { FALSE }],
            ),
            res matches Err(e) ==> errored(old(self)@, final(self)@, e) && (!from_source(e)
                ==> forall|rest: Seq<u8>|
                #![trigger ahead(old(self)@, final(self)@, rest)]
                !byte_ok(ahead(old(self)@, final(self)@, rest), |b: u8| b == FALSE || b == TRUE)),
            res matches Err(Error::BadBool) ==> exists|b: u8|
                b != FALSE && b != TRUE && #[trigger] took(old(self)@, final(self)@, seq![b]),
            res matches Err(e) ==> !from_source(e) ==> byte_failed(
                old(self)@,
                final(self)@,
                e,
                Error::BadBool,
            ),
    {
        let res = self.next_byte();
        match res {
            Ok(b) => {
                if b == FALSE {
                    Ok(false)
                } else if b == TRUE {
                    Ok(true)
                } else {
                    proof {
                        let v0 = old(self)@;
                        let v1 = self@;
                        assert forall|rest: Seq<u8>| #[trigger]
                            ahead(v0, v1, rest) == ahead(v0, v1, rest) implies !byte_ok(
                            ahead(v0, v1, rest),
                            |b: u8| b == FALSE || b == TRUE,
                        ) && ahead(v0, v1, rest).bytes.len() >= 1 by {
                            lemma_first_byte(v0.input, v1.input, top(v0), b, rest);
                        }
                        assert(took(v0, v1, seq![b]));
                    }
                    Err(Error::BadBool)
                }
            },
            Err(e) => Err(e),
        }
    }

    /// Reads an `i8` from its byte.
    pub fn deserialize_i8(&mut self) -> (res: Result<i8, Error>)
        ensures
            res matches Err(e) ==> read_error(e),
            res matches Ok(v) ==> took(old(self)@, final(self)@, seq![v as u8]),
            res matches Err(e) ==> errored(old(self)@, final(self)@, e) && (!from_source(e)
                ==> forall|rest: Seq<u8>|
                #![trigger ahead(old(self)@, final(self)@, rest)]
                ahead(old(self)@, final(self)@, rest).bytes.len() == 0),
            res matches Err(e) ==> !from_source(e) ==> ended(old(self)@, final(self)@, e),
    {
        match self.next_byte() {
            Ok(b) => {
                let v = b as i8;
                assert(v as u8 == b) by (bit_vector)
                    requires
                        v == b as i8,
                ;
                Ok(v)
            },
            Err(e) => Err(e),
        }
    }

    /// Reads a `u8` from its byte.
    pub fn deserialize_u8(&mut self) -> (res: Result<u8, Error>)
        ensures
            res matches Err(e) ==> read_error(e),
            res matches Ok(v) ==> took(old(self)@, final(self)@, seq![v]),
            res matches Err(e) ==> errored(old(self)@, final(self)@, e) && (!from_source(e)
                ==> forall|rest: Seq<u8>|
                #![trigger ahead(old(self)@, final(self)@, rest)]
                ahead(old(self)@, final(self)@, rest).bytes.len() == 0),
            res matches Err(e) ==> !from_source(e) ==> ended(old(self)@, final(self)@, e),
    {
        self.next_byte()
    }

    /// Reads an `i16`, zigzag encoded, from a varint.
    pub fn deserialize_i16(&mut self) -> (res: Result<i16, Error>)
        ensures
            res matches Err(e) ==> read_error(e),
            res matches Ok(v) ==> exists|u: nat|
                de_zig_zag(u) == v && #[trigger] took_varint(
                    old(self)@,
                    final(self)@,
                    VARINT_MAX_U16 as nat,
                    MAX_LAST_U16 as nat,
                    u,
                ),
            res matches Err(e) ==> errored(old(self)@, final(self)@, e) && (!from_source(e)
                ==> forall|rest: Seq<u8>|
                #![trigger ahead(old(self)@, final(self)@, rest)]
                !varint_ok(
                    ahead(old(self)@, final(self)@, rest),
                    VARINT_MAX_U16 as nat,
                    MAX_LAST_U16 as nat,
                )),
            res matches Err(e) ==> !from_source(e) ==> varint_read_failed(
                old(self)@,
                final(self)@,
                VARINT_MAX_U16 as nat,
                MAX_LAST_U16 as nat,
                e,
            ),
    {
        match self.read_varint_u16() {
            Ok(u) => Ok(de_zig_zag_i16(u)),
            Err(e) => Err(e),
        }
    }

    /// Reads an `i32`, zigzag encoded, from a varint.
    pub fn deserialize_i32(&mut self) -> (res: Result<i32, Error>)
        ensures
            res matches Err(e) ==> read_error(e),
            res matches Ok(v) ==> exists|u: nat|
                de_zig_zag(u) == v && #[trigger] took_varint(
                    old(self)@,
                    final(self)@,
                    VARINT_MAX_U32 as nat,
                    MAX_LAST_U32 as nat,
                    u,
                ),
            res matches Err(e) ==> errored(old(self)@, final(self)@, e) && (!from_source(e)
                ==> forall|rest: Seq<u8>|
                #![trigger ahead(old(self)@, final(self)@, rest)]
                !varint_ok(
                    ahead(old(self)@, final(self)@, rest),
                    VARINT_MAX_U32 as nat,
                    MAX_LAST_U32 as nat,
                )),
            res matches Err(e) ==> !from_source(e) ==> varint_read_failed(
                old(self)@,
                final(self)@,
                VARINT_MAX_U32 as nat,
                MAX_LAST_U32 as nat,
                e,
            ),
    {
        match self.read_varint_u32() {
            Ok(u) => Ok(de_zig_zag_i32(u)),
            Err(e) => Err(e),
        }
    }

    /// Reads an `i64`, zigzag encoded, from a varint.
    pub fn deserialize_i64(&mut self) -> (res: Result<i64, Error>)
        ensures
            res matches Err(e) ==> read_error(e),
            res matches Ok(v) ==> exists|u: nat|
                de_zig_zag(u) == v && #[trigger] took_varint(
                    old(self)@,
                    final(self)@,
                    VARINT_MAX_U64 as nat,
                    MAX_LAST_U64 as nat,
                    u,
                ),
            res matches Err(e) ==> errored(old(self)@, final(self)@, e) && (!from_source(e)
                ==> forall|rest: Seq<u8>|
                #![trigger ahead(old(self)@, final(self)@, rest)]
                !varint_ok(
                    ahead(old(self)@, final(self)@, rest),
                    VARINT_MAX_U64 as nat,
                    MAX_LAST_U64 as nat,
                )),
            res matches Err(e) ==> !from_source(e) ==> varint_read_failed(
                old(self)@,
                final(self)@,
                VARINT_MAX_U64 as nat,
                MAX_LAST_U64 as nat,
                e,
            ),
    {
        match self.read_varint_u64() {
            Ok(u) => Ok(de_zig_zag_i64(u)),
            Err(e) => Err(e),
        }
    }

    /// Reads an `i128`, zigzag encoded, from a varint.
    pub fn deserialize_i128(&mut self) -> (res: Result<i128, Error>)
        ensures
            res matches Err(e) ==> read_error(e),
            res matches Ok(v) ==> exists|u: nat|
                de_zig_zag(u) == v && #[trigger] took_varint(
                    old(self)@,
                    final(self)@,
                    VARINT_MAX_U128 as nat,
                    MAX_LAST_U128 as nat,
                    u,
                ),
            res matches Err(e) ==> errored(old(self)@, final(self)@, e) && (!from_source(e)
                ==> forall|rest: Seq<u8>|
                #![trigger ahead(old(self)@, final(self)@, rest)]
                !varint_ok(
                    ahead(old(self)@, final(self)@, rest),
                    VARINT_MAX_U128 as nat,
                    MAX_LAST_U128 as nat,
                )),
            res matches Err(e) ==> !from_source(e) ==> varint_read_failed(
                old(self)@,
                final(self)@,
                VARINT_MAX_U128 as nat,
                MAX_LAST_U128 as nat,
                e,
            ),
    {
        match self.read_varint_u128() {
            Ok(u) => Ok(de_zig_zag_i128(u)),
            Err(e) => Err(e),
        }
    }
    /// How many blocks are open.
    pub fn open_blocks(&self) -> (r: usize)
        ensures
            r == top(self@),
    {
        self.input.depth()
    }

    /// Whether the value about to be read reaches the end of its block.
    pub fn owns_block(&self) -> (r: bool)
        ensures
            r == self@.owns_block,
    {
        self.owns_block
    }

    /// Reads the bits of an `f32`, least significant byte first.
    pub fn deserialize_f32_bits(&mut self) -> (res: Result<u32, Error>)
        ensures
            res matches Err(e) ==> read_error(e),
            res matches Ok(x) ==> exists|b: Seq<u8>|
                #[trigger] took(old(self)@, final(self)@, b) && b.len() == 4 && x == from_le_bytes(b),
            res matches Err(e) ==> errored(old(self)@, final(self)@, e) && (!from_source(e)
                ==> forall|rest: Seq<u8>|
                #![trigger ahead(old(self)@, final(self)@, rest)]
                ahead(old(self)@, final(self)@, rest).bytes.len() < 4),
    {
        match self.read_exact(4) {
            Ok(b) => {
                let x = le_value(&b);
                proof {
                    crate::format::le_bytes_round_trip(0, 4);
                    lemma_le_bound(b@);
                    assert(took(old(self)@, self@, b@));
                }
                Ok(x as u32)
            },
            Err(e) => Err(e),
        }
    }

    /// Reads the bits of an `f64`, least significant byte first.
    pub fn deserialize_f64_bits(&mut self) -> (res: Result<u64, Error>)
        ensures
            res matches Err(e) ==> read_error(e),
            res matches Ok(x) ==> exists|b: Seq<u8>|
                #[trigger] took(old(self)@, final(self)@, b) && b.len() == 8 && x == from_le_bytes(b),
            res matches Err(e) ==> errored(old(self)@, final(self)@, e) && (!from_source(e)
                ==> forall|rest: Seq<u8>|
                #![trigger ahead(old(self)@, final(self)@, rest)]
                ahead(old(self)@, final(self)@, rest).bytes.len() < 8),
    {
        match self.read_exact(8) {
            Ok(b) => {
                let x = le_value(&b);
                proof {
                    assert(took(old(self)@, self@, b@));
                }
                Ok(x)
            },
            Err(e) => Err(e),
        }
    }

    /// Reads `n` bytes.
    fn read_exact(&mut self, n: usize) -> (res: Result<Vec<u8>, Error>)
        requires
            n > 0,
        ensures
            res matches Err(e) ==> read_error(e),
            res matches Ok(b) ==> b@.len() == n && took(old(self)@, final(self)@, b@),
            res matches Err(e) ==> errored(old(self)@, final(self)@, e) && (!from_source(e)
                ==> forall|rest: Seq<u8>|
                #![trigger ahead(old(self)@, final(self)@, rest)]
                !read_succeeds(ahead(old(self)@, final(self)@, rest), n as nat)),
    {
        self.input.read(n)
    }

    /// Reads the tag of an optional value. Returns `None` for an absent one
    /// and, for a present one, whether the value that follows reaches the end
    /// of the block: it does where the optional value did.
    pub fn deserialize_option(&mut self) -> (res: Result<Option<bool>, Error>)
        ensures
            res matches Err(e) ==> read_error(e) || e is BadOption,
            res matches Ok(None) ==> took(cleared(old(self)@), final(self)@, seq![NONE]),
            res matches Ok(Some(owns)) ==> owns == old(self)@.owns_block && took(
                cleared(old(self)@),
                final(self)@,
                seq![SOME],
            ),
            res matches Err(e) ==> errored(cleared(old(self)@), final(self)@, e) && (!from_source(
                e,
            ) ==> forall|rest: Seq<u8>|
                #![trigger ahead(old(self)@, final(self)@, rest)]
                !byte_ok(ahead(old(self)@, final(self)@, rest), |b: u8| b == NONE || b == SOME)),
            res matches Err(e) ==> !from_source(e) ==> byte_failed(
                old(self)@,
                final(self)@,
                e,
                Error::BadOption,
            ),
    {
        let owns_block = self.takes_block();
        let ghost v1 = self@;
        match self.next_byte() {
            Ok(b) => {
                if b == NONE {
                    Ok(None)
                } else if b == SOME {
                    Ok(Some(owns_block))
                } else {
                    proof {
                        let v2 = self@;
                        assert forall|rest: Seq<u8>| #[trigger]
                            ahead(old(self)@, v2, rest) == ahead(old(self)@, v2, rest) implies !byte_ok(
                            ahead(old(self)@, v2, rest),
                            |b: u8| b == NONE || b == SOME,
                        ) && ahead(old(self)@, v2, rest).bytes.len() >= 1 by {
                            lemma_first_byte(v1.input, v2.input, top(v1), b, rest);
                        }
                    }
                    Err(Error::BadOption)
                }
            },
            Err(e) => {
                proof {
                    let v2 = self@;
                    if !from_source(e) {
                        assert forall|rest: Seq<u8>| #[trigger]
                            ahead(old(self)@, v2, rest) == ahead(old(self)@, v2, rest) implies !byte_ok(
                            ahead(old(self)@, v2, rest),
                            |b: u8| b == NONE || b == SOME,
                        ) && ahead(old(self)@, v2, rest).bytes.len() == 0 && fail_is(
                            fail_of(ahead(old(self)@, v2, rest).end),
                            e,
                        ) by {
                            assert(ahead(v1, v2, rest).bytes.len() == 0);
                            assert(ahead(v1, v2, rest) == ahead(old(self)@, v2, rest));
                        }
                    }
                }
                Err(e)
            },
        }
    }

    /// Whether another element of a sequence or map whose length was not
    /// stated follows.
    ///
    /// In the format of version 0.4 no element is announced, and the elements
    /// run to the end of their block.
    pub fn has_uncounted_element(&mut self) -> (res: Result<bool, Error>)
        requires
            old(self)@.version == Version::Postbag0_4 ==> top(old(self)@) >= 1,
        ensures
            announced(old(self)@, final(self)@, res),
    {
        if self.version.is_0_4() {
            return match self.input.block_exhausted() {
                Ok(x) => Ok(!x),
                Err(e) => Err(e),
            };
        }
        match self.next_byte() {
            Ok(b) => {
                if b == NO_MORE {
                    Ok(false)
                } else if b == MORE {
                    Ok(true)
                } else {
                    proof {
                        let v0 = old(self)@;
                        let v1 = self@;
                        assert forall|rest: Seq<u8>| #[trigger]
                            ahead(v0, v1, rest) == ahead(v0, v1, rest) implies !byte_ok(
                            ahead(v0, v1, rest),
                            |b: u8| b == MORE || b == NO_MORE,
                        ) && ahead(v0, v1, rest).bytes.len() >= 1 by {
                            lemma_first_byte(v0.input, v1.input, top(v0), b, rest);
                        }
                    }
                    Err(Error::BadLen)
                }
            },
            Err(e) => Err(e),
        }
    }

    /// Reads a run of bytes that states its own length, or, when it reaches
    /// the end of its block, runs to that end.
    fn read_len_prefixed(&mut self) -> (res: Result<Vec<u8>, Error>)
        requires
            old(self)@.owns_block ==> top(old(self)@) >= 1,
        ensures
            res matches Err(e) ==> read_error(e) || e is UsizeOverflow,
            res matches Ok(b) ==> took_prefixed(old(self)@, final(self)@, b@),
            res matches Err(e) ==> errored(cleared(old(self)@), final(self)@, e) && (!from_source(
                e,
            ) ==> prefixed_failed(old(self)@, final(self)@, e)),
    {
        let ghost v0 = self@;
        if self.takes_block() {
            let res = self.input.read_rest();
            proof {
                let v1 = self@;
                if res is Err {
                    let e = res->Err_0;
                    if !from_source(e) {
                        assert forall|rest: Seq<u8>| #[trigger]
                            ahead(v0, v1, rest) == ahead(v0, v1, rest) implies !prefixed_ok(
                            true,
                            ahead(v0, v1, rest),
                        ) by {
                            assert(closing_failed(v0.input, v1.input, top(v0), e));
                        }
                    }
                }
            }
            res
        } else {
            let ghost v1 = self@;
            match self.read_varint_usize() {
                Err(e) => Err(e),
                Ok(n) => {
                    let ghost vk = self@;
                    let ghost h = choose|h: Seq<u8>|
                        #[trigger] took(v1, vk, h) && varint_parse(
                            h,
                            VARINT_MAX_U64 as nat,
                            MAX_LAST_U64 as nat,
                        ) == VarintParse::Value(n as nat, h.len());
                    let res = self.input.read(n);
                    proof {
                        let vf = self@;
                        lemma_fresh_compose(v1.input, vk.input, vf.input);
                        if res is Ok {
                            let b = res->Ok_0;
                            lemma_moved_compose(v1.input, vk.input, vf.input, top(v0), h, b@);
                            assert(took(cleared(v0), vf, h + b@));
                        } else {
                            let e = res->Err_0;
                            if !from_source(e) && n == 0 {
                                assert(took(cleared(v0), vk, h));
                                assert(extends(vk.input, vf.input));
                                assert(touch_failed(vk.input, vf.input, top(cleared(v0)), e));
                                assert(touch_failed_after(cleared(v0), vf, h, e));
                            }
                            if !from_source(e) && n > 0 {
                                assert forall|rest: Seq<u8>| #[trigger]
                                    ahead(v0, vf, rest) == ahead(v0, vf, rest) implies !prefixed_ok(
                                    false,
                                    ahead(v0, vf, rest),
                                ) by {
                                    let r1 = fresh(vk.input, vf.input) + rest;
                                    lemma_moved_then_failed(
                                        v1.input,
                                        vk.input,
                                        vf.input,
                                        top(v0),
                                        h,
                                        rest,
                                    );
                                    lemma_front(v1.input, vk.input, top(v0), h, r1);
                                    lemma_varint_parse_prefix(
                                        h,
                                        level_of(vk.input, r1, top(v0)).bytes,
                                        VARINT_MAX_U64 as nat,
                                        MAX_LAST_U64 as nat,
                                    );
                                }
                            }
                        }
                    }
                    res
                },
            }
        }
    }

    /// Reads the bytes of a byte buffer: their length, unless they reach the
    /// end of their block, then the bytes.
    pub fn deserialize_byte_buf(&mut self) -> (res: Result<Vec<u8>, Error>)
        requires
            old(self)@.owns_block ==> top(old(self)@) >= 1,
        ensures
            res matches Err(e) ==> read_error(e) || e is UsizeOverflow,
            res matches Ok(b) ==> took_prefixed(old(self)@, final(self)@, b@),
            res matches Err(e) ==> errored(cleared(old(self)@), final(self)@, e) && (!from_source(
                e,
            ) ==> prefixed_failed(old(self)@, final(self)@, e)),
    {
        self.read_len_prefixed()
    }

    /// Reads a string: its length, unless it reaches the end of its block,
    /// then its UTF-8 bytes.
    pub fn deserialize_string(&mut self) -> (res: Result<String, Error>)
        requires
            old(self)@.owns_block ==> top(old(self)@) >= 1,
        ensures
            res matches Err(e) ==> read_error(e) || e is UsizeOverflow || e is BadString,
            res matches Ok(s) ==> exists|b: Seq<u8>|
                #[trigger] took_prefixed(old(self)@, final(self)@, b) && valid_utf8(b) && s@
                    == decode_utf8(b),
            res matches Err(Error::BadString) ==> exists|b: Seq<u8>|
                #[trigger] took_prefixed(old(self)@, final(self)@, b) && !valid_utf8(b),
            res matches Err(e) ==> errored(cleared(old(self)@), final(self)@, e),
            res matches Err(e) ==> !from_source(e) && !(e is BadString) ==> prefixed_failed(
                old(self)@,
                final(self)@,
                e,
            ),
    {
        let bytes = self.read_len_prefixed();
        match bytes {
            Ok(b) => {
                let ghost bb = b@;
                match string_from_utf8(b) {
                    Some(s) => {
                        assert(took_prefixed(old(self)@, self@, bb));
                        Ok(s)
                    },
                    None => {
                        assert(took_prefixed(old(self)@, self@, bb));
                        Err(Error::BadString)
                    },
                }
            },
            Err(e) => Err(e),
        }
    }
    /// Reads a character that reaches the end of its block: its leading byte
    /// and as many bytes as that announces. What else the block holds is left
    /// for closing the block to skip.
    #[verifier::rlimit(40)]
    fn char_to_block_end(&mut self) -> (res: Result<char, Error>)
        requires
            top(old(self)@) >= 1,
        ensures
            res matches Ok(c) ==> exists|b: Seq<u8>|
                #[trigger] took(old(self)@, final(self)@, b) && char_bytes_ok(b) && c
                    == decode_utf8(b)[0],
            res matches Err(e) ==> (read_error(e) || e is BadChar) && errored(
                old(self)@,
                final(self)@,
                e,
            ),
            res matches Err(e) ==> !from_source(e) ==> forall|rest: Seq<u8>|
                #![trigger ahead(old(self)@, final(self)@, rest)]
                !char_ok(true, ahead(old(self)@, final(self)@, rest)),
    {
        let ghost v0 = self@;
        match self.input.block_exhausted() {
            Err(e) => {
                proof {
                    let vf = self@;
                    if !from_source(e) {
                        assert forall|rest: Seq<u8>| #[trigger]
                            ahead(v0, vf, rest) == ahead(v0, vf, rest) implies !char_ok(
                            true,
                            ahead(v0, vf, rest),
                        ) by {
                            assert(!read_succeeds(ahead(v0, vf, rest), 0));
                        }
                    }
                }
                return Err(e);
            },
            Ok(true) => {
                proof {
                    let vf = self@;
                    assert forall|rest: Seq<u8>| #[trigger]
                        ahead(v0, vf, rest) == ahead(v0, vf, rest) implies !char_ok(
                        true,
                        ahead(v0, vf, rest),
                    ) by {
                        lemma_front(v0.input, vf.input, top(v0), Seq::empty(), rest);
                        assert(exhausted(level_of(vf.input, rest, top(v0))));
                        assert(Seq::<u8>::empty() + level_of(vf.input, rest, top(v0)).bytes
                            =~= level_of(vf.input, rest, top(v0)).bytes);
                    }
                }
                return Err(Error::BadChar);
            },
            Ok(false) => {},
        }
        let ghost v1 = self@;
        proof {
            assert(took(v0, v1, Seq::empty()));
        }
        let lead = match self.next_byte() {
            Ok(b) => b,
            Err(e) => {
                proof {
                    let vf = self@;
                    lemma_errored_after(v0, v1, vf, Seq::empty(), e);
                    if !from_source(e) {
                        assert forall|rest: Seq<u8>| #[trigger]
                            ahead(v0, vf, rest) == ahead(v0, vf, rest) implies !char_ok(
                            true,
                            ahead(v0, vf, rest),
                        ) by {
                            lemma_took_then(v0, v1, vf, Seq::empty(), rest);
                            assert(ahead(v1, vf, rest).bytes.len() == 0);
                            assert(Seq::<u8>::empty() + ahead(v1, vf, rest).bytes =~= ahead(
                                v1,
                                vf,
                                rest,
                            ).bytes);
                        }
                    }
                }
                return Err(e);
            },
        };
        let ghost v2 = self@;
        proof {
            lemma_took_compose(v0, v1, v2, Seq::empty(), seq![lead]);
            assert(Seq::<u8>::empty() + seq![lead] =~= seq![lead]);
        }
        let following = match utf8_following_bytes(lead) {
            Some(k) => k,
            None => {
                proof {
                    assert forall|rest: Seq<u8>| #[trigger]
                        ahead(v0, v2, rest) == ahead(v0, v2, rest) implies !char_ok(
                        true,
                        ahead(v0, v2, rest),
                    ) by {
                        lemma_front(v0.input, v2.input, top(v0), seq![lead], rest);
                    }
                }
                return Err(Error::BadChar);
            },
        };
        let mut buf: Vec<u8> = Vec::new();
        buf.push(lead);
        let mut i: usize = 0;
        while i < following
            invariant
                v0 == old(self)@,
                top(v0) >= 1,
                following <= 3,
                lead_following(lead) == Some(following),
                i <= following,
                buf@.len() == i + 1,
                buf@[0] == lead,
                took(v0, self@, buf@),
            decreases following - i,
        {
            let ghost vk = self@;
            match self.next_byte() {
                Ok(b) => {
                    let ghost before = buf@;
                    proof {
                        lemma_took_compose(v0, vk, self@, buf@, seq![b]);
                    }
                    buf.push(b);
                    assert(before + seq![b] =~= buf@);
                },
                Err(e) => {
                    proof {
                        let vf = self@;
                        lemma_errored_after(v0, vk, vf, buf@, e);
                        if !from_source(e) {
                            assert forall|rest: Seq<u8>| #[trigger]
                                ahead(v0, vf, rest) == ahead(v0, vf, rest) implies !char_ok(
                                true,
                                ahead(v0, vf, rest),
                            ) by {
                                lemma_took_then(v0, vk, vf, buf@, rest);
                                assert(ahead(vk, vf, rest).bytes.len() == 0);
                                assert((buf@ + ahead(vk, vf, rest).bytes)[0] == lead);
                            }
                        }
                    }
                    return Err(e);
                },
            }
            i = i + 1;
        }
        let ghost vf = self@;
        match first_char(buf.as_slice()) {
            Ok(c) => {
                proof {
                    assert(took(v0, vf, buf@));
                }
                Ok(c)
            },
            Err(e) => {
                proof {
                    assert forall|rest: Seq<u8>| #[trigger]
                        ahead(v0, vf, rest) == ahead(v0, vf, rest) implies !char_ok(
                        true,
                        ahead(v0, vf, rest),
                    ) by {
                        lemma_front(v0.input, vf.input, top(v0), buf@, rest);
                        let w = level_of(vf.input, rest, top(v0));
                        assert((buf@ + w.bytes).take(1 + following) =~= buf@);
                        assert((buf@ + w.bytes)[0] == lead);
                    }
                }
                Err(e)
            },
        }
    }

    /// Reads a character.
    ///
    /// A field that was a character may since have become a string: its
    /// first character is taken rather than failing. Where the value reaches
    /// the end of its block, only the character itself is read, and the rest
    /// is left to be skipped when the block ends; otherwise the whole string
    /// is read, as its length says.
    pub fn deserialize_char(&mut self) -> (res: Result<char, Error>)
        requires
            old(self)@.owns_block ==> top(old(self)@) >= 1,
        ensures
            res matches Ok(c) ==> exists|b: Seq<u8>|
                #[trigger] took_char(old(self)@, final(self)@, b) && c == decode_utf8(b)[0],
            res matches Err(e) ==> (read_error(e) || e is UsizeOverflow || e is BadChar) && errored(
                cleared(old(self)@),
                final(self)@,
                e,
            ),
            res matches Err(e) ==> !from_source(e) ==> forall|rest: Seq<u8>|
                #![trigger ahead(old(self)@, final(self)@, rest)]
                !char_ok(old(self)@.owns_block, ahead(old(self)@, final(self)@, rest)),
    {
        let ghost v0 = self@;
        if self.takes_block() {
            let ghost v1 = self@;
            let res = self.char_to_block_end();
            proof {
                let vf = self@;
                if res is Ok {
                    let c = res->Ok_0;
                    let b = choose|b: Seq<u8>|
                        #[trigger] took(v1, vf, b) && char_bytes_ok(b) && c == decode_utf8(b)[0];
                    assert(took_char(v0, vf, b));
                } else {
                    let e = res->Err_0;
                    if !from_source(e) {
                        assert forall|rest: Seq<u8>| #[trigger]
                            ahead(v0, vf, rest) == ahead(v0, vf, rest) implies !char_ok(
                            true,
                            ahead(v0, vf, rest),
                        ) by {
                            assert(ahead(v0, vf, rest) == ahead(v1, vf, rest));
                        }
                    }
                }
            }
            res
        } else {
            let bytes = self.read_len_prefixed();
            match bytes {
                Err(e) => {
                    proof {
                        let vf = self@;
                        if !from_source(e) && !(forall|rest: Seq<u8>|
                            #![trigger ahead(v0, vf, rest)]
                            !prefixed_ok(v0.owns_block, ahead(v0, vf, rest))) {
                            let h = choose|h: Seq<u8>|
                                varint_parse(h, VARINT_MAX_U64 as nat, MAX_LAST_U64 as nat)
                                    == VarintParse::Value(0, h.len()) && #[trigger] touch_failed_after(
                                    cleared(v0),
                                    vf,
                                    h,
                                    e,
                                );
                            assert forall|rest: Seq<u8>| #[trigger]
                                ahead(v0, vf, rest) == ahead(v0, vf, rest) implies !char_ok(
                                false,
                                ahead(v0, vf, rest),
                            ) by {
                                lemma_empty_run_no_char(cleared(v0), vf, h, e, rest);
                                assert(ahead(cleared(v0), vf, rest) == ahead(v0, vf, rest));
                            }
                        }
                    }
                    Err(e)
                },
                Ok(b) => {
                    let ghost vf = self@;
                    let res = first_char(b.as_slice());
                    proof {
                        assert(took_prefixed(v0, vf, b@));
                        if res is Ok {
                            assert(took_char(v0, vf, b@));
                        } else {
                            let h = choose|h: Seq<u8>|
                                #[trigger] took(cleared(v0), vf, h + b@) && varint_parse(
                                    h,
                                    VARINT_MAX_U64 as nat,
                                    MAX_LAST_U64 as nat,
                                ) == VarintParse::Value(b@.len(), h.len());
                            assert forall|rest: Seq<u8>| #[trigger]
                                ahead(v0, vf, rest) == ahead(v0, vf, rest) implies !char_ok(
                                false,
                                ahead(v0, vf, rest),
                            ) by {
                                lemma_front(v0.input, vf.input, top(v0), h + b@, rest);
                                let w = level_of(vf.input, rest, top(v0));
                                assert(h + b@ + w.bytes =~= h + (b@ + w.bytes));
                                lemma_varint_parse_prefix(
                                    h,
                                    b@ + w.bytes,
                                    VARINT_MAX_U64 as nat,
                                    MAX_LAST_U64 as nat,
                                );
                                assert((h + (b@ + w.bytes)).subrange(
                                    h.len() as int,
                                    (h.len() + b@.len()) as int,
                                ) =~= b@);
                            }
                        }
                    }
                    res
                },
            }
        }
    }

    /// Reads an identifier and block flag.
    /// Reads the length of the name of an identifier whose byte `first`
    /// says that one follows: the length it states, or the varint after it.
    fn read_ident_len(&mut self, first: u8) -> (res: Result<usize, Error>)
        requires
            first % 128 < ID_LEN_NAME,
        ensures
            res matches Ok(len) ==> exists|h: Seq<u8>|
                #[trigger] took(old(self)@, final(self)@, h) && ident_name_shape(
                    first,
                    h,
                    len as nat,
                ),
            res matches Err(e) ==> (read_error(e) || e is UsizeOverflow) && errored(
                old(self)@,
                final(self)@,
                e,
            ),
            res matches Err(e) ==> !from_source(e) ==> forall|rest: Seq<u8>|
                #![trigger ahead(old(self)@, final(self)@, rest)]
                !ident_ok(prepend(seq![first], ahead(old(self)@, final(self)@, rest))),
    {
        let ghost v1 = self@;
        proof {
            lemma_ident_byte(first);
        }
        let id = first & 0x7f;
        if id == ID_LEN {
            let res = self.read_varint_usize();
            proof {
                let vf = self@;
                if res is Ok {
                    let n = res->Ok_0;
                    let h = choose|h: Seq<u8>|
                        #[trigger] took(v1, vf, h) && varint_parse(
                            h,
                            VARINT_MAX_U64 as nat,
                            MAX_LAST_U64 as nat,
                        ) == VarintParse::Value(n as nat, h.len());
                    assert(ident_name_shape(first, h, n as nat));
                } else {
                    let e = res->Err_0;
                    if !from_source(e) {
                        assert forall|rest: Seq<u8>| #[trigger]
                            ahead(v1, vf, rest) == ahead(v1, vf, rest) implies !ident_ok(
                            prepend(seq![first], ahead(v1, vf, rest)),
                        ) by {
                            assert((seq![first] + ahead(v1, vf, rest).bytes).drop_first()
                                =~= ahead(v1, vf, rest).bytes);
                        }
                    }
                }
            }
            res
        } else {
            proof {
                crate::skip_read::lemma_moved_none(v1.input, top(v1));
                assert(took(v1, v1, Seq::empty()));
                assert(ident_name_shape(first, Seq::empty(), id as nat));
            }
            Ok(id as usize)
        }
    }

    /// Reads the name of an identifier whose byte `first` says that one
    /// follows.
    fn read_ident_name(&mut self, first: u8) -> (res: Result<String, Error>)
        requires
            first % 128 < ID_LEN_NAME,
        ensures
            res matches Ok(name) ==> exists|h: Seq<u8>, bb: Seq<u8>|
                #[trigger] took(old(self)@, final(self)@, h + bb) && ident_name_shape(
                    first,
                    h,
                    bb.len(),
                ) && valid_utf8(bb) && encode_utf8(name@) == bb,
            res matches Err(e) ==> (read_error(e) || e is UsizeOverflow || e is BadIdentifier)
                && errored(old(self)@, final(self)@, e),
            res matches Err(e) ==> !from_source(e) ==> ident_rest_failed(
                old(self)@,
                final(self)@,
                first,
                e,
            ),
    {
        let ghost v1 = self@;
        let len = match self.read_ident_len(first) {
            Ok(n) => n,
            Err(e) => {
                return Err(e);
            },
        };
        let ghost vk = self@;
        let ghost h = choose|h: Seq<u8>|
            #[trigger] took(v1, vk, h) && ident_name_shape(first, h, len as nat);
        let res = self.input.read(len);
        let ghost vf = self@;
        match res {
            Err(e) => {
                proof {
                    lemma_errored_after(v1, vk, vf, h, e);
                    if !from_source(e) && len > 0 {
                        lemma_ident_name_missing(v1, vk, vf, first, h, len as nat, e);
                    }
                    if !from_source(e) && len == 0 {
                        assert(took(v1, vk, h) && extends(vk.input, vf.input) && touch_failed(
                            vk.input,
                            vf.input,
                            top(v1),
                            e,
                        ));
                        assert(touch_failed_after(v1, vf, h, e));
                    }
                }
                Err(e)
            },
            Ok(bytes) => {
                let ghost bb = bytes@;
                proof {
                    lemma_took_compose(v1, vk, vf, h, bb);
                }
                match string_from_utf8(bytes) {
                    Some(name) => {
                        proof {
                            vstd::utf8::decode_utf8_encode_utf8(bb);
                        }
                        Ok(name)
                    },
                    None => {
                        proof {
                            lemma_ident_name_bad(v1, vf, first, h, bb);
                        }
                        Err(Error::BadIdentifier)
                    },
                }
            },
        }
    }

    /// Reads an identifier and block flag.
    pub fn read_identifier(&mut self) -> (res: Result<(String, bool), Error>)
        ensures
            res matches Ok((name, block)) ==> exists|b: Seq<u8>|
                #[trigger] took(old(self)@, final(self)@, b) && ident_dec(b) == Some(
                    (encode_utf8(name@), block),
                ),
            res matches Err(e) ==> (read_error(e) || e is UsizeOverflow || e is BadIdentifier)
                && errored(old(self)@, final(self)@, e),
            res matches Err(e) ==> !from_source(e) ==> ident_failed(old(self)@, final(self)@, e),
            res matches Err(e) ==> !from_source(e) ==> reserved_refused(old(self)@, final(self)@, e),
    {
        let ghost v0 = self@;
        let first = match self.next_byte() {
            Ok(b) => b,
            Err(e) => {
                return Err(e);
            },
        };
        let ghost v1 = self@;
        proof {
            lemma_ident_byte(first);
        }
        let block = first & ID_BLOCK != 0;
        let id = first & 0x7f;
        if id >= ID_LEN_NAME {
            match numbered_ident((id - ID_LEN_NAME) as usize) {
                Some(name) => {
                    proof {
                        let b = seq![first];
                        assert(ident_dec(b) == Some((encode_utf8(name@), block)));
                    }
                    Ok((name, block))
                },
                None => {
                    proof {
                        assert forall|rest: Seq<u8>| #[trigger]
                            ahead(v0, v1, rest) == ahead(v0, v1, rest) implies !ident_ok(
                            ahead(v0, v1, rest),
                        ) by {
                            lemma_first_byte(v0.input, v1.input, top(v0), first, rest);
                        }
                    }
                    Err(Error::BadIdentifier)
                },
            }
        } else {
            let res = self.read_ident_name(first);
            let ghost vf = self@;
            match res {
                Ok(name) => {
                    proof {
                        let (h, bb) = choose|h: Seq<u8>, bb: Seq<u8>|
                            #[trigger] took(v1, vf, h + bb) && ident_name_shape(first, h, bb.len())
                                && valid_utf8(bb) && encode_utf8(name@) == bb;
                        lemma_ident_name_read(first, h, bb);
                        lemma_took_compose(v0, v1, vf, seq![first], h + bb);
                        assert(seq![first] + (h + bb) =~= seq![first] + h + bb);
                    }
                    Ok((name, block))
                },
                Err(e) => {
                    proof {
                        lemma_errored_after(v0, v1, vf, seq![first], e);
                        if !from_source(e) {
                            assert forall|rest: Seq<u8>| #[trigger]
                                ahead(v0, vf, rest) == ahead(v0, vf, rest) implies (ahead(
                                v0,
                                vf,
                                rest,
                            ).bytes.len() >= 1 && reserved_ident(ahead(v0, vf, rest).bytes[0])
                                ==> e is BadIdentifier) by {
                                lemma_took_then(v0, v1, vf, seq![first], rest);
                                assert(ahead(v0, vf, rest).bytes[0] == first);
                            }
                            if forall|rest: Seq<u8>|
                                #![trigger ahead(v1, vf, rest)]
                                !ident_ok(prepend(seq![first], ahead(v1, vf, rest))) {
                                assert forall|rest: Seq<u8>| #[trigger]
                                    ahead(v0, vf, rest) == ahead(v0, vf, rest) implies !ident_ok(
                                    ahead(v0, vf, rest),
                                ) by {
                                    lemma_took_then(v0, v1, vf, seq![first], rest);
                                }
                            } else {
                                let h = choose|h: Seq<u8>|
                                    ident_name_shape(first, h, 0) && #[trigger] touch_failed_after(
                                        v1,
                                        vf,
                                        h,
                                        e,
                                    );
                                let vk = choose|vk: DeView|
                                    #[trigger] took(v1, vk, h) && extends(vk.input, vf.input)
                                        && touch_failed(vk.input, vf.input, top(v1), e);
                                lemma_took_compose(v0, v1, vk, seq![first], h);
                                let h2 = seq![first] + h;
                                assert(h2[0] == first);
                                assert(h2.drop_first() =~= h);
                                assert(took(v0, vk, h2) && extends(vk.input, vf.input) && touch_failed(
                                    vk.input,
                                    vf.input,
                                    top(v0),
                                    e,
                                ));
                                assert(touch_failed_after(v0, vf, h2, e));
                            }
                        }
                    }
                    Err(e)
                },
            }
        }
    }
    /// Reads the length of a sequence or map, `None` where it was not known.
    fn read_len(&mut self) -> (res: Result<Option<usize>, Error>)
        ensures
            res matches Ok(l) ==> exists|h: Seq<u8>|
                #[trigger] took(old(self)@, final(self)@, h) && len_dec(h) == Some(l),
            res matches Err(e) ==> (read_error(e) || e is UsizeOverflow || e is BadLen) && errored(
                old(self)@,
                final(self)@,
                e,
            ),
            res matches Err(e) ==> !from_source(e) ==> forall|rest: Seq<u8>|
                #![trigger ahead(old(self)@, final(self)@, rest)]
                !len_ok(ahead(old(self)@, final(self)@, rest)),
    {
        let ghost v0 = self@;
        let first = match self.read_varint_usize() {
            Ok(n) => n,
            Err(e) => {
                return Err(e);
            },
        };
        let ghost v1 = self@;
        let ghost h1 = choose|h: Seq<u8>|
            #[trigger] took(v0, v1, h) && varint_parse(
                h,
                VARINT_MAX_U64 as nat,
                MAX_LAST_U64 as nat,
            ) == VarintParse::Value(first as nat, h.len());
        if first != SPECIAL_LEN {
            assert(len_dec(h1) == Some(Some(first)));
            return Ok(Some(first));
        }
        let second = match self.read_varint_usize() {
            Ok(n) => n,
            Err(e) => {
                proof {
                    let vf = self@;
                    lemma_errored_after(v0, v1, vf, h1, e);
                    if !from_source(e) {
                        assert forall|rest: Seq<u8>| #[trigger]
                            ahead(v0, vf, rest) == ahead(v0, vf, rest) implies !len_ok(
                            ahead(v0, vf, rest),
                        ) by {
                            lemma_took_then(v0, v1, vf, h1, rest);
                            lemma_len_second(h1, ahead(v1, vf, rest).bytes);
                            assert(!usize_ok(ahead(v1, vf, rest)));
                        }
                    }
                }
                return Err(e);
            },
        };
        let ghost v2 = self@;
        let ghost h2 = choose|h: Seq<u8>|
            #[trigger] took(v1, v2, h) && varint_parse(
                h,
                VARINT_MAX_U64 as nat,
                MAX_LAST_U64 as nat,
            ) == VarintParse::Value(second as nat, h.len());
        proof {
            lemma_took_compose(v0, v1, v2, h1, h2);
            lemma_len_second(h1, h2);
        }
        if second == SPECIAL_LEN {
            Ok(Some(SPECIAL_LEN))
        } else if second == UNKNOWN_LEN {
            Ok(None)
        } else {
            proof {
                assert forall|rest: Seq<u8>| #[trigger]
                    ahead(v0, v2, rest) == ahead(v0, v2, rest) implies !len_ok(ahead(v0, v2, rest)) by {
                    lemma_front(v0.input, v2.input, top(v0), h1 + h2, rest);
                    let w = level_of(v2.input, rest, top(v0));
                    assert(h1 + h2 + w.bytes =~= h1 + (h2 + w.bytes));
                    lemma_len_second(h1, h2 + w.bytes);
                    lemma_varint_parse_prefix(h2, w.bytes, VARINT_MAX_U64 as nat, MAX_LAST_U64 as nat);
                }
            }
            Err(Error::BadLen)
        }
    }

    /// Begins a sequence or map: reads its length and, where it was not
    /// known, opens the block its elements sit in.
    pub fn begin_seq(&mut self) -> (res: Result<Option<usize>, Error>)
        ensures
            res matches Ok(Some(n)) ==> exists|h: Seq<u8>|
                #[trigger] took(old(self)@, final(self)@, h) && len_dec(h) == Some(Some(n)),
            res matches Ok(None) ==> exists|h: Seq<u8>, vm: DeView|
                #[trigger] took(old(self)@, vm, h) && len_dec(h) == Some(None::<usize>)
                    && final(self)@ == with_block(vm, new_block()),
            res matches Err(e) ==> (read_error(e) || e is UsizeOverflow || e is BadLen) && errored(
                old(self)@,
                final(self)@,
                e,
            ),
            res matches Err(e) ==> !from_source(e) ==> forall|rest: Seq<u8>|
                #![trigger ahead(old(self)@, final(self)@, rest)]
                !len_ok(ahead(old(self)@, final(self)@, rest)),
    {
        let len = match self.read_len() {
            Ok(l) => l,
            Err(e) => {
                return Err(e);
            },
        };
        let ghost vm = self@;
        if len.is_none() {
            self.input.start_skippable();
            proof {
                let h = choose|h: Seq<u8>| #[trigger] took(old(self)@, vm, h) && len_dec(h) == Some(len);
                assert(self@ == with_block(vm, new_block()));
                assert(took(old(self)@, vm, h) && len_dec(h) == Some(None::<usize>) && self@
                    == with_block(vm, new_block()));
            }
        }
        Ok(len)
    }

    /// Ends a sequence or map: where its length was not known, closes the
    /// block its elements sit in, skipping what is left of it.
    pub fn end_seq(&mut self, len: Option<usize>) -> (res: Result<(), Error>)
        requires
            len is None ==> top(old(self)@) >= 1,
        ensures
            len is Some ==> res is Ok && final(self)@ == old(self)@,
            len is None ==> (res is Ok ==> closed_block(old(self)@, final(self)@)),
            len is None ==> (res matches Err(e) ==> close_failed(old(self)@, final(self)@, e)),
    {
        if len.is_none() {
            self.input.end_skippable()
        } else {
            Ok(())
        }
    }

    /// Begins a struct: reads its field count, unless it reaches the end of
    /// its block, and without identifiers, opens the block its fields sit
    /// in. Returns the field count, `None` where it was left out.
    pub fn begin_struct(&mut self) -> (res: Result<Option<usize>, Error>)
        requires
            !WITH_IDENTS ==> !old(self)@.owns_block,
        ensures
            old(self)@.owns_block ==> res == Ok::<Option<usize>, Error>(None) && final(self)@
                == cleared(old(self)@),
            !old(self)@.owns_block ==> (res matches Ok(l) ==> l is Some && exists|
                h: Seq<u8>,
                vm: DeView,
            |
                #[trigger] took(old(self)@, vm, h) && varint_parse(
                    h,
                    VARINT_MAX_U64 as nat,
                    MAX_LAST_U64 as nat,
                ) == VarintParse::Value(l.unwrap() as nat, h.len()) && final(self)@ == if WITH_IDENTS {
                    vm
                } else {
                    with_block(vm, new_block())
                }),
            res matches Err(e) ==> (read_error(e) || e is UsizeOverflow) && errored(
                old(self)@,
                final(self)@,
                e,
            ),
            res matches Err(e) ==> !from_source(e) ==> forall|rest: Seq<u8>|
                #![trigger ahead(old(self)@, final(self)@, rest)]
                !usize_ok(ahead(old(self)@, final(self)@, rest)),
    {
        if self.takes_block() {
            return Ok(None);
        }
        let n = match self.read_varint_usize() {
            Ok(n) => n,
            Err(e) => {
                return Err(e);
            },
        };
        let ghost vm = self@;
        if !WITH_IDENTS {
            self.input.start_skippable();
        }
        proof {
            let h = choose|h: Seq<u8>|
                #[trigger] took(old(self)@, vm, h) && varint_parse(
                    h,
                    VARINT_MAX_U64 as nat,
                    MAX_LAST_U64 as nat,
                ) == VarintParse::Value(n as nat, h.len());
            assert(took(old(self)@, vm, h));
        }
        Ok(Some(n))
    }

    /// Ends a struct: without identifiers, closes the block its fields sit
    /// in, skipping what is left of it.
    pub fn end_struct(&mut self) -> (res: Result<(), Error>)
        requires
            !WITH_IDENTS ==> top(old(self)@) >= 1,
        ensures
            WITH_IDENTS ==> res is Ok && final(self)@ == old(self)@,
            !WITH_IDENTS ==> (res is Ok ==> closed_block(old(self)@, final(self)@)),
            !WITH_IDENTS ==> (res matches Err(e) ==> close_failed(old(self)@, final(self)@, e)),
    {
        if !WITH_IDENTS {
            self.input.end_skippable()
        } else {
            Ok(())
        }
    }

    /// Begins the value of a struct field: opens the block it sits in. The
    /// value reaches the end of that block.
    pub fn begin_field_value(&mut self)
        ensures
            final(self)@ == (DeView {
                owns_block: WITH_IDENTS && old(self)@.version != Version::Postbag0_4,
                ..with_block(old(self)@, new_block())
            }),
    {
        self.input.start_skippable();
        self.owns_block = self.field_owns_block();
    }

    /// Ends the value of a struct field: closes its block, skipping what is
    /// left of it.
    pub fn end_field_value(&mut self) -> (res: Result<(), Error>)
        requires
            top(old(self)@) >= 1,
        ensures
            res is Ok ==> closed_block(cleared(old(self)@), final(self)@),
            res matches Err(e) ==> close_failed(cleared(old(self)@), final(self)@, e),
    {
        self.owns_block = false;
        self.input.end_skippable()
    }

    /// Begins a newtype struct; `recoverable` states whether it is the
    /// wrapper of a recoverable value, which a block encloses where nothing
    /// else bounds it.
    ///
    /// Returns how many blocks were open before, to return to with
    /// [`Self::end_recoverable`], and whether the value reaches the end of
    /// its block.
    pub fn begin_newtype_struct(&mut self, recoverable: bool) -> (r: (usize, bool))
        ensures
            r.0 == top(old(self)@),
            !recoverable ==> r.1 == old(self)@.owns_block && final(self)@ == cleared(old(self)@),
            recoverable && old(self)@.owns_block ==> r.1 && final(self)@ == cleared(old(self)@),
            recoverable && !old(self)@.owns_block ==> r.1 == (WITH_IDENTS && old(self)@.version
                != Version::Postbag0_4) && final(self)@ == with_block(
                cleared(old(self)@),
                new_block(),
            ),
    {
        let owns_block = self.takes_block();
        let depth = self.input.depth();
        if !recoverable {
            return (depth, owns_block);
        }
        let block = !owns_block;
        if block {
            self.input.start_skippable();
        }
        let value_owns_block = if block {
            self.field_owns_block()
        } else {
            owns_block
        };
        (depth, value_owns_block)
    }

    /// Ends a recoverable value: closes every block opened since `depth`,
    /// whether the value was read in full or failed partway, skipping what
    /// is left of each.
    ///
    /// This confines a failure to the value: where the blocks around it end
    /// as their framing says, reading goes on at `depth` right after them, as
    /// if the value had been read in full. It fails only where the source
    /// has failed, at any point since it was made, or where a block cannot
    /// be closed for what the data holds.
    pub fn end_recoverable(&mut self, depth: usize) -> (res: Result<(), Error>)
        requires
            depth <= top(old(self)@),
        ensures
            log_grew(old(self)@.input, final(self)@.input),
            final(self)@.remaining_depth == old(self)@.remaining_depth,
            final(self)@.version == old(self)@.version,
            final(self)@.failed == (old(self)@.failed || res matches Err(Error::Io(_))),
            old(self)@.failed ==> res is Err,
            res is Ok ==> !final(self)@.owns_block && top(final(self)@) == depth,
            res is Ok && depth == top(old(self)@) ==> final(self)@.input == old(self)@.input,
            res is Ok && depth < top(old(self)@) ==> forall|rest: Seq<u8>|
                #![trigger level_of(final(self)@.input, rest, depth as nat)]
                crate::skip_read::after_of(
                    old(self)@.input,
                    fresh(old(self)@.input, final(self)@.input) + rest,
                    depth as nat,
                ) == Some(level_of(final(self)@.input, rest, depth as nat)),
            res matches Err(e) ==> read_error(e) || e is UsizeOverflow,
            old(self)@.failed ==> res matches Err(Error::Io(_)),
            !old(self)@.failed && depth == top(old(self)@) ==> res is Ok && final(self)@ == cleared(
                old(self)@,
            ),
            res matches Err(e) ==> !old(self)@.failed ==> !from_source(e) ==> (e is UsizeOverflow
                && fresh(old(self)@.input, final(self)@.input).len() >= u64::MAX) || exists|mk: Model|
                #![trigger popping(old(self)@.input, mk)]
                popping(old(self)@.input, mk) && depth < mk.frames.len() && (mk.frames.len() == top(
                    old(self)@,
                ) ==> mk == old(self)@.input) && closing_failed(
                    mk,
                    final(self)@.input,
                    mk.frames.len(),
                    e,
                ),
    {
        match self.input.pop_to(depth) {
            Ok(()) => {
                self.owns_block = false;
                Ok(())
            },
            Err(e) => Err(e),
        }
    }

    /// Reads the tag of an enum variant: its identifier and whether a block
    /// holding its payload follows, or without identifiers its index. Also
    /// returns whether the variant reached the end of its block.
    pub fn read_variant(&mut self) -> (res: Result<(VariantId, bool, bool), Error>)
        ensures
            res matches Ok((id, block, owns)) ==> owns == old(self)@.owns_block && (WITH_IDENTS
                <==> id is Name),
            res matches Ok((VariantId::Name(name), block, owns)) ==> exists|b: Seq<u8>|
                #[trigger] took(cleared(old(self)@), final(self)@, b) && ident_dec(b) == Some(
                    (encode_utf8(name@), block),
                ),
            res matches Ok((VariantId::Index(i), block, owns)) ==> !block && took_varint(
                cleared(old(self)@),
                final(self)@,
                VARINT_MAX_U32 as nat,
                MAX_LAST_U32 as nat,
                i as nat,
            ),
            res matches Err(e) ==> (read_error(e) || e is UsizeOverflow || e is BadIdentifier)
                && errored(cleared(old(self)@), final(self)@, e),
            res matches Err(e) ==> !from_source(e) ==> WITH_IDENTS ==> ident_failed(
                cleared(old(self)@),
                final(self)@,
                e,
            ),
            res matches Err(e) ==> !from_source(e) ==> !WITH_IDENTS ==> forall|rest: Seq<u8>|
                #![trigger ahead(old(self)@, final(self)@, rest)]
                !varint_ok(ahead(old(self)@, final(self)@, rest), VARINT_MAX_U32 as nat, MAX_LAST_U32 as nat),
            res matches Err(e) ==> !from_source(e) ==> WITH_IDENTS ==> reserved_refused(
                cleared(old(self)@),
                final(self)@,
                e,
            ),
            res matches Err(e) ==> !from_source(e) ==> !WITH_IDENTS ==> varint_read_failed(
                cleared(old(self)@),
                final(self)@,
                VARINT_MAX_U32 as nat,
                MAX_LAST_U32 as nat,
                e,
            ),
    {
        let owns_block = self.takes_block();
        let ghost v1 = self@;
        if WITH_IDENTS {
            let res = self.read_identifier();
            match res {
                Ok((name, block)) => Ok((VariantId::Name(name), block, owns_block)),
                Err(e) => Err(e),
            }
        } else {
            let res = self.read_varint_u32();
            proof {
                let vf = self@;
                if res is Err {
                    let e = res->Err_0;
                    if !from_source(e) {
                        assert forall|rest: Seq<u8>| #[trigger]
                            ahead(old(self)@, vf, rest) == ahead(old(self)@, vf, rest) implies !varint_ok(
                            ahead(old(self)@, vf, rest),
                            VARINT_MAX_U32 as nat,
                            MAX_LAST_U32 as nat,
                        ) by {
                            assert(ahead(old(self)@, vf, rest) == ahead(v1, vf, rest));
                        }
                    }
                }
            }
            match res {
                Ok(i) => Ok((VariantId::Index(i), false, owns_block)),
                Err(e) => Err(e),
            }
        }
    }

    /// Enters the payload of an enum variant whose tag was read: where the
    /// variant does not reach the end of the block around it and is tagged,
    /// opens the block its payload sits in, or, where the tag says there is
    /// none, a block that holds nothing. The payload reaches the end of a
    /// block, whether the one around the variant or the one opened.
    pub fn open_variant(&mut self, owns: bool, block: bool) -> (r: EnumVariant)
        ensures
            r@ == (WITH_IDENTS && old(self)@.version != Version::Postbag0_4 && !owns),
            final(self)@ == (DeView {
                owns_block: r@ || owns,
                ..if r@ {
                    with_block(
                        old(self)@,
                        if block {
                            new_block()
                        } else {
                            empty_block()
                        },
                    )
                } else {
                    old(self)@
                }
            }),
    {
        let opened = self.variant_is_tagged(owns);
        if opened {
            if block {
                self.input.start_skippable();
            } else {
                self.input.start_empty_block();
            }
        }
        self.owns_block = opened || owns;
        EnumVariant { block: opened }
    }
}

/// The tag of an enum variant as read: its name, or without identifiers its
/// index.
pub enum VariantId {
    /// The name of the variant.
    Name(String),
    /// The index of the variant.
    Index(u32),
}

/// The payload of an enum variant being read: whether a block was opened
/// for it that has to be closed when the variant ends.
pub struct EnumVariant {
    block: bool,
}

impl View for EnumVariant {
    type V = bool;

    closed spec fn view(&self) -> bool {
        self.block
    }
}

impl EnumVariant {
    /// Ends the variant, closing its block, if it opened one, and skipping
    /// what is left of it.
    pub fn finish<R: ByteSource, const WITH_IDENTS: bool>(
        self,
        de: &mut Deserializer<R, WITH_IDENTS>,
    ) -> (res: Result<(), Error>)
        requires
            self@ ==> top(old(de)@) >= 1,
        ensures
            !self@ ==> res is Ok && final(de)@ == cleared(old(de)@),
            self@ ==> (res is Ok ==> closed_block(cleared(old(de)@), final(de)@)),
            self@ ==> (res matches Err(e) ==> close_failed(cleared(old(de)@), final(de)@, e)),
    {
        de.owns_block = false;
        if self.block {
            de.input.end_skippable()
        } else {
            Ok(())
        }
    }
}

/// The elements of a sequence, or the entries of a map, being read: how
/// many are left, or `None` where the length was not known and each is
/// announced.
pub struct SeqAccess {
    len: Option<usize>,
}

impl View for SeqAccess {
    type V = Option<usize>;

    closed spec fn view(&self) -> Option<usize> {
        self.len
    }
}

impl SeqAccess {
    /// Elements to read: `len` of them, or where `None`, as many as are
    /// announced.
    pub fn new(len: Option<usize>) -> (r: Self)
        ensures
            r@ == len,
    {
        SeqAccess { len }
    }

    /// Whether another element follows.
    pub fn has_next<R: ByteSource, const WITH_IDENTS: bool>(
        &mut self,
        de: &mut Deserializer<R, WITH_IDENTS>,
    ) -> (res: Result<bool, Error>)
        requires
            old(self)@ is None && old(de)@.version == Version::Postbag0_4 ==> top(old(de)@) >= 1,
        ensures
            old(self)@ == Some(0usize) ==> res == Ok::<bool, Error>(false) && final(self)@ == old(self)@
                && final(de)@ == old(de)@,
            old(self)@ matches Some(n) ==> n > 0 ==> res == Ok::<bool, Error>(true) && final(self)@
                == Some((n - 1) as usize) && final(de)@ == old(de)@,
            old(self)@ is None ==> final(self)@ == old(self)@ && announced(old(de)@, final(de)@, res),
    {
        match self.len {
            Some(0) => Ok(false),
            Some(n) => {
                self.len = Some(n - 1);
                Ok(true)
            },
            None => de.has_uncounted_element(),
        }
    }
}

/// The fields of a struct without identifiers being read: how many are
/// left.
pub struct StructSeqAccess {
    len: usize,
}

impl View for StructSeqAccess {
    type V = usize;

    closed spec fn view(&self) -> usize {
        self.len
    }
}

impl StructSeqAccess {
    /// Fields to read: `len` of them.
    pub fn new(len: usize) -> (r: Self)
        ensures
            r@ == len,
    {
        StructSeqAccess { len }
    }

    /// Whether another field follows.
    pub fn has_next(&mut self) -> (r: bool)
        ensures
            r == (old(self)@ > 0),
            final(self)@ == if r {
                (old(self)@ - 1) as usize
            } else {
                old(self)@
            },
    {
        if self.len > 0 {
            self.len = self.len - 1;
            true
        } else {
            false
        }
    }
}

/// The fields of a struct with identifiers being read: how many are left,
/// or `None` where the count was left out and the fields run to the end of
/// the block.
pub struct StructFieldAccess {
    len: Option<usize>,
}

impl View for StructFieldAccess {
    type V = Option<usize>;

    closed spec fn view(&self) -> Option<usize> {
        self.len
    }
}

impl StructFieldAccess {
    /// Fields to read: `len` of them, or where `None`, up to the end of the
    /// block.
    pub fn new(len: Option<usize>) -> (r: Self)
        ensures
            r@ == len,
    {
        StructFieldAccess { len }
    }

    /// Whether another field follows. No field is empty with identifiers,
    /// so running out of block is the end of the fields and nothing else.
    pub fn has_next<R: ByteSource, const WITH_IDENTS: bool>(
        &mut self,
        de: &mut Deserializer<R, WITH_IDENTS>,
    ) -> (res: Result<bool, Error>)
        requires
            old(self)@ is None ==> top(old(de)@) >= 1,
        ensures
            old(self)@ == Some(0usize) ==> res == Ok::<bool, Error>(false) && final(self)@ == old(self)@
                && final(de)@ == old(de)@,
            old(self)@ matches Some(n) ==> n > 0 ==> res == Ok::<bool, Error>(true) && final(self)@
                == Some((n - 1) as usize) && final(de)@ == old(de)@,
            old(self)@ is None ==> final(self)@ == old(self)@,
            old(self)@ is None ==> (res matches Ok(x) ==> took(old(de)@, final(de)@, Seq::empty())
                && forall|rest: Seq<u8>|
                #![trigger level_of(final(de)@.input, rest, top(old(de)@))]
                x == !exhausted(level_of(final(de)@.input, rest, top(old(de)@)))),
            old(self)@ is None ==> (res matches Err(e) ==> read_error(e) && errored(
                old(de)@,
                final(de)@,
                e,
            ) && (!from_source(e) ==> forall|rest: Seq<u8>|
                #![trigger ahead(old(de)@, final(de)@, rest)]
                !read_succeeds(ahead(old(de)@, final(de)@, rest), 0))),
    {
        match self.len {
            Some(0) => Ok(false),
            Some(n) => {
                self.len = Some(n - 1);
                Ok(true)
            },
            None => match de.input.block_exhausted() {
                Ok(x) => Ok(!x),
                Err(e) => Err(e),
            },
        }
    }
}

impl BufferedFieldSeqAccess {
    /// Reads all fields of a struct with identifiers and puts their values
    /// in the order of `fields`, the names of the fields as declared. The
    /// values of fields not declared are dropped. Without a count the
    /// fields run to the end of the block: no field is empty with
    /// identifiers, so that boundary is unambiguous.
    #[verifier::rlimit(100)]
    #[verifier::spinoff_prover]
    pub fn new<R: ByteSource, const WITH_IDENTS: bool>(
        de: &mut Deserializer<R, WITH_IDENTS>,
        fields: &Vec<String>,
        len: Option<usize>,
    ) -> (res: Result<Self, Error>)
        requires
            len is None ==> top(old(de)@) >= 1,
        ensures
            res matches Ok(a) ==> a@.index == 0 && a@.remaining_depth == old(de)@.remaining_depth
                && a@.version == old(de)@.version && a@.field_data.len() == fields@.len(),
            res matches Ok(a) ==> exists|names: Seq<Seq<u8>>, raws: Seq<Seq<u8>>|
                #[trigger] placed(field_names(fields@), names, raws) == a@.field_data && (len matches Some(
                    n,
                ) ==> names.len() == n) && fields_read(
                    old(de)@.input,
                    final(de)@.input,
                    top(old(de)@),
                    names,
                    raws,
                ) && (len is None ==> forall|rest: Seq<u8>|
                    #![trigger level_of(final(de)@.input, rest, top(old(de)@))]
                    exhausted(level_of(final(de)@.input, rest, top(old(de)@)))),
            res is Ok ==> final(de)@.failed == old(de)@.failed && same_state(old(de)@, final(de)@),
            res matches Err(e) ==> read_error(e) || e is UsizeOverflow || e is BadIdentifier,
            len == Some(0usize) ==> res is Ok && final(de)@ == old(de)@,
            res matches Err(e) ==> same_state(old(de)@, final(de)@) && final(de)@.failed == (old(
                de,
            )@.failed || e is Io),
            res matches Err(e) ==> !from_source(e) ==> exists|
                mk: DeView,
                names: Seq<Seq<u8>>,
                raws: Seq<Seq<u8>>,
            |
                #[trigger] fields_read(old(de)@.input, mk.input, top(old(de)@), names, raws)
                    && top(mk) == top(old(de)@) && (len matches Some(n) ==> names.len() < n) && (
                field_failed(mk, final(de)@, e) || (e is UsizeOverflow && names.len() == usize::MAX
                    && mk == final(de)@)),
    {
        let ghost v0 = de@;
        let ghost lvl = top(de@);
        let ghost fs = field_names(fields@);
        let nf = fields.len();
        let mut field_data: Vec<Option<Vec<u8>>> = Vec::new();
        let mut i: usize = 0;
        while i < fields.len()
            invariant
                i <= fields@.len(),
                field_data@.len() == i,
                forall|j: int| 0 <= j < i ==> field_data@[j] is None,
            decreases fields@.len() - i,
        {
            field_data.push(None);
            i = i + 1;
        }
        let ghost mut names: Seq<Seq<u8>> = Seq::empty();
        let ghost mut raws: Seq<Seq<u8>> = Seq::empty();
        proof {
            assert(Self::data_view(field_data@) =~= placed(fs, names, raws));
            lemma_fields_none(v0.input, lvl);
        }
        let mut remaining = len;
        let mut count: usize = 0;
        loop
            invariant
                fs == field_names(fields@),
                nf == fields@.len(),
                field_data@.len() == fields@.len(),
                names.len() == raws.len(),
                names.len() == count,
                len matches Some(n) ==> remaining matches Some(m) && names.len() + m == n,
                len is None ==> remaining is None,
                remaining is None ==> top(de@) >= 1,
                Self::data_view(field_data@) == placed(fs, names, raws),
                lvl == top(v0),
                v0 == old(de)@,
                fields_read(v0.input, de@.input, lvl, names, raws),
                de@.failed == v0.failed,
                same_state(v0, de@),
                len == Some(0usize) ==> de@ == v0,
            ensures
                len == Some(0usize) ==> de@ == v0,
                field_data@.len() == fields@.len(),
                names.len() == raws.len(),
                len matches Some(n) ==> names.len() == n,
                Self::data_view(field_data@) == placed(fs, names, raws),
                fields_read(v0.input, de@.input, lvl, names, raws),
                de@.failed == v0.failed,
                same_state(v0, de@),
                len is None ==> forall|rest: Seq<u8>|
                    #![trigger level_of(de@.input, rest, lvl)]
                    exhausted(level_of(de@.input, rest, lvl)),
            decreases usize::MAX - count,
        {
            match remaining {
                Some(0) => break,
                Some(n) => {
                    remaining = Some(n - 1);
                },
                None => {
                    let ghost mi = de@.input;
                    let ghost vs = de@;
                    match de.input.block_exhausted() {
                        Ok(true) => {
                            proof {
                                lemma_fields_idle(v0.input, mi, de@.input, lvl, names, raws);
                            }
                            break;
                        },
                        Ok(false) => {
                            proof {
                                lemma_fields_idle(v0.input, mi, de@.input, lvl, names, raws);
                            }
                        },
                        Err(e) => {
                            proof {
                                if !from_source(e) {
                                    assert(field_failed(vs, de@, e));
                                    assert(fields_read(v0.input, vs.input, lvl, names, raws));
                                }
                            }
                            return Err(e);
                        },
                    }
                },
            }
            if count == usize::MAX {
                proof {
                    assert(fields_read(v0.input, de@.input, lvl, names, raws));
                }
                return Err(Error::UsizeOverflow);
            }
            let ghost vi = de@;
            let (ident, flag) = match de.read_identifier() {
                Ok(r) => r,
                Err(e) => {
                    proof {
                        if !from_source(e) {
                            assert(field_failed(vi, de@, e));
                            assert(fields_read(v0.input, vi.input, lvl, names, raws));
                        }
                    }
                    return Err(e);
                },
            };
            let ghost va = de@;
            let ghost b = choose|b: Seq<u8>|
                took(vi, va, b) && ident_dec(b) == Some((encode_utf8(ident@), flag));
            let raw = match de.input.read_skippable_block() {
                Ok(r) => r,
                Err(e) => {
                    proof {
                        if !from_source(e) {
                            assert(block_failed(va.input, de@.input, lvl, e));
                            assert(took(vi, va, b) && ident_dec(b) is Some);
                            assert(field_failed(vi, de@, e));
                            assert(fields_read(v0.input, vi.input, lvl, names, raws));
                        }
                    }
                    return Err(e);
                },
            };
            let ghost before = field_data@;
            proof {
                lemma_fields_step(
                    v0.input,
                    vi.input,
                    va.input,
                    de@.input,
                    lvl,
                    names,
                    raws,
                    b,
                    encode_utf8(ident@),
                    raw@,
                );
                lemma_field_slot(fs, encode_utf8(ident@));
                lemma_placed_len(fs, names, raws);
            }
            match Self::field_position(fields, &ident) {
                Some(idx) => {
                    let ghost rv = raw@;
                    field_data.set(idx, Some(raw));
                    proof {
                        assert(Self::data_view(field_data@) =~= Self::data_view(before).update(
                            idx as int,
                            Some(rv),
                        ));
                        let old_names = names;
                        let old_raws = raws;
                        names = names.push(encode_utf8(ident@));
                        raws = raws.push(rv);
                        assert(names.drop_last() =~= old_names);
                        assert(raws.drop_last() =~= old_raws);
                        assert(names.last() == encode_utf8(ident@));
                        assert(raws.last() == rv);
                        assert(field_slot(fs, names.last()) == Some(idx as nat));
                        assert(placed(fs, names, raws) == placed(
                            fs,
                            names.drop_last(),
                            raws.drop_last(),
                        ).update(idx as int, Some(rv)));
                    }
                },
                None => {
                    proof {
                        let rv = raw@;
                        let old_names = names;
                        let old_raws = raws;
                        names = names.push(encode_utf8(ident@));
                        raws = raws.push(rv);
                        assert(names.drop_last() =~= old_names);
                        assert(raws.drop_last() =~= old_raws);
                    }
                },
            }
            count = count + 1;
        }
        proof {
            lemma_placed_len(fs, names, raws);
        }
        let a = BufferedFieldSeqAccess {
            field_data,
            index: 0,
            remaining_depth: de.remaining_depth,
            version: de.version,
        };
        proof {
            assert(a@.field_data == Self::data_view(a.field_data@));
            assert(placed(fs, names, raws) == a@.field_data);
            assert(names.len() == raws.len());
            assert(len matches Some(n) ==> names.len() == n);
            assert(placed(field_names(fields@), names, raws) == a@.field_data);
            assert(fields_read(v0.input, de@.input, top(v0), names, raws));
        }
        Ok(a)
    }

    /// The field values as bytes.
    spec fn data_view(d: Seq<Option<Vec<u8>>>) -> Seq<Option<Seq<u8>>> {
        d.map_values(|o: Option<Vec<u8>>| match o {
            Some(v) => Some(v@),
            None => None,
        })
    }

    /// The position among `fields` of the field named `name`: the last
    /// position with that name.
    fn field_position(fields: &Vec<String>, name: &String) -> (r: Option<usize>)
        ensures
            r == (match field_slot(field_names(fields@), encode_utf8(name@)) {
                Some(k) => Some(k as usize),
                None => None::<usize>,
            }),
    {
        let ghost fs = field_names(fields@);
        let ghost target = encode_utf8(name@);
        let nb = name.as_str().as_bytes();
        let mut i = fields.len();
        assert(fs.take(i as int) =~= fs);
        while i > 0
            invariant
                i <= fields@.len(),
                fs == field_names(fields@),
                target == encode_utf8(name@),
                nb@ == target,
                field_slot(fs, target) == field_slot(fs.take(i as int), target),
            decreases i,
        {
            let f = fields[i - 1].as_str().as_bytes();
            let same = bytes_equal(f, nb);
            proof {
                let t = fs.take(i as int);
                assert(t.drop_last() =~= fs.take(i - 1));
                assert(t.last() == encode_utf8(fields@[i - 1]@));
            }
            if same {
                return Some(i - 1);
            }
            i = i - 1;
        }
        assert(fs.take(0) =~= Seq::<Seq<u8>>::empty());
        None
    }

    /// Hands out the value of the next field that was read, skipping the
    /// positions of fields that were not.
    pub fn next_field_data(&mut self) -> (r: Option<Vec<u8>>)
        ensures
            final(self)@.remaining_depth == old(self)@.remaining_depth,
            final(self)@.version == old(self)@.version,
            r matches Some(v) ==> old(self)@.index < final(self)@.index <= old(self)@.field_data.len()
                && old(self)@.field_data[final(self)@.index - 1] == Some(v@) && (forall|j: int|
                old(self)@.index <= j < final(self)@.index - 1 ==> old(self)@.field_data[j] is None)
                && final(self)@.field_data == old(self)@.field_data.update(
                final(self)@.index - 1,
                None,
            ),
            r is None ==> (forall|j: int|
                old(self)@.index <= j < old(self)@.field_data.len() ==> old(self)@.field_data[j] is None)
                && final(self)@.field_data == old(self)@.field_data && final(self)@.index >= old(
                self,
            )@.field_data.len(),
    {
        while self.index < self.field_data.len()
            invariant
                self.remaining_depth == old(self).remaining_depth,
                self.version == old(self).version,
                self.field_data@ == old(self).field_data@,
                old(self).index <= self.index,
                forall|j: int| old(self).index <= j < self.index ==> old(self).field_data@[j] is None,
            decreases self.field_data@.len() - self.index,
        {
            let idx = self.index;
            self.index = self.index + 1;
            let mut slot: Option<Vec<u8>> = None;
            self.field_data.set_and_swap(idx, &mut slot);
            match slot {
                Some(raw) => {
                    proof {
                        assert(self@.field_data =~= old(self)@.field_data.update(idx as int, None));
                    }
                    return Some(raw);
                },
                None => {
                    proof {
                        assert(self.field_data@ =~= old(self).field_data@);
                    }
                },
            }
        }
        None
    }

    /// How many more levels of nesting the values may have.
    pub fn remaining_depth(&self) -> (r: usize)
        ensures
            r == self@.remaining_depth,
    {
        self.remaining_depth
    }

    /// The version of the data format the values are in.
    pub fn version(&self) -> (r: Version)
        ensures
            r == self@.version,
    {
        self.version
    }

    /// How many values are still to be handed out.
    pub fn size_hint(&self) -> (r: usize)
        ensures
            r == Self::filled(self@.field_data, self@.index as int),
    {
        let mut count: usize = 0;
        let n = self.field_data.len();
        let mut i: usize = n;
        while i > self.index
            invariant
                n == self.field_data@.len(),
                i <= self.field_data@.len(),
                i >= self.index || i == self.field_data@.len(),
                count == Self::filled(self@.field_data, i as int),
                count <= self.field_data@.len() - i,
            decreases i,
        {
            i = i - 1;
            if self.field_data[i].is_some() {
                count = count + 1;
            }
        }
        count
    }

    /// How many of the values from position `from` on were read.
    pub open spec fn filled(d: Seq<Option<Seq<u8>>>, from: int) -> nat
        decreases d.len() - from,
    {
        if from >= d.len() {
            0
        } else {
            (if d[from] is Some {
                1nat
            } else {
                0nat
            }) + Self::filled(d, from + 1)
        }
    }
}

/// Whether two runs of bytes are the same.
fn bytes_equal(a: &[u8], b: &[u8]) -> (r: bool)
    ensures
        r == (a@ == b@),
{
    if a.len() != b.len() {
        return false;
    }
    let mut i: usize = 0;
    while i < a.len()
        invariant
            a@.len() == b@.len(),
            i <= a@.len(),
            forall|j: int| 0 <= j < i ==> a@[j] == b@[j],
        decreases a@.len() - i,
    {
        if a[i] != b[i] {
            return false;
        }
        i = i + 1;
    }
    assert(a@ =~= b@);
    true
}

} // verus!
