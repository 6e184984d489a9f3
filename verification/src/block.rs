//! Blocks: self-delimiting runs of bytes, and what a reader sees through them.
//!
//! A block is divided into chunks, each a 16-bit varint length followed by
//! that many bytes. A chunk of [`MAX_CHUNK`] bytes means that another chunk
//! follows; a shorter one ends the block. Blocks nest: the framing of an inner
//! block is content of the outer one.
//!
//! The reader is described by what each level of nesting still has to
//! deliver: a [`Stream`] of bytes, and how it ends.

use vstd::prelude::*;

use crate::varint::{
    MAX_LAST_U16, VARINT_MAX_U16, VarintParse, lemma_varint_parse_prefix, varint_enc, varint_parse,
    varint_u16_round_trip,
};

verus! {

/// The length of a chunk that is followed by another chunk.
pub const MAX_CHUNK: usize = 65535;

/// Why a read found no more bytes.
pub enum ReadFail {
    /// The block ended.
    EndOfBlock,
    /// A chunk length was not a valid 16-bit varint.
    BadVarint,
    /// The byte source delivered no more.
    Source,
}

/// How the bytes of a stream end.
pub enum StreamEnd {
    /// The block ends here.
    Clean,
    /// Whether more bytes follow cannot be told: reading further fails so.
    Fail(ReadFail),
    /// More bytes were announced, but reading them fails so.
    Short(ReadFail),
}

/// The bytes one level of nesting still delivers, and how they end.
pub struct Stream {
    /// The bytes.
    pub bytes: Seq<u8>,
    /// How they end.
    pub end: StreamEnd,
}

/// How a read beyond the end of a stream fails.
pub open spec fn fail_of(end: StreamEnd) -> ReadFail {
    match end {
        StreamEnd::Clean => ReadFail::EndOfBlock,
        StreamEnd::Fail(f) => f,
        StreamEnd::Short(f) => f,
    }
}

/// The stream with `d` in front of it.
pub open spec fn prepend(d: Seq<u8>, s: Stream) -> Stream {
    Stream { bytes: d + s.bytes, end: s.end }
}

/// The stream without its first `n` bytes.
pub open spec fn skip(s: Stream, n: nat) -> Stream {
    Stream { bytes: s.bytes.skip(n as int), end: s.end }
}

/// What a byte source that will deliver `rest` looks like to a reader.
pub open spec fn source_stream(rest: Seq<u8>) -> Stream {
    Stream { bytes: rest, end: StreamEnd::Short(ReadFail::Source) }
}

/// The framing of `c` as a block.
pub open spec fn encode_block(c: Seq<u8>) -> Seq<u8>
    decreases c.len(),
{
    if c.len() < MAX_CHUNK {
        varint_enc(c.len()) + c
    } else {
        varint_enc(MAX_CHUNK as nat) + c.take(MAX_CHUNK as int) + encode_block(
            c.skip(MAX_CHUNK as int),
        )
    }
}

/// A varint read from some bytes takes at least one of them and no more than
/// there are.
pub proof fn lemma_varint_parse_len(s: Seq<u8>, max_len: nat, max_last: nat)
    ensures
        varint_parse(s, max_len, max_last) matches VarintParse::Value(v, k) ==> 1 <= k <= s.len()
            && k <= max_len,
    decreases max_len,
{
    if max_len > 1 && s.len() > 0 && s[0] >= 128 {
        lemma_varint_parse_len(s.drop_first(), (max_len - 1) as nat, max_last);
    }
}

/// Reads the block at the front of a stream: its content and, where it ends
/// cleanly, how many bytes of the stream it took.
pub open spec fn unframe(s: Stream) -> (Stream, nat)
    decreases s.bytes.len(),
{
    match varint_parse(s.bytes, VARINT_MAX_U16 as nat, MAX_LAST_U16 as nat) {
        VarintParse::Bad => (
            Stream { bytes: Seq::empty(), end: StreamEnd::Fail(ReadFail::BadVarint) },
            0,
        ),
        VarintParse::Short => (
            Stream { bytes: Seq::empty(), end: StreamEnd::Fail(fail_of(s.end)) },
            0,
        ),
        VarintParse::Value(v, k) => {
            let rest = s.bytes.skip(k as int);
            if rest.len() < v {
                (Stream { bytes: rest, end: StreamEnd::Short(fail_of(s.end)) }, 0)
            } else if v < MAX_CHUNK {
                (Stream { bytes: rest.take(v as int), end: StreamEnd::Clean }, k + v)
            } else {
                proof {
                    lemma_varint_parse_len(s.bytes, VARINT_MAX_U16 as nat, MAX_LAST_U16 as nat);
                }
                let (c, u) = unframe(Stream { bytes: rest.skip(v as int), end: s.end });
                (Stream { bytes: rest.take(v as int) + c.bytes, end: c.end }, k + v + u)
            }
        },
    }
}

/// The content of a block holds no more bytes than the stream it is read
/// from.
pub proof fn lemma_unframe_bytes(s: Stream)
    ensures
        unframe(s).0.bytes.len() <= s.bytes.len(),
    decreases s.bytes.len(),
{
    lemma_varint_parse_len(s.bytes, VARINT_MAX_U16 as nat, MAX_LAST_U16 as nat);
    if let VarintParse::Value(v, k) = varint_parse(
        s.bytes,
        VARINT_MAX_U16 as nat,
        MAX_LAST_U16 as nat,
    ) {
        let rest = s.bytes.skip(k as int);
        if rest.len() >= v && v >= MAX_CHUNK {
            lemma_unframe_bytes(Stream { bytes: rest.skip(v as int), end: s.end });
        }
    }
}

/// A level of nesting delivers no more bytes than the stream below it all.
pub proof fn lemma_view_bytes(base: Stream, frames: Seq<Frame>, i: nat)
    ensures
        view(base, frames, i).bytes.len() <= base.bytes.len(),
    decreases i,
{
    if i > 0 {
        lemma_view_bytes(base, frames, (i - 1) as nat);
        let lower = view(base, frames, (i - 1) as nat);
        let f = frames[i - 1];
        let r = f.remaining as nat;
        if lower.bytes.len() >= r && f.has_next {
            lemma_unframe_bytes(skip(lower, r));
        }
    }
}

/// A block that ends cleanly takes no more bytes than the stream has.
pub proof fn lemma_unframe_len(s: Stream)
    ensures
        unframe(s).0.end is Clean ==> unframe(s).1 <= s.bytes.len(),
    decreases s.bytes.len(),
{
    lemma_varint_parse_len(s.bytes, VARINT_MAX_U16 as nat, MAX_LAST_U16 as nat);
    if let VarintParse::Value(v, k) = varint_parse(
        s.bytes,
        VARINT_MAX_U16 as nat,
        MAX_LAST_U16 as nat,
    ) {
        let rest = s.bytes.skip(k as int);
        if rest.len() >= v && v >= MAX_CHUNK {
            lemma_unframe_len(Stream { bytes: rest.skip(v as int), end: s.end });
        }
    }
}

/// The state of one open block: how many bytes of its current chunk are
/// left, and whether another chunk follows.
#[derive(Clone, Copy, Debug)]
pub struct Frame {
    /// Bytes left in the current chunk.
    pub remaining: usize,
    /// Whether another chunk follows the current one.
    pub has_next: bool,
}

/// What a block in state `f` delivers from a level that delivers `lower`, and
/// what that level delivers once the block has ended, where it ends cleanly.
pub open spec fn frame_content(lower: Stream, f: Frame) -> (Stream, Option<Stream>) {
    let r = f.remaining as nat;
    if lower.bytes.len() < r {
        (Stream { bytes: lower.bytes, end: StreamEnd::Short(fail_of(lower.end)) }, None)
    } else if !f.has_next {
        (Stream { bytes: lower.bytes.take(r as int), end: StreamEnd::Clean }, Some(skip(lower, r)))
    } else {
        let (c, u) = unframe(skip(lower, r));
        (
            Stream { bytes: lower.bytes.take(r as int) + c.bytes, end: c.end },
            if c.end is Clean {
                Some(skip(lower, r + u))
            } else {
                None
            },
        )
    }
}

/// What level `i` of nesting delivers, level 0 being the byte source itself.
pub open spec fn view(base: Stream, frames: Seq<Frame>, i: nat) -> Stream
    decreases i,
{
    if i == 0 {
        base
    } else {
        frame_content(view(base, frames, (i - 1) as nat), frames[i - 1]).0
    }
}

/// What level `i` delivers once its block `i` has ended.
pub open spec fn after(base: Stream, frames: Seq<Frame>, i: nat) -> Option<Stream> {
    frame_content(view(base, frames, i), frames[i as int]).1
}

/// What a reader with these open blocks sees: what the innermost block still
/// delivers, and for each open block what the level around it delivers after
/// it.
pub struct ReadState {
    /// What the innermost open block still delivers.
    pub top: Stream,
    /// For each open block, what the level around it delivers after it.
    pub afters: Seq<Option<Stream>>,
}

/// The reader state of the open blocks `frames` over a byte source that will
/// deliver `rest`.
pub open spec fn read_state(frames: Seq<Frame>, rest: Seq<u8>) -> ReadState {
    let base = source_stream(rest);
    ReadState {
        top: view(base, frames, frames.len()),
        afters: Seq::new(frames.len(), |i: int| after(base, frames, i as nat)),
    }
}

/// Only the blocks below a level decide what it delivers.
pub proof fn lemma_view_prefix(base: Stream, f1: Seq<Frame>, f2: Seq<Frame>, i: nat)
    requires
        i <= f1.len(),
        i <= f2.len(),
        forall|j: int| 0 <= j < i ==> f1[j] == f2[j],
    ensures
        view(base, f1, i) == view(base, f2, i),
    decreases i,
{
    if i > 0 {
        lemma_view_prefix(base, f1, f2, (i - 1) as nat);
    }
}

/// Reading `t` through a block whose current chunk has at least that many
/// bytes left shortens the chunk by as much, and leaves what follows the
/// block as it was.
pub proof fn lemma_frame_take(t: Seq<u8>, s: Stream, f: Frame)
    requires
        t.len() <= f.remaining,
    ensures
        frame_content(prepend(t, s), f).0 == prepend(
            t,
            frame_content(s, Frame { remaining: (f.remaining - t.len()) as usize, ..f }).0,
        ),
        frame_content(prepend(t, s), f).1 == frame_content(
            s,
            Frame { remaining: (f.remaining - t.len()) as usize, ..f },
        ).1,
{
    let g = Frame { remaining: (f.remaining - t.len()) as usize, ..f };
    let r = f.remaining as nat;
    let q = g.remaining as nat;
    let ps = prepend(t, s);
    if ps.bytes.len() >= r {
        assert(ps.bytes.take(r as int) =~= t + s.bytes.take(q as int));
        assert(ps.bytes.skip(r as int) =~= s.bytes.skip(q as int));
        if f.has_next {
            let (c, u) = unframe(skip(ps, r));
            assert(skip(ps, r) == skip(s, q));
            assert(ps.bytes.take(r as int) + c.bytes =~= t + (s.bytes.take(q as int) + c.bytes));
            lemma_unframe_len(skip(s, q));
            if c.end is Clean {
                assert(ps.bytes.skip((r + u) as int) =~= s.bytes.skip((q + u) as int));
            }
        }
    }
}

/// Reading the length of a chunk at the start of a block leaves what the
/// block delivers, and what follows it, as they were.
pub proof fn lemma_frame_header(h: Seq<u8>, s: Stream, v: nat)
    requires
        varint_parse(h, VARINT_MAX_U16 as nat, MAX_LAST_U16 as nat) == VarintParse::Value(
            v,
            h.len(),
        ),
        v <= MAX_CHUNK,
    ensures
        frame_content(prepend(h, s), Frame { remaining: 0, has_next: true }) == frame_content(
            s,
            Frame { remaining: v as usize, has_next: v == MAX_CHUNK },
        ),
{
    let ps = prepend(h, s);
    lemma_varint_parse_prefix(h, s.bytes, VARINT_MAX_U16 as nat, MAX_LAST_U16 as nat);
    assert(skip(ps, 0) == ps) by {
        assert(ps.bytes.skip(0) =~= ps.bytes);
    }
    assert(ps.bytes.skip(h.len() as int) =~= s.bytes);
    assert(ps.bytes.take(0) =~= Seq::<u8>::empty());
    let (c, u) = unframe(ps);
    if s.bytes.len() >= v {
        if v < MAX_CHUNK {
            assert(Seq::<u8>::empty() + c.bytes =~= c.bytes);
            assert(ps.bytes.skip(u as int) =~= s.bytes.skip(v as int));
        } else {
            let (c2, u2) = unframe(Stream { bytes: s.bytes.skip(v as int), end: s.end });
            assert(Seq::<u8>::empty() + c.bytes =~= s.bytes.take(v as int) + c2.bytes);
            lemma_unframe_len(Stream { bytes: s.bytes.skip(v as int), end: s.end });
            if c2.end is Clean {
                assert(ps.bytes.skip(u as int) =~= s.bytes.skip((v + u2) as int));
            }
        }
    } else {
        assert(Seq::<u8>::empty() + c.bytes =~= c.bytes);
    }
}

/// The encoding of a block, whatever follows it, is read back as the content
/// it was made of, ending cleanly where the encoding ends.
pub proof fn block_round_trip(c: Seq<u8>, rest: Stream)
    ensures
        unframe(prepend(encode_block(c), rest)) == (
            Stream { bytes: c, end: StreamEnd::Clean },
            encode_block(c).len(),
        ),
    decreases c.len(),
{
    let e = encode_block(c);
    let ps = prepend(e, rest);
    if c.len() < MAX_CHUNK {
        let h = varint_enc(c.len());
        varint_u16_round_trip(c.len() as u16, c + rest.bytes);
        assert(ps.bytes =~= h + (c + rest.bytes));
        assert(ps.bytes.skip(h.len() as int) =~= c + rest.bytes);
        assert((c + rest.bytes).take(c.len() as int) =~= c);
    } else {
        let h = varint_enc(MAX_CHUNK as nat);
        let first = c.take(MAX_CHUNK as int);
        let more = c.skip(MAX_CHUNK as int);
        let tail = encode_block(more);
        block_round_trip(more, rest);
        varint_u16_round_trip(MAX_CHUNK as u16, first + tail + rest.bytes);
        assert(ps.bytes =~= h + (first + tail + rest.bytes));
        let body = first + tail + rest.bytes;
        assert(ps.bytes.skip(h.len() as int) =~= body);
        assert(body.take(MAX_CHUNK as int) =~= first);
        assert(body.skip(MAX_CHUNK as int) =~= tail + rest.bytes);
        assert(prepend(tail, rest) == Stream { bytes: body.skip(MAX_CHUNK as int), end: rest.end });
        assert(first + more =~= c);
    }
}

} // verus!
