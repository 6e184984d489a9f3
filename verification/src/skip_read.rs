//! Reading through nested blocks.
//!
//! A [`SkipRead`] pulls bytes from a [`ByteSource`] and keeps track of the
//! blocks that are open. A read from within a block is bounded by it, and a
//! block that is closed before its content has all been read is skipped to
//! its end.
//!
//! What the reader does is stated over [`read_state`]: for a source that will
//! deliver some bytes from now on, what the innermost block still holds and,
//! for each open block, what follows it. Since the source delivers bytes only
//! as they are read, every statement holds whatever it delivers next.

use vstd::prelude::*;

use crate::block::{
    Frame, MAX_CHUNK, ReadFail, ReadState, Stream, StreamEnd, after, fail_of, frame_content,
    lemma_frame_header, lemma_frame_take, lemma_view_bytes, lemma_view_prefix, prepend, read_state, skip,
    source_stream, unframe, view,
};
use crate::error::{Error, io_error_from_kind, io_error_kind};
use crate::source::{ByteSource, eof_error};
use crate::varint::{
    MAX_LAST_U16, VARINT_MAX_U16, VarintParse, lemma_pow128_bound, lemma_varint_bounds,
    lemma_varint_continue, lemma_varint_low_bound, lemma_varint_low_push,
    lemma_varint_parse_bound, varint_bound, varint_lift, varint_low, varint_parse,
};

verus! {

/// How much is asked of the byte source at a time for a read whose length
/// the input claims but has not yet delivered.
pub const READ_CHUNK: usize = 65536;

/// What a reader holds: its open blocks, and the bytes its source delivered.
pub struct Model {
    /// The state of each open block, outermost first.
    pub frames: Seq<Frame>,
    /// Every byte the source has delivered.
    pub log: Seq<u8>,
}

/// What level `i` delivers, for a source that will deliver `rest`.
pub open spec fn level_of(m: Model, rest: Seq<u8>, i: nat) -> Stream {
    view(source_stream(rest), m.frames, i)
}

/// What level `i` delivers after its block `i`.
pub open spec fn after_of(m: Model, rest: Seq<u8>, i: nat) -> Option<Stream> {
    after(source_stream(rest), m.frames, i)
}

/// The source delivered more from `m0` to `m1`.
pub open spec fn log_grew(m0: Model, m1: Model) -> bool {
    &&& m0.log.len() <= m1.log.len()
    &&& m1.log.take(m0.log.len() as int) == m0.log
}

/// `m1` follows `m0`: the source delivered more, and as many blocks are open.
pub open spec fn extends(m0: Model, m1: Model) -> bool {
    &&& log_grew(m0, m1)
    &&& m1.frames.len() == m0.frames.len()
}

/// The bytes delivered between `m0` and `m1`.
pub open spec fn fresh(m0: Model, m1: Model) -> Seq<u8> {
    m1.log.skip(m0.log.len() as int)
}

/// Going from `m0` to `m1` read `taken` at level `level`, and left the levels
/// below it as they were, but for what they delivered to it.
pub open spec fn moved_at(m0: Model, m1: Model, level: nat, taken: Seq<u8>) -> bool {
    &&& extends(m0, m1)
    &&& level <= m0.frames.len()
    &&& forall|j: int| level <= j < m0.frames.len() ==> m1.frames[j] == m0.frames[j]
    &&& forall|rest: Seq<u8>|
        #![trigger level_of(m1, rest, level)]
        level_of(m0, fresh(m0, m1) + rest, level) == prepend(taken, level_of(m1, rest, level))
    &&& forall|rest: Seq<u8>, i: nat|
        #![trigger after_of(m1, rest, i)]
        i < level ==> after_of(m0, fresh(m0, m1) + rest, i) == after_of(m1, rest, i)
}

/// Whether reading `n` bytes from a level delivering `v` succeeds.
pub open spec fn read_succeeds(v: Stream, n: nat) -> bool {
    n <= v.bytes.len() && !(n == 0 && v.bytes.len() == 0 && v.end is Fail)
}

/// Whether an error is the one a read failing so reports.
pub open spec fn fail_is(f: ReadFail, e: Error) -> bool {
    match f {
        ReadFail::EndOfBlock => e is EndOfBlock,
        ReadFail::BadVarint => e is BadVarint,
        ReadFail::Source => e is Io,
    }
}

/// A read of `n` bytes at `level`, starting from `m0`, failed with `e`, which
/// is what that level has in store.
pub open spec fn failed_at(m0: Model, m1: Model, level: nat, n: nat, e: Error) -> bool {
    &&& extends(m0, m1)
    &&& forall|rest: Seq<u8>|
        #![trigger level_of(m0, fresh(m0, m1) + rest, level)]
        !read_succeeds(level_of(m0, fresh(m0, m1) + rest, level), n) && fail_is(
            fail_of(level_of(m0, fresh(m0, m1) + rest, level).end),
            e,
        )
}

/// A read of nothing at `level`, going from `m0` to `m1`, failed with `e`.
///
/// Such a read makes sure that each block, from the innermost down, has
/// bytes ready in its current chunk or has ended, reading the length of its
/// next chunk where it has none; it fails where one of them cannot. Lower
/// blocks are reached only through those above them, so each is asked once
/// the ones above it are ready.
pub open spec fn touch_failed(m0: Model, m1: Model, level: nat, e: Error) -> bool
    decreases level,
{
    if level == 0 {
        false
    } else {
        ||| failed_at(m0, m1, level, 0, e)
        ||| exists|mid: Model|
            #[trigger] moved_at(m0, mid, level, Seq::empty()) && touch_failed(
                mid,
                m1,
                (level - 1) as nat,
                e,
            )
    }
}

/// A varint read at `level`, starting from `m0`, failed with `e`: the level
/// holds no varint of that shape.
pub open spec fn varint_failed(m0: Model, m1: Model, level: nat, max_len: nat, max_last: nat, e: Error) -> bool {
    forall|rest: Seq<u8>|
        #![trigger level_of(m0, fresh(m0, m1) + rest, level)]
        {
            let v = level_of(m0, fresh(m0, m1) + rest, level);
            match varint_parse(v.bytes, max_len, max_last) {
                VarintParse::Bad => e is BadVarint,
                VarintParse::Short => fail_is(fail_of(v.end), e),
                VarintParse::Value(_, _) => false,
            }
        }
}

/// Closing the block below `level`, starting from `m0`, failed with `e`:
/// what the block holds does not end cleanly.
pub open spec fn closing_failed(m0: Model, m1: Model, level: nat, e: Error) -> bool {
    &&& extends(m0, m1)
    &&& forall|rest: Seq<u8>|
        #![trigger level_of(m0, fresh(m0, m1) + rest, level)]
        !(level_of(m0, fresh(m0, m1) + rest, level).end is Clean) && fail_is(
            fail_of(level_of(m0, fresh(m0, m1) + rest, level).end),
            e,
        )
}

/// A read failing partway through a varint.
pub proof fn lemma_varint_read_failed(
    m0: Model,
    m1: Model,
    m2: Model,
    level: nat,
    h: Seq<u8>,
    max_len: nat,
    max_last: nat,
    e: Error,
)
    requires
        moved_at(m0, m1, level, h),
        failed_at(m1, m2, level, 1, e),
        h.len() < max_len,
        forall|j: int| 0 <= j < h.len() ==> h[j] >= 128,
    ensures
        extends(m0, m2),
        varint_failed(m0, m2, level, max_len, max_last, e),
{
    lemma_fresh_compose(m0, m1, m2);
    assert forall|rest: Seq<u8>| #[trigger]
        level_of(m0, fresh(m0, m2) + rest, level) == level_of(m0, fresh(m0, m2) + rest, level) implies {
        let v = level_of(m0, fresh(m0, m2) + rest, level);
        match varint_parse(v.bytes, max_len, max_last) {
            VarintParse::Bad => e is BadVarint,
            VarintParse::Short => fail_is(fail_of(v.end), e),
            VarintParse::Value(_, _) => false,
        }
    } by {
        lemma_moved_then_failed(m0, m1, m2, level, h, rest);
        let w = level_of(m1, fresh(m1, m2) + rest, level);
        assert(!read_succeeds(w, 1));
        assert(w.bytes.len() == 0);
        lemma_varint_continue(h, w.bytes, max_len, max_last);
        assert(h + w.bytes =~= h);
    }
}

/// A read of bytes that are no varint of the shape.
pub proof fn lemma_varint_read_bad(m0: Model, m2: Model, level: nat, hb: Seq<u8>, max_len: nat, max_last: nat)
    requires
        moved_at(m0, m2, level, hb),
        varint_parse(hb, max_len, max_last) is Bad,
    ensures
        varint_failed(m0, m2, level, max_len, max_last, Error::BadVarint),
{
    assert forall|rest: Seq<u8>| #[trigger]
        level_of(m0, fresh(m0, m2) + rest, level) == level_of(m0, fresh(m0, m2) + rest, level) implies {
        let v = level_of(m0, fresh(m0, m2) + rest, level);
        match varint_parse(v.bytes, max_len, max_last) {
            VarintParse::Bad => Error::BadVarint is BadVarint,
            VarintParse::Short => fail_is(fail_of(v.end), Error::BadVarint),
            VarintParse::Value(_, _) => false,
        }
    } by {
        let w = level_of(m2, rest, level);
        crate::varint::lemma_varint_parse_prefix(hb, w.bytes, max_len, max_last);
    }
}

/// Whether an error comes from the byte source.
pub open spec fn from_source(e: Error) -> bool {
    e is Io
}

/// Whether an error is one that reading bytes ends in.
pub open spec fn read_error(e: Error) -> bool {
    e is Io || e is EndOfBlock || e is BadVarint
}

/// The bytes delivered from `m0` to `m2` are those delivered from `m0` to
/// `m1`, then those from `m1` to `m2`.
pub proof fn lemma_fresh_compose(m0: Model, m1: Model, m2: Model)
    requires
        log_grew(m0, m1),
        log_grew(m1, m2),
    ensures
        log_grew(m0, m2),
        fresh(m0, m2) == fresh(m0, m1) + fresh(m1, m2),
{
    assert(m2.log.take(m0.log.len() as int) =~= m1.log.take(m0.log.len() as int)) by {
        assert forall|j: int| 0 <= j < m0.log.len() implies m2.log[j] == m1.log[j] by {
            assert(m2.log.take(m1.log.len() as int)[j] == m2.log[j]);
        }
    }
    assert(fresh(m0, m2) =~= fresh(m0, m1) + fresh(m1, m2)) by {
        assert forall|j: int| m0.log.len() <= j < m1.log.len() implies m2.log[j] == m1.log[j] by {
            assert(m2.log.take(m1.log.len() as int)[j] == m2.log[j]);
        }
    }
}

/// A move reads no more bytes than the source delivered for it.
pub proof fn lemma_moved_fresh(m0: Model, m1: Model, level: nat, t: Seq<u8>)
    requires
        moved_at(m0, m1, level, t),
    ensures
        t.len() <= fresh(m0, m1).len(),
{
    let r = Seq::<u8>::empty();
    assert(fresh(m0, m1) + r =~= fresh(m0, m1));
    assert(level_of(m0, fresh(m0, m1) + r, level) == prepend(t, level_of(m1, r, level)));
    lemma_view_bytes(source_stream(fresh(m0, m1)), m0.frames, level);
}

/// Two moves at the same level in a row are one move that read what both did.
pub proof fn lemma_moved_compose(m0: Model, m1: Model, m2: Model, level: nat, t1: Seq<u8>, t2: Seq<u8>)
    requires
        moved_at(m0, m1, level, t1),
        moved_at(m1, m2, level, t2),
    ensures
        moved_at(m0, m2, level, t1 + t2),
{
    lemma_fresh_compose(m0, m1, m2);
    assert forall|rest: Seq<u8>| #[trigger]
        level_of(m2, rest, level) == level_of(m2, rest, level) implies level_of(
        m0,
        fresh(m0, m2) + rest,
        level,
    ) == prepend(t1 + t2, level_of(m2, rest, level)) by {
        let r1 = fresh(m1, m2) + rest;
        assert(fresh(m0, m2) + rest =~= fresh(m0, m1) + r1);
        assert(level_of(m0, fresh(m0, m1) + r1, level) == prepend(t1, level_of(m1, r1, level)));
        assert(level_of(m1, r1, level) == prepend(t2, level_of(m2, rest, level)));
        assert(t1 + (t2 + level_of(m2, rest, level).bytes) =~= (t1 + t2) + level_of(
            m2,
            rest,
            level,
        ).bytes);
    }
    assert forall|rest: Seq<u8>, i: nat| #[trigger] after_of(m2, rest, i) == after_of(m2, rest, i)
        && i < level implies after_of(m0, fresh(m0, m2) + rest, i) == after_of(m2, rest, i) by {
        let r1 = fresh(m1, m2) + rest;
        assert(fresh(m0, m2) + rest =~= fresh(m0, m1) + r1);
        assert(after_of(m0, fresh(m0, m1) + r1, i) == after_of(m1, r1, i));
        assert(after_of(m1, r1, i) == after_of(m2, rest, i));
    }
}

/// A move followed by a failure: what the level had in store is what was
/// read, then what the failing read found.
pub proof fn lemma_moved_then_failed(
    m0: Model,
    m1: Model,
    m2: Model,
    level: nat,
    t: Seq<u8>,
    rest: Seq<u8>,
)
    requires
        moved_at(m0, m1, level, t),
        log_grew(m1, m2),
    ensures
        log_grew(m0, m2),
        level_of(m0, fresh(m0, m2) + rest, level) == prepend(
            t,
            level_of(m1, fresh(m1, m2) + rest, level),
        ),
{
    lemma_fresh_compose(m0, m1, m2);
    let r1 = fresh(m1, m2) + rest;
    assert(fresh(m0, m2) + rest =~= fresh(m0, m1) + r1);
    assert(level_of(m0, fresh(m0, m1) + r1, level) == prepend(t, level_of(m1, r1, level)));
}

/// A read that fails for want of nothing fails for want of more.
pub proof fn lemma_failed_widen(m0: Model, m1: Model, level: nat, n: nat, e: Error)
    requires
        failed_at(m0, m1, level, 0, e),
    ensures
        failed_at(m0, m1, level, n, e),
{
    assert forall|rest: Seq<u8>| #[trigger]
        level_of(m0, fresh(m0, m1) + rest, level) == level_of(m0, fresh(m0, m1) + rest, level) implies
        !read_succeeds(level_of(m0, fresh(m0, m1) + rest, level), n) && fail_is(
        fail_of(level_of(m0, fresh(m0, m1) + rest, level).end),
        e,
    ) by {
        assert(!read_succeeds(level_of(m0, fresh(m0, m1) + rest, level), 0));
    }
}

/// A read that fails for want of `n` bytes fails for want of more.
pub proof fn lemma_failed_more(m0: Model, m1: Model, level: nat, n: nat, n2: nat, e: Error)
    requires
        failed_at(m0, m1, level, n, e),
        0 < n <= n2,
    ensures
        failed_at(m0, m1, level, n2, e),
{
    assert forall|rest: Seq<u8>| #[trigger]
        level_of(m0, fresh(m0, m1) + rest, level) == level_of(m0, fresh(m0, m1) + rest, level) implies
        !read_succeeds(level_of(m0, fresh(m0, m1) + rest, level), n2) && fail_is(
        fail_of(level_of(m0, fresh(m0, m1) + rest, level).end),
        e,
    ) by {
        assert(!read_succeeds(level_of(m0, fresh(m0, m1) + rest, level), n));
    }
}

/// A move followed by a failing read is a failing read of what was read
/// and what was missing.
pub proof fn lemma_moved_failed(
    m0: Model,
    m1: Model,
    m2: Model,
    level: nat,
    t: Seq<u8>,
    n: nat,
    e: Error,
)
    requires
        moved_at(m0, m1, level, t),
        failed_at(m1, m2, level, n, e),
        n > 0,
    ensures
        extends(m0, m2),
        failed_at(m0, m2, level, t.len() + n, e),
{
    lemma_fresh_compose(m0, m1, m2);
    assert forall|rest: Seq<u8>| #[trigger]
        level_of(m0, fresh(m0, m2) + rest, level) == level_of(m0, fresh(m0, m2) + rest, level) implies
        !read_succeeds(level_of(m0, fresh(m0, m2) + rest, level), t.len() + n) && fail_is(
        fail_of(level_of(m0, fresh(m0, m2) + rest, level).end),
        e,
    ) by {
        lemma_moved_then_failed(m0, m1, m2, level, t, rest);
        let w = level_of(m1, fresh(m1, m2) + rest, level);
        assert(!read_succeeds(w, n));
    }
}

/// Reading the length `v` of the next chunk as `h` at level `idx` leaves what
/// the block at `idx` delivers, and what follows it, as they were.
pub proof fn lemma_header_read(m0: Model, m1: Model, m2: Model, idx: nat, h: Seq<u8>, v: nat)
    requires
        moved_at(m0, m1, idx, h),
        idx < m0.frames.len(),
        m0.frames[idx as int] == (Frame { remaining: 0, has_next: true }),
        varint_parse(h, VARINT_MAX_U16 as nat, MAX_LAST_U16 as nat) == VarintParse::Value(
            v,
            h.len(),
        ),
        v <= MAX_CHUNK,
        m2.log == m1.log,
        m2.frames == m1.frames.update(
            idx as int,
            Frame { remaining: v as usize, has_next: v == MAX_CHUNK },
        ),
    ensures
        moved_at(m0, m2, idx + 1, Seq::empty()),
{
    assert(fresh(m0, m2) == fresh(m0, m1));
    assert forall|rest: Seq<u8>| #[trigger] level_of(m2, rest, idx) == level_of(m1, rest, idx) by {
        lemma_view_prefix(source_stream(rest), m2.frames, m1.frames, idx);
    }
    assert forall|rest: Seq<u8>| #[trigger]
        level_of(m2, rest, idx + 1) == level_of(m2, rest, idx + 1) implies level_of(
        m0,
        fresh(m0, m2) + rest,
        idx + 1,
    ) == prepend(Seq::empty(), level_of(m2, rest, idx + 1)) by {
        let s = level_of(m1, rest, idx);
        assert(level_of(m0, fresh(m0, m1) + rest, idx) == prepend(h, s));
        lemma_frame_header(h, s, v);
        assert(level_of(m2, rest, idx) == s);
        assert(Seq::<u8>::empty() + level_of(m2, rest, idx + 1).bytes =~= level_of(
            m2,
            rest,
            idx + 1,
        ).bytes);
    }
    assert forall|rest: Seq<u8>, i: nat| #[trigger] after_of(m2, rest, i) == after_of(m2, rest, i)
        && i < idx + 1 implies after_of(m0, fresh(m0, m2) + rest, i) == after_of(m2, rest, i) by {
        let s = level_of(m1, rest, idx);
        assert(level_of(m2, rest, idx) == s);
        if i < idx {
            assert(after_of(m0, fresh(m0, m1) + rest, i) == after_of(m1, rest, i));
            lemma_view_prefix(source_stream(rest), m2.frames, m1.frames, i);
            assert(m2.frames[i as int] == m1.frames[i as int]);
        } else {
            assert(level_of(m0, fresh(m0, m1) + rest, idx) == prepend(h, s));
            lemma_frame_header(h, s, v);
        }
    }
}

/// The block at `idx` has no bytes left and no more chunks: a read from it
/// fails at the end of the block.
pub proof fn lemma_end_of_block(m0: Model, m1: Model, idx: nat, n: nat)
    requires
        moved_at(m0, m1, idx + 1, Seq::empty()),
        idx < m1.frames.len(),
        m1.frames[idx as int].remaining == 0,
        !m1.frames[idx as int].has_next,
        n > 0,
    ensures
        failed_at(m0, m1, idx + 1, n, Error::EndOfBlock),
{
    assert forall|rest: Seq<u8>| #[trigger]
        level_of(m0, fresh(m0, m1) + rest, idx + 1) == level_of(m0, fresh(m0, m1) + rest, idx + 1) implies
        !read_succeeds(level_of(m0, fresh(m0, m1) + rest, idx + 1), n) && fail_is(
        fail_of(level_of(m0, fresh(m0, m1) + rest, idx + 1).end),
        Error::EndOfBlock,
    ) by {
        assert(level_of(m0, fresh(m0, m1) + rest, idx + 1) == prepend(
            Seq::empty(),
            level_of(m1, rest, idx + 1),
        ));
        assert(level_of(m1, rest, idx + 1).bytes =~= Seq::<u8>::empty());
    }
}

/// A read that fails below a block whose current chunk still has the bytes
/// asked for: the block runs short with the same failure.
pub proof fn lemma_failed_through(m0: Model, m1: Model, m2: Model, idx: nat, n: nat, e: Error)
    requires
        moved_at(m0, m1, idx + 1, Seq::empty()),
        idx < m1.frames.len(),
        m1.frames[idx as int].remaining >= n,
        n > 0,
        failed_at(m1, m2, idx, n, e),
    ensures
        failed_at(m0, m2, idx + 1, n, e),
        closing_failed(m0, m2, idx + 1, e),
{
    lemma_fresh_compose(m0, m1, m2);
    let f = m1.frames[idx as int];
    assert forall|rest: Seq<u8>| #[trigger]
        level_of(m0, fresh(m0, m2) + rest, idx + 1) == level_of(m0, fresh(m0, m2) + rest, idx + 1) implies
        !read_succeeds(level_of(m0, fresh(m0, m2) + rest, idx + 1), n) && fail_is(
        fail_of(level_of(m0, fresh(m0, m2) + rest, idx + 1).end),
        e,
    ) && !(level_of(m0, fresh(m0, m2) + rest, idx + 1).end is Clean) by {
        let r1 = fresh(m1, m2) + rest;
        assert(fresh(m0, m2) + rest =~= fresh(m0, m1) + r1);
        assert(level_of(m0, fresh(m0, m1) + r1, idx + 1) == prepend(
            Seq::empty(),
            level_of(m1, r1, idx + 1),
        ));
        let lower = level_of(m1, r1, idx);
        assert(!read_succeeds(lower, n));
        assert(level_of(m1, r1, idx + 1) == frame_content(lower, f).0);
        assert(Seq::<u8>::empty() + level_of(m1, r1, idx + 1).bytes =~= level_of(m1, r1, idx + 1).bytes);
    }
}

/// Reading the length of the next chunk failed: so does a read from the block.
pub proof fn lemma_header_failed(m0: Model, m1: Model, idx: nat, e: Error)
    requires
        idx < m0.frames.len(),
        m0.frames[idx as int] == (Frame { remaining: 0, has_next: true }),
        extends(m0, m1),
        varint_failed(m0, m1, idx, VARINT_MAX_U16 as nat, MAX_LAST_U16 as nat, e),
    ensures
        failed_at(m0, m1, idx + 1, 0, e),
{
    assert forall|rest: Seq<u8>| #[trigger]
        level_of(m0, fresh(m0, m1) + rest, idx + 1) == level_of(m0, fresh(m0, m1) + rest, idx + 1) implies
        !read_succeeds(level_of(m0, fresh(m0, m1) + rest, idx + 1), 0) && fail_is(
        fail_of(level_of(m0, fresh(m0, m1) + rest, idx + 1).end),
        e,
    ) by {
        let lower = level_of(m0, fresh(m0, m1) + rest, idx);
        assert(skip(lower, 0) == lower) by {
            assert(lower.bytes.skip(0) =~= lower.bytes);
        }
        assert(lower.bytes.take(0) + Seq::<u8>::empty() =~= Seq::<u8>::empty());
        assert(level_of(m0, fresh(m0, m1) + rest, idx + 1) == frame_content(lower, m0.frames[idx as int]).0);
    }
}

/// The value of a varint whose last byte is `b`, read after others worth
/// `out` below `mult`, fits in 128 bits.
pub proof fn lemma_varint_value_fits(out: u128, mult: u128, b: u8, i: nat, max_len: nat, max_last: u8)
    requires
        out < mult,
        mult == vstd::arithmetic::power::pow(128, i),
        i < max_len <= 19,
        b < 128,
        i == max_len - 1 ==> b <= max_last,
        max_last < 128,
        varint_bound(max_len, max_last as nat) <= 0x1_0000_0000_0000_0000_0000_0000_0000_0000,
    ensures
        out + b as nat * mult <= u128::MAX,
{
    lemma_pow128_bound(i);
    if i < 18 {
        vstd::arithmetic::power::lemma_pow_adds(128, i, 1);
        vstd::arithmetic::power::lemma_pow1(128);
        lemma_pow128_bound(i + 1);
        assert(out + b as nat * mult <= 128 * mult) by (nonlinear_arith)
            requires
                out < mult,
                b < 128,
        ;
    } else {
        assert(i == 18 && max_len == 19);
        lemma_varint_bound_value(max_last);
        assert(b <= max_last);
        assert(out + b as nat * mult < (max_last as nat + 1) * mult) by (nonlinear_arith)
            requires
                out < mult,
                b <= max_last,
        ;
    }
}

/// The bound of the longest shape.
pub proof fn lemma_varint_bound_value(max_last: u8)
    ensures
        varint_bound(19, max_last as nat) == (max_last as nat + 1) * vstd::arithmetic::power::pow(128, 18),
{
    lemma_varint_bound_pow(19, max_last as nat);
}

/// The bound of a shape of `n` bytes, in closed form.
pub proof fn lemma_varint_bound_pow(n: nat, max_last: nat)
    requires
        n >= 1,
    ensures
        varint_bound(n, max_last) == (max_last + 1) * vstd::arithmetic::power::pow(128, (n - 1) as nat),
    decreases n,
{
    vstd::arithmetic::power::lemma_pow0(128);
    if n > 1 {
        lemma_varint_bound_pow((n - 1) as nat, max_last);
        let p1 = vstd::arithmetic::power::pow(128, (n - 2) as nat);
        assert(vstd::arithmetic::power::pow(128, (n - 1) as nat) == 128 * p1) by {
            vstd::arithmetic::power::lemma_pow_adds(128, 1, (n - 2) as nat);
            vstd::arithmetic::power::lemma_pow1(128);
            assert((1 + (n - 2)) as nat == (n - 1) as nat);
        }
        assert(128 * ((max_last + 1) * p1) == (max_last + 1) * (128 * p1)) by (nonlinear_arith);
    }
}

/// Another byte of a varint that announces more fits.
pub proof fn lemma_varint_step_fits(out: u128, mult: u128, b: u8, i: nat)
    requires
        out < mult,
        mult == vstd::arithmetic::power::pow(128, i),
        i < 18,
        b >= 128,
    ensures
        out + (b - 128) as nat * mult < mult * 128,
        mult * 128 == vstd::arithmetic::power::pow(128, i + 1),
        mult * 128 <= u128::MAX,
{
    vstd::arithmetic::power::lemma_pow_adds(128, i, 1);
    vstd::arithmetic::power::lemma_pow1(128);
    lemma_pow128_bound(i + 1);
    assert(out + (b - 128) as nat * mult < mult * 128) by (nonlinear_arith)
        requires
            out < mult,
            b < 256,
            b >= 128,
    ;
}

/// Nothing changed.
pub proof fn lemma_moved_none(m: Model, level: nat)
    requires
        level <= m.frames.len(),
    ensures
        moved_at(m, m, level, Seq::empty()),
{
    assert(fresh(m, m) =~= Seq::<u8>::empty());
    assert(m.log.take(m.log.len() as int) =~= m.log);
    assert forall|rest: Seq<u8>| #[trigger]
        level_of(m, rest, level) == level_of(m, rest, level) implies level_of(
        m,
        fresh(m, m) + rest,
        level,
    ) == prepend(Seq::empty(), level_of(m, rest, level)) by {
        assert(fresh(m, m) + rest =~= rest);
        assert(Seq::<u8>::empty() + level_of(m, rest, level).bytes =~= level_of(
            m,
            rest,
            level,
        ).bytes);
    }
    assert forall|rest: Seq<u8>, i: nat| #[trigger] after_of(m, rest, i) == after_of(m, rest, i)
        && i < level implies after_of(m, fresh(m, m) + rest, i) == after_of(m, rest, i) by {
        assert(fresh(m, m) + rest =~= rest);
    }
}

/// A read below a block, carried up through that block: the block's current
/// chunk shrinks by what was read.
pub proof fn lemma_moved_through(m0: Model, m1: Model, m2: Model, idx: nat, t: Seq<u8>)
    requires
        moved_at(m0, m1, idx, t),
        idx < m0.frames.len(),
        t.len() <= m0.frames[idx as int].remaining,
        m2.log == m1.log,
        m2.frames == m1.frames.update(
            idx as int,
            Frame {
                remaining: (m0.frames[idx as int].remaining - t.len()) as usize,
                ..m0.frames[idx as int]
            },
        ),
    ensures
        moved_at(m0, m2, idx + 1, t),
{
    let f = m0.frames[idx as int];
    let g = Frame { remaining: (f.remaining - t.len()) as usize, ..f };
    assert(fresh(m0, m2) == fresh(m0, m1));
    assert forall|rest: Seq<u8>| #[trigger] level_of(m2, rest, idx) == level_of(m1, rest, idx) by {
        lemma_view_prefix(source_stream(rest), m2.frames, m1.frames, idx);
    }
    assert forall|rest: Seq<u8>| #[trigger]
        level_of(m2, rest, idx + 1) == level_of(m2, rest, idx + 1) implies level_of(
        m0,
        fresh(m0, m2) + rest,
        idx + 1,
    ) == prepend(t, level_of(m2, rest, idx + 1)) by {
        assert(level_of(m0, fresh(m0, m1) + rest, idx) == prepend(t, level_of(m1, rest, idx)));
        lemma_frame_take(t, level_of(m1, rest, idx), f);
        assert(level_of(m2, rest, idx) == level_of(m1, rest, idx));
    }
    assert forall|rest: Seq<u8>, i: nat| #[trigger] after_of(m2, rest, i) == after_of(m2, rest, i)
        && i < idx + 1 implies after_of(m0, fresh(m0, m2) + rest, i) == after_of(m2, rest, i) by {
        assert(level_of(m2, rest, idx) == level_of(m1, rest, idx));
        if i < idx {
            assert(after_of(m0, fresh(m0, m1) + rest, i) == after_of(m1, rest, i));
            lemma_view_prefix(source_stream(rest), m2.frames, m1.frames, i);
            assert(m2.frames[i as int] == m1.frames[i as int]);
        } else {
            assert(level_of(m0, fresh(m0, m1) + rest, idx) == prepend(
                t,
                level_of(m1, rest, idx),
            ));
            lemma_frame_take(t, level_of(m1, rest, idx), f);
        }
    }
}

/// The source delivered `v`: the source level moved by it, and no block
/// changed.
pub proof fn lemma_source_move(m0: Model, m1: Model, v: Seq<u8>)
    requires
        m1.log == m0.log + v,
        m1.frames == m0.frames,
    ensures
        moved_at(m0, m1, 0, v),
{
    assert(m1.log.take(m0.log.len() as int) =~= m0.log);
    assert(fresh(m0, m1) =~= v);
    assert forall|rest: Seq<u8>| #[trigger]
        level_of(m1, rest, 0) == level_of(m1, rest, 0) implies level_of(
        m0,
        fresh(m0, m1) + rest,
        0,
    ) == prepend(v, level_of(m1, rest, 0)) by {}
}

/// A move followed by a failure to close the block: the block did not end
/// cleanly from where the move began either.
pub proof fn lemma_closing_moved(m0: Model, m1: Model, m2: Model, level: nat, t: Seq<u8>, e: Error)
    requires
        moved_at(m0, m1, level, t),
        closing_failed(m1, m2, level, e),
    ensures
        closing_failed(m0, m2, level, e),
{
    lemma_fresh_compose(m0, m1, m2);
    assert forall|rest: Seq<u8>| #[trigger]
        level_of(m0, fresh(m0, m2) + rest, level) == level_of(m0, fresh(m0, m2) + rest, level) implies
        !(level_of(m0, fresh(m0, m2) + rest, level).end is Clean) && fail_is(
        fail_of(level_of(m0, fresh(m0, m2) + rest, level).end),
        e,
    ) by {
        lemma_moved_then_failed(m0, m1, m2, level, t, rest);
    }
}

/// A block whose content cannot even be begun does not end cleanly.
pub proof fn lemma_closing_from_failed(m0: Model, m1: Model, level: nat, e: Error)
    requires
        failed_at(m0, m1, level, 0, e),
    ensures
        closing_failed(m0, m1, level, e),
{
    assert forall|rest: Seq<u8>| #[trigger]
        level_of(m0, fresh(m0, m1) + rest, level) == level_of(m0, fresh(m0, m1) + rest, level) implies
        !(level_of(m0, fresh(m0, m1) + rest, level).end is Clean) && fail_is(
        fail_of(level_of(m0, fresh(m0, m1) + rest, level).end),
        e,
    ) by {
        assert(!read_succeeds(level_of(m0, fresh(m0, m1) + rest, level), 0));
    }
}

/// A block at the end of its last chunk delivers nothing more and ends
/// cleanly, and the level around it continues right after it.
pub proof fn lemma_block_done(m: Model, idx: nat, rest: Seq<u8>)
    requires
        idx < m.frames.len(),
        m.frames[idx as int] == (Frame { remaining: 0, has_next: false }),
    ensures
        level_of(m, rest, idx + 1) == (Stream { bytes: Seq::empty(), end: StreamEnd::Clean }),
        after_of(m, rest, idx) == Some(level_of(m, rest, idx)),
{
    let lower = level_of(m, rest, idx);
    assert(lower.bytes.take(0) =~= Seq::<u8>::empty());
    assert(skip(lower, 0) == lower) by {
        assert(lower.bytes.skip(0) =~= lower.bytes);
    }
}

/// Whether a stream has nothing left and ends cleanly.
pub open spec fn exhausted(s: Stream) -> bool {
    s.bytes.len() == 0 && s.end is Clean
}

/// Going from `m0` to `m1` closed the innermost block: the level around it
/// now delivers what followed the block, and the levels below are as they
/// were.
pub open spec fn closed_top(m0: Model, m1: Model) -> bool {
    let top = (m0.frames.len() - 1) as nat;
    &&& m0.frames.len() >= 1
    &&& log_grew(m0, m1)
    &&& m1.frames.len() == top
    &&& forall|rest: Seq<u8>|
        #![trigger level_of(m1, rest, top)]
        after_of(m0, fresh(m0, m1) + rest, top) == Some(level_of(m1, rest, top))
    &&& forall|rest: Seq<u8>, i: nat|
        #![trigger after_of(m1, rest, i)]
        i < top ==> after_of(m0, fresh(m0, m1) + rest, i) == after_of(m1, rest, i)
}

/// A block opened in state `f` on top of the others: the levels below see
/// nothing of it, and it delivers what its state says of the level below.
pub proof fn lemma_opened(m0: Model, m1: Model, f: Frame, rest: Seq<u8>)
    requires
        m1.frames == m0.frames.push(f),
        m1.log == m0.log,
    ensures
        level_of(m1, rest, m0.frames.len()) == level_of(m0, rest, m0.frames.len()),
        level_of(m1, rest, m0.frames.len() + 1) == frame_content(
            level_of(m0, rest, m0.frames.len()),
            f,
        ).0,
        after_of(m1, rest, m0.frames.len()) == frame_content(
            level_of(m0, rest, m0.frames.len()),
            f,
        ).1,
        forall|i: nat|
            i < m0.frames.len() ==> #[trigger] after_of(m1, rest, i) == after_of(m0, rest, i),
{
    let top = m0.frames.len();
    lemma_view_prefix(source_stream(rest), m1.frames, m0.frames, top);
    assert forall|i: nat| i < m0.frames.len() implies #[trigger] after_of(m1, rest, i) == after_of(
        m0,
        rest,
        i,
    ) by {
        lemma_view_prefix(source_stream(rest), m1.frames, m0.frames, i);
    }
}

/// A move inside the innermost block followed by its closing is a closing.
pub proof fn lemma_closed_after_move(m0: Model, mk: Model, m1: Model, t: Seq<u8>)
    requires
        m0.frames.len() >= 1,
        moved_at(m0, mk, m0.frames.len(), t),
        closed_top(mk, m1),
    ensures
        closed_top(m0, m1),
{
    let top = (m0.frames.len() - 1) as nat;
    lemma_fresh_compose(m0, mk, m1);
    assert forall|rest: Seq<u8>| #[trigger]
        level_of(m1, rest, top) == level_of(m1, rest, top) implies after_of(
        m0,
        fresh(m0, m1) + rest,
        top,
    ) == Some(level_of(m1, rest, top)) by {
        let r1 = fresh(mk, m1) + rest;
        assert(fresh(m0, m1) + rest =~= fresh(m0, mk) + r1);
        assert(after_of(m0, fresh(m0, mk) + r1, top) == after_of(mk, r1, top));
    }
    assert forall|rest: Seq<u8>, i: nat| #[trigger]
        after_of(m1, rest, i) == after_of(m1, rest, i) && i < top implies after_of(
        m0,
        fresh(m0, m1) + rest,
        i,
    ) == after_of(m1, rest, i) by {
        let r1 = fresh(mk, m1) + rest;
        assert(fresh(m0, m1) + rest =~= fresh(m0, mk) + r1);
        assert(after_of(m0, fresh(m0, mk) + r1, i) == after_of(mk, r1, i));
        assert(after_of(mk, r1, i) == after_of(m1, rest, i));
    }
}

/// A block opened, read to its end as `v`, and closed: the level it sits in
/// began with a block holding `v`, and continues after it.
pub proof fn lemma_block_read(m0: Model, ma: Model, mb: Model, m1: Model, v: Seq<u8>)
    requires
        ma.frames == m0.frames.push(Frame { remaining: 0, has_next: true }),
        ma.log == m0.log,
        moved_at(ma, mb, m0.frames.len() + 1, v),
        mb.frames[m0.frames.len() as int] == (Frame { remaining: 0, has_next: false }),
        closed_top(mb, m1),
    ensures
        extends(m0, m1),
        forall|rest: Seq<u8>|
            #![trigger level_of(m1, rest, m0.frames.len())]
            frame_content(
                level_of(m0, fresh(m0, m1) + rest, m0.frames.len()),
                Frame { remaining: 0, has_next: true },
            ) == (Stream { bytes: v, end: StreamEnd::Clean }, Some(
                level_of(m1, rest, m0.frames.len()),
            )),
        forall|rest: Seq<u8>, i: nat|
            #![trigger after_of(m1, rest, i)]
            i < m0.frames.len() ==> after_of(m0, fresh(m0, m1) + rest, i) == after_of(m1, rest, i),
{
    let top = m0.frames.len();
    lemma_fresh_compose(ma, mb, m1);
    assert(fresh(m0, m1) == fresh(ma, m1));
    assert forall|rest: Seq<u8>| #[trigger]
        level_of(m1, rest, top) == level_of(m1, rest, top) implies frame_content(
        level_of(m0, fresh(m0, m1) + rest, top),
        Frame { remaining: 0, has_next: true },
    ) == (Stream { bytes: v, end: StreamEnd::Clean }, Some(level_of(m1, rest, top))) by {
        let r1 = fresh(mb, m1) + rest;
        let x = fresh(ma, mb) + r1;
        assert(fresh(m0, m1) + rest =~= x);
        lemma_opened(m0, ma, Frame { remaining: 0, has_next: true }, x);
        assert(level_of(ma, x, top + 1) == prepend(v, level_of(mb, r1, top + 1)));
        lemma_block_done(mb, top, r1);
        assert(v + Seq::<u8>::empty() =~= v);
        assert(after_of(ma, x, top) == after_of(mb, r1, top));
    }
    assert forall|rest: Seq<u8>, i: nat| #[trigger]
        after_of(m1, rest, i) == after_of(m1, rest, i) && i < top implies after_of(
        m0,
        fresh(m0, m1) + rest,
        i,
    ) == after_of(m1, rest, i) by {
        let r1 = fresh(mb, m1) + rest;
        let x = fresh(ma, mb) + r1;
        assert(fresh(m0, m1) + rest =~= x);
        lemma_opened(m0, ma, Frame { remaining: 0, has_next: true }, x);
        assert(after_of(ma, x, i) == after_of(mb, r1, i));
    }
}

/// A block opened and read towards its end, failing: the block at the front
/// of the level does not end cleanly.
pub proof fn lemma_block_read_failed(m0: Model, ma: Model, mb: Model, e: Error)
    requires
        ma.frames == m0.frames.push(Frame { remaining: 0, has_next: true }),
        ma.log == m0.log,
        closing_failed(ma, mb, m0.frames.len() + 1, e),
    ensures
        forall|rest: Seq<u8>|
            #![trigger level_of(m0, fresh(m0, mb) + rest, m0.frames.len())]
            {
                let c = frame_content(
                    level_of(m0, fresh(m0, mb) + rest, m0.frames.len()),
                    Frame { remaining: 0, has_next: true },
                ).0;
                !(c.end is Clean) && fail_is(fail_of(c.end), e)
            },
{
    let top = m0.frames.len();
    assert(fresh(m0, mb) == fresh(ma, mb));
    assert forall|rest: Seq<u8>| #[trigger]
        level_of(m0, fresh(m0, mb) + rest, top) == level_of(m0, fresh(m0, mb) + rest, top) implies ({
        let c = frame_content(
            level_of(m0, fresh(m0, mb) + rest, top),
            Frame { remaining: 0, has_next: true },
        ).0;
        !(c.end is Clean) && fail_is(fail_of(c.end), e)
    }) by {
        lemma_opened(m0, ma, Frame { remaining: 0, has_next: true }, fresh(ma, mb) + rest);
        assert(level_of(ma, fresh(ma, mb) + rest, top + 1) == level_of(ma, fresh(ma, mb) + rest, top + 1));
    }
}

/// Blocks were closed from `m0` down to `mk`, each skipped to its end.
pub open spec fn popping(m0: Model, mk: Model) -> bool {
    &&& log_grew(m0, mk)
    &&& mk.frames.len() <= m0.frames.len()
    &&& forall|rest: Seq<u8>, i: nat|
        #![trigger after_of(mk, rest, i)]
        i < mk.frames.len() ==> after_of(m0, fresh(m0, mk) + rest, i) == after_of(mk, rest, i)
    &&& mk.frames.len() < m0.frames.len() ==> forall|rest: Seq<u8>|
        #![trigger level_of(mk, rest, mk.frames.len())]
        after_of(m0, fresh(m0, mk) + rest, mk.frames.len()) == Some(level_of(mk, rest, mk.frames.len()))
}

/// One more block closed.
proof fn lemma_pop_step(m0: Model, mk: Model, m1: Model)
    requires
        popping(m0, mk),
        mk.frames.len() == m0.frames.len() ==> mk == m0,
        closed_top(mk, m1),
    ensures
        popping(m0, m1),
{
    let top = m1.frames.len();
    lemma_fresh_compose(m0, mk, m1);
    if mk.frames.len() == m0.frames.len() {
        assert(fresh(m0, m1) == fresh(mk, m1));
    } else {
        assert forall|rest: Seq<u8>, i: nat| #[trigger]
            after_of(m1, rest, i) == after_of(m1, rest, i) && i < top implies after_of(
            m0,
            fresh(m0, m1) + rest,
            i,
        ) == after_of(m1, rest, i) by {
            let r1 = fresh(mk, m1) + rest;
            assert(fresh(m0, m1) + rest =~= fresh(m0, mk) + r1);
            assert(after_of(m0, fresh(m0, mk) + r1, i) == after_of(mk, r1, i));
        }
        assert forall|rest: Seq<u8>| #[trigger]
            level_of(m1, rest, top) == level_of(m1, rest, top) implies after_of(
            m0,
            fresh(m0, m1) + rest,
            top,
        ) == Some(level_of(m1, rest, top)) by {
            let r1 = fresh(mk, m1) + rest;
            assert(fresh(m0, m1) + rest =~= fresh(m0, mk) + r1);
            assert(after_of(m0, fresh(m0, mk) + r1, top) == after_of(mk, r1, top));
        }
    }
}

/// Reader that allows blocks to be (partially) skipped.
pub struct SkipRead<R> {
    source: R,
    frames: Vec<Frame>,
    /// Kind of the first failure of the source, if it has failed.
    failure: Option<std::io::ErrorKind>,
    log: Ghost<Seq<u8>>,
}

impl<R> SkipRead<R> {
    /// The open blocks and the bytes delivered.
    pub closed spec fn model(&self) -> Model {
        Model { frames: self.frames@, log: self.log@ }
    }

    /// Whether the source has failed.
    pub closed spec fn failed(&self) -> bool {
        self.failure is Some
    }

    /// The source the reader pulls from.
    pub closed spec fn source(&self) -> R {
        self.source
    }

    /// What the reader sees, for a source that will deliver `rest`.
    pub open spec fn state(&self, rest: Seq<u8>) -> ReadState {
        read_state(self.model().frames, rest)
    }
}

impl<R: ByteSource> SkipRead<R> {
    /// A reader over the bytes of exactly one value.
    ///
    /// The bytes are presented as an already-open block of that length, so a
    /// value reaching the end of its block is bounded by them and cannot read
    /// beyond.
    pub fn new_value(inner: R, len: usize) -> (r: Self)
        ensures
            r.model() == (Model {
                frames: seq![Frame { remaining: len, has_next: false }],
                log: Seq::empty(),
            }),
            !r.failed(),
            r.source() == inner,
    {
        let mut frames: Vec<Frame> = Vec::new();
        frames.push(Frame { remaining: len, has_next: false });
        SkipRead { source: inner, frames, failure: None, log: Ghost(Seq::empty()) }
    }

    /// A reader with no block open.
    pub fn new(inner: R) -> (r: Self)
        ensures
            r.model() == (Model { frames: Seq::empty(), log: Seq::empty() }),
            !r.failed(),
            r.source() == inner,
    {
        SkipRead { source: inner, frames: Vec::new(), failure: None, log: Ghost(Seq::empty()) }
    }

    /// Notes a failure of the source and passes the result on.
    fn note_failure<T>(&mut self, res: Result<T, Error>) -> (r: Result<T, Error>)
        ensures
            r == res,
            final(self).model() == old(self).model(),
            final(self).failed() == (old(self).failed() || res matches Err(Error::Io(_))),
    {
        match res {
            Err(Error::Io(err)) => {
                if self.failure.is_none() {
                    self.failure = Some(io_error_kind(&err));
                }
                Err(Error::Io(err))
            },
            other => other,
        }
    }

    /// Reads one byte at `level`.
    fn read_byte_at(&mut self, level: usize) -> (res: Result<u8, Error>)
        requires
            level <= old(self).frames@.len(),
        ensures
            res matches Err(e) ==> read_error(e),
            extends(old(self).model(), final(self).model()),
            final(self).failure == old(self).failure,
            res matches Ok(b) ==> moved_at(old(self).model(), final(self).model(), level as nat, seq![b]),
            res matches Err(e) ==> !from_source(e) ==> failed_at(
                old(self).model(),
                final(self).model(),
                level as nat,
                1,
                e,
            ),
            level >= 1 && old(self).frames@[level - 1] == (Frame { remaining: 0, has_next: false })
                ==> (res matches Err(Error::EndOfBlock)) && final(self).model() == old(self).model(),
        decreases level, 0nat,
    {
        let ghost m0 = self.model();
        if level == 0 {
            match self.source.fetch(1) {
                Ok(v) => {
                    if v.len() != 1 {
                        proof {
                            assert(self.log@.take(m0.log.len() as int) =~= m0.log);
                        }
                        return Err(Error::Io(eof_error()));
                    }
                    let b = v[0];
                    self.log = Ghost(self.log@.push(b));
                    proof {
                        let m1 = self.model();
                        assert(m1.log.take(m0.log.len() as int) =~= m0.log);
                        assert(fresh(m0, m1) =~= seq![b]);
                        assert forall|rest: Seq<u8>| #[trigger]
                            level_of(m1, rest, 0) == level_of(m1, rest, 0) implies level_of(
                            m0,
                            fresh(m0, m1) + rest,
                            0,
                        ) == prepend(seq![b], level_of(m1, rest, 0)) by {}
                    }
                    Ok(b)
                },
                Err(e) => {
                    proof {
                        assert(self.log@.take(m0.log.len() as int) =~= m0.log);
                    }
                    Err(Error::Io(e))
                },
            }
        } else {
            let idx = level - 1;
            assert((idx + 1) as nat == level as nat);
            let f0 = self.frames[idx];
            if f0.remaining == 0 && !f0.has_next {
                // The block has ended: nothing is asked of the source.
                proof {
                    lemma_moved_none(m0, level as nat);
                    lemma_end_of_block(m0, m0, idx as nat, 1);
                }
                return Err(Error::EndOfBlock);
            }
            let res = self.update_remaining(idx);
            let ghost m1 = self.model();
            match res {
                Err(e) => {
                    proof {
                        if !from_source(e) {
                            lemma_failed_widen(m0, m1, (idx + 1) as nat, 1, e);
                        }
                    }
                    return Err(e);
                },
                Ok(()) => {},
            }
            let f = self.frames[idx];
            if f.remaining == 0 {
                proof {
                    lemma_end_of_block(m0, m1, idx as nat, 1);
                }
                return Err(Error::EndOfBlock);
            }
            let res = self.read_byte_at(idx);
            let ghost m2 = self.model();
            match res {
                Err(e) => {
                    proof {
                        if !from_source(e) {
                            lemma_failed_through(m0, m1, m2, idx as nat, 1, e);
                        }
                        lemma_fresh_compose(m0, m1, m2);
                    }
                    return Err(e);
                },
                Ok(b) => {
                    self.frames.set(idx, Frame { remaining: f.remaining - 1, has_next: f.has_next });
                    proof {
                        let m3 = self.model();
                        lemma_moved_through(m1, m2, m3, idx as nat, seq![b]);
                        lemma_moved_compose(m0, m1, m3, level as nat, Seq::empty(), seq![b]);
                        assert(Seq::<u8>::empty() + seq![b] =~= seq![b]);
                    }
                    Ok(b)
                },
            }
        }
    }

    /// Makes sure the block at `idx` has bytes left in its current chunk, or
    /// that it has no more chunks, reading the length of the next chunk if
    /// need be.
    fn update_remaining(&mut self, idx: usize) -> (res: Result<(), Error>)
        requires
            idx < old(self).frames@.len(),
        ensures
            res matches Err(e) ==> read_error(e),
            extends(old(self).model(), final(self).model()),
            final(self).failure == old(self).failure,
            res is Ok ==> moved_at(
                old(self).model(),
                final(self).model(),
                (idx + 1) as nat,
                Seq::empty(),
            ),
            res is Ok ==> final(self).frames@[idx as int].remaining > 0
                || !final(self).frames@[idx as int].has_next,
            res matches Err(e) ==> !from_source(e) ==> failed_at(
                old(self).model(),
                final(self).model(),
                (idx + 1) as nat,
                0,
                e,
            ),
        decreases idx, 2nat,
    {
        let ghost m0 = self.model();
        let f = self.frames[idx];
        if f.remaining > 0 || !f.has_next {
            proof {
                lemma_moved_none(m0, (idx + 1) as nat);
            }
            return Ok(());
        }
        proof {
            lemma_varint_bounds();
        }
        let res = self.take_varint_at(idx, VARINT_MAX_U16, MAX_LAST_U16);
        let ghost m1 = self.model();
        match res {
            Err(e) => {
                proof {
                    if !from_source(e) {
                        lemma_header_failed(m0, m1, idx as nat, e);
                    }
                }
                Err(e)
            },
            Ok(v) => {
                let ghost h = choose|h: Seq<u8>|
                    moved_at(m0, m1, idx as nat, h) && varint_parse(
                        h,
                        VARINT_MAX_U16 as nat,
                        MAX_LAST_U16 as nat,
                    ) == VarintParse::Value(v as nat, h.len());
                proof {
                    lemma_varint_parse_bound(h, VARINT_MAX_U16 as nat, MAX_LAST_U16 as nat);
                }
                let len = v as usize;
                self.frames.set(idx, Frame { remaining: len, has_next: len == MAX_CHUNK });
                proof {
                    lemma_header_read(m0, m1, self.model(), idx as nat, h, v as nat);
                }
                Ok(())
            },
        }
    }

    /// Reads a varint of at most `max_len` bytes at `level`.
    fn take_varint_at(&mut self, level: usize, max_len: usize, max_last: u8) -> (res: Result<
        u128,
        Error,
    >)
        requires
            level <= old(self).frames@.len(),
            1 <= max_len <= 19,
            max_last < 128,
            varint_bound(max_len as nat, max_last as nat)
                <= 0x1_0000_0000_0000_0000_0000_0000_0000_0000,
        ensures
            res matches Err(e) ==> read_error(e),
            extends(old(self).model(), final(self).model()),
            final(self).failure == old(self).failure,
            res matches Ok(v) ==> exists|h: Seq<u8>|
                moved_at(old(self).model(), final(self).model(), level as nat, h) && varint_parse(
                    h,
                    max_len as nat,
                    max_last as nat,
                ) == VarintParse::Value(v as nat, h.len()),
            res matches Err(e) ==> !from_source(e) ==> varint_failed(
                old(self).model(),
                final(self).model(),
                level as nat,
                max_len as nat,
                max_last as nat,
                e,
            ),
        decreases level, 1nat,
    {
        let ghost m0 = self.model();
        let mut out: u128 = 0;
        let mut mult: u128 = 1;
        let mut i: usize = 0;
        let ghost mut h: Seq<u8> = Seq::empty();
        proof {
            lemma_moved_none(m0, level as nat);
            vstd::arithmetic::power::lemma_pow0(128);
        }
        loop
            invariant
                m0 == old(self).model(),
                level <= m0.frames.len(),
                1 <= max_len <= 19,
                max_last < 128,
                varint_bound(max_len as nat, max_last as nat)
                    <= 0x1_0000_0000_0000_0000_0000_0000_0000_0000,
                i < max_len,
                h.len() == i,
                forall|j: int| 0 <= j < h.len() ==> h[j] >= 128,
                moved_at(m0, self.model(), level as nat, h),
                self.failure == old(self).failure,
                out == varint_low(h),
                mult == vstd::arithmetic::power::pow(128, i as nat),
            decreases max_len - i,
        {
            let ghost m1 = self.model();
            proof {
                lemma_pow128_bound(i as nat);
                lemma_varint_low_bound(h);
            }
            let res = self.read_byte_at(level);
            let ghost m2 = self.model();
            match res {
                Err(e) => {
                    proof {
                        lemma_fresh_compose(m0, m1, m2);
                        if !from_source(e) {
                            lemma_varint_read_failed(
                                m0,
                                m1,
                                m2,
                                level as nat,
                                h,
                                max_len as nat,
                                max_last as nat,
                                e,
                            );
                        }
                    }
                    return Err(e);
                },
                Ok(b) => {
                    proof {
                        lemma_moved_compose(m0, m1, m2, level as nat, h, seq![b]);
                        assert(h + seq![b] =~= h.push(b));
                        lemma_varint_continue(h, seq![b], max_len as nat, max_last as nat);
                    }
                    if b < 128 {
                        if i == max_len - 1 && b > max_last {
                            proof {
                                lemma_varint_read_bad(
                                    m0,
                                    m2,
                                    level as nat,
                                    h.push(b),
                                    max_len as nat,
                                    max_last as nat,
                                );
                            }
                            return Err(Error::BadVarint);
                        }
                        proof {
                            lemma_varint_value_fits(out, mult, b, i as nat, max_len as nat, max_last);
                        }
                        let value = out + (b as u128) * mult;
                        proof {
                            let tail = seq![b];
                            assert(tail.len() == 1 && tail[0] == b);
                            assert(varint_parse(tail, (max_len - i) as nat, max_last as nat)
                                == VarintParse::Value(b as nat, 1));
                            assert(b as nat * mult == mult * b as nat) by (nonlinear_arith);
                            assert(varint_parse(h.push(b), max_len as nat, max_last as nat)
                                == VarintParse::Value(value as nat, h.push(b).len()));
                        }
                        return Ok(value);
                    }
                    if i == max_len - 1 {
                        proof {
                            lemma_varint_read_bad(
                                m0,
                                m2,
                                level as nat,
                                h.push(b),
                                max_len as nat,
                                max_last as nat,
                            );
                        }
                        return Err(Error::BadVarint);
                    }
                    proof {
                        lemma_varint_step_fits(out, mult, b, i as nat);
                        lemma_varint_low_push(h, b);
                        assert(b % 128 == b - 128);
                        assert(((b - 128) as u128) as nat * mult == mult * (b % 128) as nat)
                            by (nonlinear_arith)
                            requires
                                b % 128 == b - 128,
                        ;
                    }
                    out = out + ((b - 128) as u128) * mult;
                    mult = mult * 128;
                    i = i + 1;
                    proof {
                        h = h.push(b);
                    }
                },
            }
        }
    }

    /// Reads `n` bytes at `level`.
    fn read_at(&mut self, level: usize, n: usize) -> (res: Result<Vec<u8>, Error>)
        requires
            level <= old(self).frames@.len(),
        ensures
            res matches Err(e) ==> read_error(e),
            extends(old(self).model(), final(self).model()),
            final(self).failure == old(self).failure,
            res matches Ok(v) ==> v@.len() == n && moved_at(
                old(self).model(),
                final(self).model(),
                level as nat,
                v@,
            ),
            res matches Err(e) ==> !from_source(e) ==> n > 0 ==> failed_at(
                old(self).model(),
                final(self).model(),
                level as nat,
                n as nat,
                e,
            ),
            res matches Err(e) ==> !from_source(e) ==> n == 0 ==> touch_failed(
                old(self).model(),
                final(self).model(),
                level as nat,
                e,
            ),
            level >= 1 && n > 0 && old(self).frames@[level - 1] == (Frame {
                remaining: 0,
                has_next: false,
            }) ==> (res matches Err(Error::EndOfBlock)) && final(self).model() == old(self).model(),
        decreases level, 4nat,
    {
        if level == 0 {
            self.read_source(n)
        } else {
            self.read_block(level, n)
        }
    }

    /// Reads `n` bytes straight from the source, a chunk at a time.
    fn read_source(&mut self, n: usize) -> (res: Result<Vec<u8>, Error>)
        ensures
            res matches Err(e) ==> read_error(e),
            extends(old(self).model(), final(self).model()),
            final(self).failure == old(self).failure,
            res matches Ok(v) ==> v@.len() == n && moved_at(
                old(self).model(),
                final(self).model(),
                0,
                v@,
            ),
            res matches Err(e) ==> from_source(e),
    {
        let ghost m0 = self.model();
        let mut buf: Vec<u8> = Vec::new();
        proof {
            lemma_moved_none(m0, 0);
        }
        while buf.len() < n
            invariant
                m0 == old(self).model(),
                buf@.len() <= n,
                moved_at(m0, self.model(), 0, buf@),
                self.failure == old(self).failure,
            decreases n - buf@.len(),
        {
            let want = n - buf.len();
            let chunk = if want < READ_CHUNK {
                want
            } else {
                READ_CHUNK
            };
            let ghost m1 = self.model();
            match self.source.fetch(chunk) {
                Ok(mut v) => {
                    if v.len() != chunk {
                        return Err(Error::Io(eof_error()));
                    }
                    self.log = Ghost(self.log@ + v@);
                    proof {
                        lemma_source_move(m1, self.model(), v@);
                        lemma_moved_compose(m0, m1, self.model(), 0, buf@, v@);
                    }
                    buf.append(&mut v);
                },
                Err(e) => {
                    return Err(Error::Io(e));
                },
            }
        }
        Ok(buf)
    }

    /// Reads `n` bytes from the block below `level`, following it from chunk
    /// to chunk.
    fn read_block(&mut self, level: usize, n: usize) -> (res: Result<Vec<u8>, Error>)
        requires
            1 <= level <= old(self).frames@.len(),
        ensures
            res matches Err(e) ==> read_error(e),
            extends(old(self).model(), final(self).model()),
            final(self).failure == old(self).failure,
            res matches Ok(v) ==> v@.len() == n && moved_at(
                old(self).model(),
                final(self).model(),
                level as nat,
                v@,
            ),
            res matches Err(e) ==> !from_source(e) ==> n > 0 ==> failed_at(
                old(self).model(),
                final(self).model(),
                level as nat,
                n as nat,
                e,
            ),
            res matches Err(e) ==> !from_source(e) ==> n == 0 ==> touch_failed(
                old(self).model(),
                final(self).model(),
                level as nat,
                e,
            ),
            level >= 1 && n > 0 && old(self).frames@[level - 1] == (Frame {
                remaining: 0,
                has_next: false,
            }) ==> (res matches Err(Error::EndOfBlock)) && final(self).model() == old(self).model(),
        decreases level, 3nat,
    {
        let ghost m0 = self.model();
        let mut buf: Vec<u8> = Vec::new();
        let idx = level - 1;
        assert((idx + 1) as nat == level as nat);
        let f0 = self.frames[idx];
        if n > 0 && f0.remaining == 0 && !f0.has_next {
            // The block has ended: nothing is asked of the source.
            proof {
                lemma_moved_none(m0, level as nat);
                lemma_end_of_block(m0, m0, idx as nat, n as nat);
            }
            return Err(Error::EndOfBlock);
        }
        let res = self.update_remaining(idx);
        let ghost m1 = self.model();
        match res {
            Err(e) => {
                proof {
                    if !from_source(e) {
                        lemma_failed_widen(m0, m1, level as nat, n as nat, e);
                    }
                }
                return Err(e);
            },
            Ok(()) => {},
        }
        if n == 0 {
            // Even a read of nothing goes down to the block below, which
            // makes sure of its own next chunk in turn.
            let res = self.read_at(idx, 0);
            let ghost m2 = self.model();
            proof {
                lemma_fresh_compose(m0, m1, m2);
            }
            match res {
                Err(e) => {
                    proof {
                        if !from_source(e) {
                            assert(moved_at(m0, m1, level as nat, Seq::empty()));
                            assert(touch_failed(m1, m2, idx as nat, e));
                        }
                    }
                    return Err(e);
                },
                Ok(v) => {
                    proof {
                        let f = m1.frames[idx as int];
                        assert(m2.frames =~= m2.frames.update(
                            idx as int,
                            Frame { remaining: (f.remaining - v@.len()) as usize, ..f },
                        ));
                        lemma_moved_through(m1, m2, m2, idx as nat, v@);
                        lemma_moved_compose(m0, m1, m2, level as nat, Seq::empty(), v@);
                        assert(Seq::<u8>::empty() + v@ =~= v@);
                    }
                    return Ok(v);
                },
            }
        }
        proof {
            assert(Seq::<u8>::empty() =~= buf@);
        }
        while buf.len() < n
            invariant
                m0 == old(self).model(),
                1 <= level <= m0.frames.len(),
                idx == level - 1,
                buf@.len() <= n,
                n > 0,
                moved_at(m0, self.model(), level as nat, buf@),
                self.failure == old(self).failure,
                old(self).frames@[idx as int] != (Frame { remaining: 0, has_next: false }),
            decreases n - buf@.len(),
        {
            let ghost mk = self.model();
            let want = n - buf.len();
            let res = self.update_remaining(idx);
            let ghost mk1 = self.model();
            proof {
                lemma_fresh_compose(m0, mk, mk1);
            }
            match res {
                Err(e) => {
                    proof {
                        if !from_source(e) {
                            lemma_failed_widen(mk, mk1, level as nat, want as nat, e);
                            lemma_moved_failed(m0, mk, mk1, level as nat, buf@, want as nat, e);
                        }
                    }
                    return Err(e);
                },
                Ok(()) => {},
            }
            let f = self.frames[idx];
            if f.remaining == 0 {
                proof {
                    lemma_end_of_block(mk, mk1, idx as nat, want as nat);
                    lemma_moved_failed(m0, mk, mk1, level as nat, buf@, want as nat, Error::EndOfBlock);
                }
                return Err(Error::EndOfBlock);
            }
            let chunk = if want < f.remaining {
                want
            } else {
                f.remaining
            };
            let res = self.read_at(idx, chunk);
            let ghost mk2 = self.model();
            proof {
                lemma_fresh_compose(m0, mk1, mk2);
            }
            match res {
                Err(e) => {
                    proof {
                        if !from_source(e) {
                            lemma_failed_through(mk, mk1, mk2, idx as nat, chunk as nat, e);
                            lemma_failed_more(mk, mk2, level as nat, chunk as nat, want as nat, e);
                            lemma_moved_failed(m0, mk, mk2, level as nat, buf@, want as nat, e);
                        }
                    }
                    return Err(e);
                },
                Ok(mut v) => {
                    self.frames.set(
                        idx,
                        Frame { remaining: f.remaining - chunk, has_next: f.has_next },
                    );
                    proof {
                        let mk3 = self.model();
                        lemma_moved_through(mk1, mk2, mk3, idx as nat, v@);
                        lemma_moved_compose(mk, mk1, mk3, level as nat, Seq::empty(), v@);
                        assert(Seq::<u8>::empty() + v@ =~= v@);
                        lemma_moved_compose(m0, mk, mk3, level as nat, buf@, v@);
                    }
                    buf.append(&mut v);
                },
            }
        }
        Ok(buf)
    }

    /// Skips what is left of the block at `idx`, chunk by chunk, up to its
    /// end.
    fn finish_at(&mut self, idx: usize) -> (res: Result<(), Error>)
        requires
            idx < old(self).frames@.len(),
        ensures
            res matches Err(e) ==> read_error(e) || e is UsizeOverflow,
            extends(old(self).model(), final(self).model()),
            final(self).failure == old(self).failure,
            res is Ok ==> final(self).frames@[idx as int] == (Frame {
                remaining: 0,
                has_next: false,
            }),
            res is Ok ==> exists|t: Seq<u8>|
                #[trigger] moved_at(old(self).model(), final(self).model(), (idx + 1) as nat, t),
            res matches Err(e) ==> !from_source(e) ==> ((e is UsizeOverflow && fresh(
                old(self).model(),
                final(self).model(),
            ).len() >= u64::MAX) || closing_failed(
                old(self).model(),
                final(self).model(),
                (idx + 1) as nat,
                e,
            )),
    {
        let ghost m0 = self.model();
        let ghost mut t: Seq<u8> = Seq::empty();
        let mut chunks: u64 = 0;
        proof {
            lemma_moved_none(m0, (idx + 1) as nat);
        }
        loop
            invariant
                m0 == old(self).model(),
                idx < m0.frames.len(),
                moved_at(m0, self.model(), (idx + 1) as nat, t),
                self.failure == old(self).failure,
                chunks <= t.len(),
            decreases u64::MAX - chunks,
        {
            let ghost mk = self.model();
            let res = self.update_remaining(idx);
            let ghost mk1 = self.model();
            proof {
                lemma_fresh_compose(m0, mk, mk1);
            }
            match res {
                Err(e) => {
                    proof {
                        if !from_source(e) {
                            lemma_closing_from_failed(mk, mk1, (idx + 1) as nat, e);
                            lemma_closing_moved(m0, mk, mk1, (idx + 1) as nat, t, e);
                        }
                    }
                    return Err(e);
                },
                Ok(()) => {},
            }
            proof {
                lemma_moved_compose(m0, mk, mk1, (idx + 1) as nat, t, Seq::empty());
                assert(t + Seq::<u8>::empty() =~= t);
            }
            let f = self.frames[idx];
            if f.remaining == 0 {
                return Ok(());
            }
            if chunks == u64::MAX {
                proof {
                    lemma_moved_fresh(m0, self.model(), (idx + 1) as nat, t);
                }
                return Err(Error::UsizeOverflow);
            }
            chunks = chunks + 1;
            let res = self.read_at(idx, f.remaining);
            let ghost mk2 = self.model();
            proof {
                lemma_fresh_compose(m0, mk1, mk2);
            }
            match res {
                Err(e) => {
                    proof {
                        if !from_source(e) {
                            lemma_moved_none(mk1, (idx + 1) as nat);
                            lemma_failed_through(mk1, mk1, mk2, idx as nat, f.remaining as nat, e);
                            lemma_closing_moved(m0, mk1, mk2, (idx + 1) as nat, t, e);
                        }
                    }
                    return Err(e);
                },
                Ok(v) => {
                    self.frames.set(idx, Frame { remaining: 0, has_next: f.has_next });
                    proof {
                        let mk3 = self.model();
                        lemma_moved_through(mk1, mk2, mk3, idx as nat, v@);
                        lemma_moved_compose(m0, mk1, mk3, (idx + 1) as nat, t, v@);
                        t = t + v@;
                    }
                },
            }
        }
    }

    /// Reads what is left of the block at `idx`, chunk by chunk, up to its
    /// end.
    fn read_all_at(&mut self, idx: usize) -> (res: Result<Vec<u8>, Error>)
        requires
            idx < old(self).frames@.len(),
        ensures
            res matches Err(e) ==> read_error(e),
            extends(old(self).model(), final(self).model()),
            final(self).failure == old(self).failure,
            res is Ok ==> final(self).frames@[idx as int] == (Frame {
                remaining: 0,
                has_next: false,
            }),
            res matches Ok(v) ==> moved_at(
                old(self).model(),
                final(self).model(),
                (idx + 1) as nat,
                v@,
            ),
            res matches Err(e) ==> !from_source(e) ==> closing_failed(
                old(self).model(),
                final(self).model(),
                (idx + 1) as nat,
                e,
            ),
    {
        let ghost m0 = self.model();
        let mut buf: Vec<u8> = Vec::new();
        proof {
            lemma_moved_none(m0, (idx + 1) as nat);
        }
        loop
            invariant
                m0 == old(self).model(),
                idx < m0.frames.len(),
                moved_at(m0, self.model(), (idx + 1) as nat, buf@),
                self.failure == old(self).failure,
            decreases usize::MAX - buf@.len(),
        {
            let ghost mk = self.model();
            let res = self.update_remaining(idx);
            let ghost mk1 = self.model();
            proof {
                lemma_fresh_compose(m0, mk, mk1);
            }
            match res {
                Err(e) => {
                    proof {
                        if !from_source(e) {
                            lemma_closing_from_failed(mk, mk1, (idx + 1) as nat, e);
                            lemma_closing_moved(m0, mk, mk1, (idx + 1) as nat, buf@, e);
                        }
                    }
                    return Err(e);
                },
                Ok(()) => {},
            }
            proof {
                lemma_moved_compose(m0, mk, mk1, (idx + 1) as nat, buf@, Seq::empty());
                assert(buf@ + Seq::<u8>::empty() =~= buf@);
            }
            let f = self.frames[idx];
            if f.remaining == 0 {
                return Ok(buf);
            }
            let res = self.read_at(idx, f.remaining);
            let ghost mk2 = self.model();
            proof {
                lemma_fresh_compose(m0, mk1, mk2);
            }
            match res {
                Err(e) => {
                    proof {
                        if !from_source(e) {
                            lemma_moved_none(mk1, (idx + 1) as nat);
                            lemma_failed_through(mk1, mk1, mk2, idx as nat, f.remaining as nat, e);
                            lemma_closing_moved(m0, mk1, mk2, (idx + 1) as nat, buf@, e);
                        }
                    }
                    return Err(e);
                },
                Ok(mut v) => {
                    self.frames.set(idx, Frame { remaining: 0, has_next: f.has_next });
                    proof {
                        let mk3 = self.model();
                        lemma_moved_through(mk1, mk2, mk3, idx as nat, v@);
                        lemma_moved_compose(m0, mk1, mk3, (idx + 1) as nat, buf@, v@);
                    }
                    buf.append(&mut v);
                    let _ = buf.len();
                },
            }
        }
    }


    /// Drops the innermost block, which has ended.
    fn close_ended(&mut self)
        requires
            old(self).frames@.len() >= 1,
            old(self).frames@.last() == (Frame { remaining: 0, has_next: false }),
        ensures
            final(self).failure == old(self).failure,
            closed_top(old(self).model(), final(self).model()),
    {
        let ghost m0 = self.model();
        let _ = self.frames.pop();
        proof {
            let m1 = self.model();
            let top = (m0.frames.len() - 1) as nat;
            assert(m1.frames =~= m0.frames.drop_last());
            assert(m0.log.take(m0.log.len() as int) =~= m0.log);
            assert(fresh(m0, m1) =~= Seq::<u8>::empty());
            assert forall|rest: Seq<u8>| #[trigger]
                level_of(m1, rest, top) == level_of(m1, rest, top) implies after_of(
                m0,
                fresh(m0, m1) + rest,
                top,
            ) == Some(level_of(m1, rest, top)) by {
                assert(fresh(m0, m1) + rest =~= rest);
                lemma_block_done(m0, top, rest);
                lemma_view_prefix(source_stream(rest), m1.frames, m0.frames, top);
            }
            assert forall|rest: Seq<u8>, i: nat| #[trigger]
                after_of(m1, rest, i) == after_of(m1, rest, i) && i < top implies after_of(
                m0,
                fresh(m0, m1) + rest,
                i,
            ) == after_of(m1, rest, i) by {
                assert(fresh(m0, m1) + rest =~= rest);
                lemma_view_prefix(source_stream(rest), m1.frames, m0.frames, i);
            }
        }
    }

    /// Read `cnt` bytes.
    pub fn read(&mut self, cnt: usize) -> (res: Result<Vec<u8>, Error>)
        ensures
            res matches Err(e) ==> read_error(e),
            extends(old(self).model(), final(self).model()),
            final(self).failed() == (old(self).failed() || res matches Err(Error::Io(_))),
            res matches Ok(v) ==> v@.len() == cnt && moved_at(
                old(self).model(),
                final(self).model(),
                old(self).model().frames.len(),
                v@,
            ),
            res matches Err(e) ==> !from_source(e) ==> cnt > 0 ==> failed_at(
                old(self).model(),
                final(self).model(),
                old(self).model().frames.len(),
                cnt as nat,
                e,
            ),
            res matches Err(e) ==> !from_source(e) ==> cnt == 0 ==> touch_failed(
                old(self).model(),
                final(self).model(),
                old(self).model().frames.len(),
                e,
            ),
            cnt > 0 && old(self).model().frames.len() >= 1 && old(self).model().frames.last() == (
            Frame { remaining: 0, has_next: false }) ==> (res matches Err(Error::EndOfBlock))
                && final(self).model() == old(self).model(),
    {
        let top = self.frames.len();
        let res = self.read_at(top, cnt);
        self.note_failure(res)
    }

    /// Opens a skippable block.
    ///
    /// Must be paired with a call to [`Self::end_skippable`].
    pub fn start_skippable(&mut self)
        ensures
            final(self).model() == (Model {
                frames: old(self).model().frames.push(Frame { remaining: 0, has_next: true }),
                log: old(self).model().log,
            }),
            final(self).failed() == old(self).failed(),
    {
        self.frames.push(Frame { remaining: 0, has_next: true });
    }

    /// Opens a block that holds nothing and reads no length from the input.
    ///
    /// Must be paired with a call to [`Self::end_skippable`].
    pub fn start_empty_block(&mut self)
        ensures
            final(self).model() == (Model {
                frames: old(self).model().frames.push(Frame { remaining: 0, has_next: false }),
                log: old(self).model().log,
            }),
            final(self).failed() == old(self).failed(),
    {
        self.frames.push(Frame { remaining: 0, has_next: false });
    }

    /// Finishes a skippable block.
    ///
    /// Remaining contents of the block are skipped if not yet read.
    pub fn end_skippable(&mut self) -> (res: Result<(), Error>)
        requires
            old(self).model().frames.len() >= 1,
        ensures
            res matches Err(e) ==> read_error(e) || e is UsizeOverflow,
            log_grew(old(self).model(), final(self).model()),
            final(self).failed() == (old(self).failed() || res matches Err(Error::Io(_))),
            res is Ok ==> closed_top(old(self).model(), final(self).model()),
            res is Err ==> final(self).model().frames.len() == old(self).model().frames.len(),
            res matches Err(e) ==> !from_source(e) ==> ((e is UsizeOverflow && fresh(
                old(self).model(),
                final(self).model(),
            ).len() >= u64::MAX) || closing_failed(
                old(self).model(),
                final(self).model(),
                old(self).model().frames.len(),
                e,
            )),
    {
        let ghost m0 = self.model();
        let top = self.frames.len() - 1;
        let res = self.finish_at(top);
        match res {
            Err(e) => {
                proof {
                    let m1 = self.model();
                    assert(m1.log.take(m0.log.len() as int) == m0.log);
                }
                self.note_failure(Err(e))
            },
            Ok(()) => {
                let ghost mk = self.model();
                let ghost t = choose|t: Seq<u8>| #[trigger]
                    moved_at(m0, mk, (top + 1) as nat, t);
                proof {
                    assert(self.frames@.last() == self.frames@[top as int]);
                }
                self.close_ended();
                proof {
                    lemma_closed_after_move(m0, mk, self.model(), t);
                }
                Ok(())
            },
        }
    }

    /// How many skippable blocks are open.
    ///
    /// Passed to [`Self::pop_to`] to return to this state.
    pub fn depth(&self) -> (r: usize)
        ensures
            r == self.model().frames.len(),
    {
        self.frames.len()
    }

    /// Returns the contained reader.
    pub fn into_inner(self) -> (r: R)
        ensures
            r == self.source(),
    {
        self.source
    }

    /// Whether the innermost open skippable block has no bytes left.
    ///
    /// Used to find the end of a run of values that reaches the end of the
    /// block, in place of a count written before it.
    pub fn block_exhausted(&mut self) -> (res: Result<bool, Error>)
        requires
            old(self).model().frames.len() >= 1,
        ensures
            res matches Err(e) ==> read_error(e),
            extends(old(self).model(), final(self).model()),
            final(self).failed() == (old(self).failed() || res matches Err(Error::Io(_))),
            res is Ok ==> moved_at(
                old(self).model(),
                final(self).model(),
                old(self).model().frames.len(),
                Seq::empty(),
            ),
            res matches Ok(x) ==> forall|rest: Seq<u8>|
                #![trigger level_of(final(self).model(), rest, old(self).model().frames.len())]
                x == exhausted(level_of(final(self).model(), rest, old(self).model().frames.len())),
            res matches Err(e) ==> !from_source(e) ==> failed_at(
                old(self).model(),
                final(self).model(),
                old(self).model().frames.len(),
                0,
                e,
            ),
            old(self).model().frames.last() == (Frame { remaining: 0, has_next: false }) ==> res
                == Ok::<bool, Error>(true) && final(self).model() == old(self).model(),
    {
        let top = self.frames.len() - 1;
        let f0 = self.frames[top];
        if f0.remaining == 0 && !f0.has_next {
            // The block has ended: nothing is asked of the source.
            proof {
                let m0 = self.model();
                lemma_moved_none(m0, (top + 1) as nat);
                assert forall|rest: Seq<u8>| #[trigger]
                    level_of(m0, rest, (top + 1) as nat) == level_of(m0, rest, (top + 1) as nat)
                    implies exhausted(level_of(m0, rest, (top + 1) as nat)) by {
                    let lower = level_of(m0, rest, top as nat);
                    assert(level_of(m0, rest, (top + 1) as nat) == frame_content(lower, f0).0);
                    assert(lower.bytes.take(0) =~= Seq::<u8>::empty());
                }
            }
            return Ok(true);
        }
        let res = self.update_remaining(top);
        match res {
            Err(e) => self.note_failure(Err(e)),
            Ok(()) => {
                let f = self.frames[top];
                proof {
                    let m1 = self.model();
                    assert forall|rest: Seq<u8>| #[trigger]
                        level_of(m1, rest, (top + 1) as nat) == level_of(m1, rest, (top + 1) as nat)
                        implies (f.remaining == 0) == exhausted(
                        level_of(m1, rest, (top + 1) as nat),
                    ) by {
                        let lower = level_of(m1, rest, top as nat);
                        assert(level_of(m1, rest, (top + 1) as nat) == frame_content(lower, f).0);
                        if lower.bytes.len() >= f.remaining {
                            assert(lower.bytes.take(f.remaining as int).len() == f.remaining);
                        }
                    }
                }
                Ok(f.remaining == 0)
            },
        }
    }

    /// Reads the remainder of the innermost open skippable block.
    pub fn read_rest(&mut self) -> (res: Result<Vec<u8>, Error>)
        requires
            old(self).model().frames.len() >= 1,
        ensures
            res matches Err(e) ==> read_error(e),
            extends(old(self).model(), final(self).model()),
            final(self).failed() == (old(self).failed() || res matches Err(Error::Io(_))),
            res matches Ok(v) ==> moved_at(
                old(self).model(),
                final(self).model(),
                old(self).model().frames.len(),
                v@,
            ),
            res is Ok ==> forall|rest: Seq<u8>|
                #![trigger level_of(final(self).model(), rest, old(self).model().frames.len())]
                exhausted(level_of(final(self).model(), rest, old(self).model().frames.len())),
            res matches Err(e) ==> !from_source(e) ==> closing_failed(
                old(self).model(),
                final(self).model(),
                old(self).model().frames.len(),
                e,
            ),
    {
        let top = self.frames.len() - 1;
        let res = self.read_all_at(top);
        proof {
            if res is Ok {
                let m1 = self.model();
                assert forall|rest: Seq<u8>| #[trigger]
                    level_of(m1, rest, (top + 1) as nat) == level_of(m1, rest, (top + 1) as nat)
                    implies exhausted(level_of(m1, rest, (top + 1) as nat)) by {
                    lemma_block_done(m1, top as nat, rest);
                }
            }
        }
        self.note_failure(res)
    }

    /// Opens a skippable block, reads all its contents, and closes it.
    ///
    /// Returns the raw bytes contained within the skippable block.
    pub fn read_skippable_block(&mut self) -> (res: Result<Vec<u8>, Error>)
        ensures
            res matches Err(e) ==> read_error(e),
            final(self).failed() == (old(self).failed() || res matches Err(Error::Io(_))),
            res is Ok ==> extends(old(self).model(), final(self).model()),
            res matches Ok(v) ==> forall|rest: Seq<u8>|
                #![trigger level_of(final(self).model(), rest, old(self).model().frames.len())]
                frame_content(
                    level_of(
                        old(self).model(),
                        fresh(old(self).model(), final(self).model()) + rest,
                        old(self).model().frames.len(),
                    ),
                    Frame { remaining: 0, has_next: true },
                ) == (Stream { bytes: v@, end: StreamEnd::Clean }, Some(
                    level_of(final(self).model(), rest, old(self).model().frames.len()),
                )),
            res is Ok ==> forall|rest: Seq<u8>, i: nat|
                #![trigger after_of(final(self).model(), rest, i)]
                i < old(self).model().frames.len() ==> after_of(
                    old(self).model(),
                    fresh(old(self).model(), final(self).model()) + rest,
                    i,
                ) == after_of(final(self).model(), rest, i),
            res matches Err(e) ==> !from_source(e) ==> forall|rest: Seq<u8>|
                #![trigger level_of(old(self).model(), fresh(old(self).model(), final(self).model()) + rest, old(self).model().frames.len())]
                {
                    let c = frame_content(
                        level_of(
                            old(self).model(),
                            fresh(old(self).model(), final(self).model()) + rest,
                            old(self).model().frames.len(),
                        ),
                        Frame { remaining: 0, has_next: true },
                    ).0;
                    !(c.end is Clean) && fail_is(fail_of(c.end), e)
                },
    {
        let ghost m0 = self.model();
        let top = self.frames.len();
        self.start_skippable();
        let ghost ma = self.model();
        let res = self.read_all_at(top);
        let ghost mb = self.model();
        match res {
            Err(e) => {
                proof {
                    if !from_source(e) {
                        lemma_block_read_failed(m0, ma, mb, e);
                    }
                }
                self.note_failure(Err(e))
            },
            Ok(v) => {
                proof {
                    assert(self.frames@.last() == self.frames@[top as int]);
                }
                self.close_ended();
                proof {
                    lemma_block_read(m0, ma, mb, self.model(), v@);
                }
                Ok(v)
            },
        }
    }

    /// Closes every skippable block opened since the stack was `depth` deep,
    /// skipping over whatever is left of each.
    pub fn pop_to(&mut self, depth: usize) -> (res: Result<(), Error>)
        requires
            depth <= old(self).model().frames.len(),
        ensures
            log_grew(old(self).model(), final(self).model()),
            final(self).failed() == (old(self).failed() || res matches Err(Error::Io(_))),
            old(self).failed() ==> res is Err && final(self).model() == old(self).model(),
            res is Ok ==> final(self).model().frames.len() == depth,
            res is Ok && depth == old(self).model().frames.len() ==> final(self).model() == old(
                self,
            ).model(),
            res is Ok && depth < old(self).model().frames.len() ==> forall|rest: Seq<u8>|
                #![trigger level_of(final(self).model(), rest, depth as nat)]
                after_of(
                    old(self).model(),
                    fresh(old(self).model(), final(self).model()) + rest,
                    depth as nat,
                ) == Some(level_of(final(self).model(), rest, depth as nat)),
            res is Ok ==> forall|rest: Seq<u8>, i: nat|
                #![trigger after_of(final(self).model(), rest, i)]
                i < depth ==> after_of(
                    old(self).model(),
                    fresh(old(self).model(), final(self).model()) + rest,
                    i,
                ) == after_of(final(self).model(), rest, i),
            res matches Err(e) ==> (e is Io || e is EndOfBlock || e is BadVarint
                || e is UsizeOverflow),
            old(self).failed() ==> res matches Err(Error::Io(_)),
            !old(self).failed() && depth == old(self).model().frames.len() ==> res is Ok,
            res matches Err(e) ==> !old(self).failed() ==> !from_source(e) ==> (e is UsizeOverflow
                && fresh(old(self).model(), final(self).model()).len() >= u64::MAX) || exists|mk: Model|
                #![trigger popping(old(self).model(), mk)]
                popping(old(self).model(), mk) && depth < mk.frames.len() && (mk.frames.len()
                    == old(self).model().frames.len() ==> mk == old(self).model()) && closing_failed(
                    mk,
                    final(self).model(),
                    mk.frames.len(),
                    e,
                ),
    {
        let ghost m0 = self.model();
        proof {
            assert(m0.log.take(m0.log.len() as int) =~= m0.log);
        }
        if let Some(kind) = self.failure {
            return Err(Error::Io(io_error_from_kind(kind)));
        }
        proof {
            assert(fresh(m0, m0) =~= Seq::<u8>::empty());
            assert forall|rest: Seq<u8>| #[trigger] (fresh(m0, m0) + rest) == rest by {
                assert(fresh(m0, m0) + rest =~= rest);
            }
        }
        while self.frames.len() > depth
            invariant
                m0 == old(self).model(),
                self.failure is None,
                old(self).failure is None,
                depth <= self.frames@.len(),
                popping(m0, self.model()),
                self.frames@.len() == m0.frames.len() ==> self.model() == m0,
            decreases self.frames@.len(),
        {
            let ghost mk = self.model();
            match self.end_skippable() {
                Err(e) => {
                    proof {
                        lemma_fresh_compose(m0, mk, self.model());
                        let m1 = self.model();
                        let r = Seq::<u8>::empty();
                        if !from_source(e) && !(e is UsizeOverflow) {
                            assert(closing_failed(mk, m1, mk.frames.len(), e));
                            assert(popping(m0, mk) && depth < mk.frames.len());
                            let x = level_of(mk, fresh(mk, m1) + r, mk.frames.len());
                            assert(fail_is(fail_of(x.end), e));
                            match fail_of(x.end) {
                                ReadFail::EndOfBlock => {},
                                ReadFail::BadVarint => {},
                                ReadFail::Source => {},
                            }
                        }
                    }
                    return Err(e);
                },
                Ok(()) => {
                    proof {
                        lemma_pop_step(m0, mk, self.model());
                    }
                },
            }
        }
        Ok(())
    }

    /// Reads a varint of at most `max_len` bytes, whose final byte, where it
    /// is the `max_len`-th, is at most `max_last`.
    pub fn read_varint(&mut self, max_len: usize, max_last: u8) -> (res: Result<u128, Error>)
        requires
            1 <= max_len <= 19,
            max_last < 128,
            varint_bound(max_len as nat, max_last as nat)
                <= 0x1_0000_0000_0000_0000_0000_0000_0000_0000,
        ensures
            res matches Err(e) ==> read_error(e),
            extends(old(self).model(), final(self).model()),
            final(self).failed() == (old(self).failed() || res matches Err(Error::Io(_))),
            res matches Ok(v) ==> exists|h: Seq<u8>|
                #[trigger] moved_at(
                    old(self).model(),
                    final(self).model(),
                    old(self).model().frames.len(),
                    h,
                ) && varint_parse(h, max_len as nat, max_last as nat) == VarintParse::Value(
                    v as nat,
                    h.len(),
                ),
            res matches Err(e) ==> !from_source(e) ==> varint_failed(
                old(self).model(),
                final(self).model(),
                old(self).model().frames.len(),
                max_len as nat,
                max_last as nat,
                e,
            ),
    {
        let top = self.frames.len();
        let res = self.take_varint_at(top, max_len, max_last);
        self.note_failure(res)
    }

    /// Read one byte.
    pub fn read_u8(&mut self) -> (res: Result<u8, Error>)
        ensures
            res matches Err(e) ==> read_error(e),
            extends(old(self).model(), final(self).model()),
            final(self).failed() == (old(self).failed() || res matches Err(Error::Io(_))),
            res matches Ok(b) ==> moved_at(
                old(self).model(),
                final(self).model(),
                old(self).model().frames.len(),
                seq![b],
            ),
            res matches Err(e) ==> !from_source(e) ==> failed_at(
                old(self).model(),
                final(self).model(),
                old(self).model().frames.len(),
                1,
                e,
            ),
            old(self).model().frames.len() >= 1 && old(self).model().frames.last() == (Frame {
                remaining: 0,
                has_next: false,
            }) ==> (res matches Err(Error::EndOfBlock)) && final(self).model() == old(self).model(),
    {
        let top = self.frames.len();
        let res = self.read_byte_at(top);
        self.note_failure(res)
    }
}

} // verus!
