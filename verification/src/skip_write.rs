//! Writing nested blocks.
//!
//! A [`SkipWrite`] collects the content of each open block and, when the
//! block is closed, frames it into the content of the block around it.

use vstd::prelude::*;

use crate::block::{MAX_CHUNK, encode_block};
use crate::varint::{varint_enc, varint_u16};

verus! {

/// Appends the framing of `content` as a block to `out`.
pub fn write_block(out: &mut Vec<u8>, content: &Vec<u8>)
    ensures
        final(out)@ == old(out)@ + encode_block(content@),
{
    let len = content.len();
    let mut i: usize = 0;
    assert(content@.skip(0) =~= content@);
    while len - i >= MAX_CHUNK
        invariant
            len == content@.len(),
            i <= content@.len(),
            old(out)@ + encode_block(content@) == out@ + encode_block(content@.skip(i as int)),
        decreases content@.len() - i,
    {
        let ghost before = out@;
        let ghost c = content@.skip(i as int);
        let mut header = varint_u16(MAX_CHUNK as u16);
        out.append(&mut header);
        let mut j: usize = 0;
        while j < MAX_CHUNK
            invariant
                len == content@.len(),
                i + MAX_CHUNK <= content@.len(),
                j <= MAX_CHUNK,
                out@ == before + varint_enc(MAX_CHUNK as nat) + content@.subrange(
                    i as int,
                    i + j,
                ),
            decreases MAX_CHUNK - j,
        {
            out.push(content[i + j]);
            j = j + 1;
        }
        proof {
            assert(content@.subrange(i as int, i + MAX_CHUNK) =~= c.take(MAX_CHUNK as int));
            assert(c.skip(MAX_CHUNK as int) =~= content@.skip(i + MAX_CHUNK));
            assert(encode_block(c) == varint_enc(MAX_CHUNK as nat) + c.take(MAX_CHUNK as int)
                + encode_block(c.skip(MAX_CHUNK as int)));
            assert(before + encode_block(c) =~= out@ + encode_block(
                content@.skip(i + MAX_CHUNK),
            ));
        }
        i = i + MAX_CHUNK;
    }
    let ghost before = out@;
    let ghost c = content@.skip(i as int);
    let mut header = varint_u16((content.len() - i) as u16);
    out.append(&mut header);
    let mut j: usize = i;
    while j < content.len()
        invariant
            i <= j <= content@.len(),
            out@ == before + varint_enc(c.len()) + content@.subrange(i as int, j as int),
        decreases content@.len() - j,
    {
        out.push(content[j]);
        j = j + 1;
    }
    proof {
        assert(content@.subrange(i as int, content@.len() as int) =~= c);
        assert(encode_block(c) == varint_enc(c.len()) + c);
    }
}

/// A writer that frames what is written within an open block as a block.
pub struct SkipWrite {
    base: Vec<u8>,
    stack: Vec<Vec<u8>>,
}

impl View for SkipWrite {
    /// What has been written outside any block, then the content so far of
    /// each open block, outermost first.
    type V = Seq<Seq<u8>>;

    closed spec fn view(&self) -> Seq<Seq<u8>> {
        seq![self.base@] + self.stack@.map_values(|v: Vec<u8>| v@)
    }
}

/// Appends `d` to the innermost of `parts`.
pub open spec fn wrote(parts: Seq<Seq<u8>>, d: Seq<u8>) -> Seq<Seq<u8>>
    recommends
        parts.len() >= 1,
{
    parts.update(parts.len() - 1, parts.last() + d)
}

/// Closes the innermost of `parts`, framing it into the one around it.
pub open spec fn closed(parts: Seq<Seq<u8>>) -> Seq<Seq<u8>>
    recommends
        parts.len() >= 2,
{
    wrote(parts.drop_last(), encode_block(parts.last()))
}

/// Two writes in a row write what both did.
pub proof fn lemma_wrote_wrote(parts: Seq<Seq<u8>>, a: Seq<u8>, b: Seq<u8>)
    requires
        parts.len() >= 1,
    ensures
        wrote(wrote(parts, a), b) == wrote(parts, a + b),
        wrote(parts, a).len() == parts.len(),
{
    assert(wrote(wrote(parts, a), b) =~= wrote(parts, a + b)) by {
        assert(parts.last() + a + b =~= parts.last() + (a + b));
    }
}

impl SkipWrite {
    /// There is always the part outside any block.
    pub proof fn lemma_has_base(&self)
        ensures
            self@.len() >= 1,
    {
    }

    /// Writes one byte into the innermost open block, or outside any block.
    pub fn write_byte(&mut self, b: u8)
        ensures
            final(self)@ == wrote(old(self)@, seq![b]),
    {
        let ghost parts = self@;
        let n = self.stack.len();
        if n == 0 {
            self.base.push(b);
            assert(self.base@ =~= parts[0] + seq![b]);
            assert(self@ =~= wrote(parts, seq![b]));
        } else {
            let ghost old_stack = self.stack@;
            let mut top = self.stack.pop().unwrap();
            assert(top@ == parts.last());
            top.push(b);
            assert(top@ =~= parts.last() + seq![b]);
            self.stack.push(top);
            assert(self.stack@ =~= old_stack.update(n - 1, top));
            assert(self@ =~= wrote(parts, seq![b]));
        }
    }

    /// A writer with nothing written and no block open.
    pub fn new() -> (r: Self)
        ensures
            r@ == seq![Seq::<u8>::empty()],
    {
        let r = SkipWrite { base: Vec::new(), stack: Vec::new() };
        assert(r@ =~= seq![Seq::<u8>::empty()]);
        r
    }

    /// Writes `data` into the innermost open block, or outside any block.
    pub fn write(&mut self, data: &[u8])
        ensures
            final(self)@ == wrote(old(self)@, data@),
    {
        let ghost parts = self@;
        let n = self.stack.len();
        if n == 0 {
            let mut i: usize = 0;
            while i < data.len()
                invariant
                    self.stack@.len() == 0,
                    i <= data@.len(),
                    self.base@ == parts[0] + data@.subrange(0, i as int),
                    parts == seq![old(self).base@] + old(self).stack@.map_values(|v: Vec<u8>| v@),
                decreases data@.len() - i,
            {
                self.base.push(data[i]);
                i = i + 1;
            }
            assert(data@.subrange(0, data@.len() as int) =~= data@);
            assert(self@ =~= wrote(parts, data@));
        } else {
            let mut top = self.stack.pop().unwrap();
            let ghost inner = top@;
            let mut i: usize = 0;
            while i < data.len()
                invariant
                    i <= data@.len(),
                    top@ == inner + data@.subrange(0, i as int),
                decreases data@.len() - i,
            {
                top.push(data[i]);
                i = i + 1;
            }
            self.stack.push(top);
            assert(data@.subrange(0, data@.len() as int) =~= data@);
            assert(self@ =~= wrote(parts, data@));
        }
    }

    /// Opens a skippable block.
    pub fn start_skippable(&mut self)
        ensures
            final(self)@ == old(self)@.push(Seq::<u8>::empty()),
    {
        self.stack.push(Vec::new());
        assert(self@ =~= old(self)@.push(Seq::<u8>::empty()));
    }

    /// How many skippable blocks are open.
    pub fn depth(&self) -> (r: usize)
        ensures
            r + 1 == self@.len(),
    {
        self.stack.len()
    }

    /// Closes the innermost skippable block, writing it, framed, into the
    /// block around it.
    pub fn end_skippable(&mut self)
        requires
            old(self)@.len() >= 2,
        ensures
            final(self)@ == closed(old(self)@),
    {
        let ghost parts = self@;
        let content = self.stack.pop().unwrap();
        assert(content@ == parts.last());
        let n = self.stack.len();
        if n == 0 {
            write_block(&mut self.base, &content);
            assert(self@ =~= closed(parts));
        } else {
            let mut top = self.stack.pop().unwrap();
            write_block(&mut top, &content);
            self.stack.push(top);
            assert(self@ =~= closed(parts));
        }
    }

    /// What was written outside any block.
    pub fn into_inner(self) -> (r: Vec<u8>)
        ensures
            r@ == self@[0],
    {
        self.base
    }
}

} // verus!
