//! Sources of bytes for a reader.

use vstd::prelude::*;

verus! {

/// A source of bytes that a reader pulls from, such as a file or a socket.
pub trait ByteSource {
    /// Delivers the next `n` bytes, or fails.
    fn fetch(&mut self, n: usize) -> Result<Vec<u8>, std::io::Error>;
}

/// The error of a source that has no more bytes.
#[verifier::external_body]
pub(crate) fn eof_error() -> std::io::Error {
    std::io::Error::from(std::io::ErrorKind::UnexpectedEof)
}

/// Bytes held in memory, delivered in order.
pub struct SliceSource {
    data: Vec<u8>,
    pos: usize,
}

impl SliceSource {
    #[verifier::type_invariant]
    spec fn wf(self) -> bool {
        self.pos <= self.data@.len()
    }

    /// The bytes not yet delivered.
    pub closed spec fn remaining(&self) -> Seq<u8> {
        self.data@.skip(self.pos as int)
    }

    /// A source delivering `data`.
    pub fn new(data: Vec<u8>) -> (r: Self)
        ensures
            r.remaining() == data@,
    {
        let r = SliceSource { data, pos: 0 };
        assert(r.data@.skip(0) =~= r.data@);
        r
    }

    /// How many bytes have been delivered.
    pub fn position(&self) -> (r: usize)
        ensures
            r == self.delivered_len(),
    {
        self.pos
    }

    /// How many bytes have been delivered.
    pub closed spec fn delivered_len(&self) -> nat {
        self.pos as nat
    }

    /// The bytes not yet delivered.
    pub fn rest(&self) -> (r: Vec<u8>)
        ensures
            r@ == self.remaining(),
    {
        proof {
            use_type_invariant(self);
        }
        let mut out: Vec<u8> = Vec::new();
        let mut i = self.pos;
        while i < self.data.len()
            invariant
                self.pos <= i <= self.data@.len(),
                out@ == self.data@.subrange(self.pos as int, i as int),
            decreases self.data@.len() - i,
        {
            out.push(self.data[i]);
            i = i + 1;
        }
        assert(out@ =~= self.remaining());
        out
    }
}

impl ByteSource for SliceSource {
    fn fetch(&mut self, n: usize) -> (r: Result<Vec<u8>, std::io::Error>)
        ensures
            r is Ok <==> n <= old(self).remaining().len(),
            r matches Ok(v) ==> v@ == old(self).remaining().take(n as int) && final(self).remaining()
                == old(self).remaining().skip(n as int),
            r is Err ==> final(self).remaining() == old(self).remaining(),
            final(self).delivered_len() == old(self).delivered_len() + (if r is Ok {
                n as nat
            } else {
                0
            }),
    {
        proof {
            use_type_invariant(&*self);
        }
        if n > self.data.len() - self.pos {
            return Err(eof_error());
        }
        let mut out: Vec<u8> = Vec::new();
        let start = self.pos;
        let mut i: usize = 0;
        while i < n
            invariant
                start + n <= self.data@.len(),
                self.data@.len() <= usize::MAX,
                self.pos == start,
                i <= n,
                out@ == self.data@.subrange(start as int, start + i),
            decreases n - i,
        {
            out.push(self.data[start + i]);
            i = i + 1;
        }
        self.pos = start + n;
        assert(out@ =~= old(self).remaining().take(n as int));
        assert(self.data@.skip(self.pos as int) =~= old(self).remaining().skip(n as int));
        Ok(out)
    }
}

} // verus!
