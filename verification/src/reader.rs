//! A cursor over bytes held in memory.

use crate::error::Error;
use vstd::prelude::*;

verus! {

/// Reads bytes from a slice, front to back, and remembers how far it got.
#[derive(Clone, Copy, Debug)]
pub struct Reader<'a> {
    bytes: &'a [u8],
    pos: usize,
}

impl<'a> Reader<'a> {
    /// All the bytes that this reader was made for.
    pub closed spec fn source(&self) -> Seq<u8> {
        self.bytes@
    }

    /// How many of its bytes this reader has handed out.
    pub closed spec fn consumed(&self) -> nat {
        self.pos as nat
    }

    /// The cursor never stands past the end of its bytes.
    pub open spec fn wf(&self) -> bool {
        self.consumed() <= self.source().len()
    }

    /// The bytes not yet read.
    pub open spec fn remaining(&self) -> Seq<u8> {
        self.source().skip(self.consumed() as int)
    }

    /// A reader holds no more bytes than can be counted.
    pub proof fn lemma_bounded(&self)
        ensures
            self.source().len() <= usize::MAX,
    {
        assert(self.bytes.len() == self.bytes@.len());
    }

    /// A reader at the start of `bytes`.
    pub fn new(bytes: &'a [u8]) -> (r: Self)
        ensures
            r.wf(),
            r.source() == bytes@,
            r.consumed() == 0,
    {
        Reader { bytes, pos: 0 }
    }

    /// The number of bytes handed out so far.
    pub fn position(&self) -> (n: usize)
        ensures
            n == self.consumed(),
    {
        self.pos
    }

    /// The bytes not yet read, without reading them.
    pub fn rest(&self) -> (s: &'a [u8])
        requires
            self.wf(),
        ensures
            s@ == self.remaining(),
    {
        let s = vstd::slice::slice_subrange(self.bytes, self.pos, self.bytes.len());
        assert(s@ =~= self.remaining());
        s
    }

    /// Reads one byte, or `None` at the end.
    pub fn read_byte(&mut self) -> (b: Option<u8>)
        requires
            old(self).wf(),
        ensures
            final(self).wf(),
            final(self).source() == old(self).source(),
            old(self).remaining().len() == 0 ==> b.is_none() && final(self).consumed() == old(
                self,
            ).consumed(),
            old(self).remaining().len() > 0 ==> b == Some(old(self).remaining()[0])
                && final(self).consumed() == old(self).consumed() + 1,
    {
        if self.pos < self.bytes.len() {
            let b = self.bytes[self.pos];
            self.pos = self.pos + 1;
            Some(b)
        } else {
            None
        }
    }

    /// Reads exactly `n` bytes. Where fewer are left, nothing is read and
    /// the call fails with [`Error::UnexpectedEof`].
    pub fn read_exact(&mut self, n: usize) -> (res: Result<&'a [u8], Error>)
        requires
            old(self).wf(),
        ensures
            final(self).wf(),
            final(self).source() == old(self).source(),
            n <= old(self).remaining().len() ==> res.is_ok() && res.unwrap()@ == old(
                self,
            ).remaining().take(n as int) && final(self).consumed() == old(self).consumed() + n,
            n > old(self).remaining().len() ==> res == Err::<&[u8], Error>(Error::UnexpectedEof)
                && final(self).consumed() == old(self).consumed(),
    {
        if n <= self.bytes.len() - self.pos {
            let s = vstd::slice::slice_subrange(self.bytes, self.pos, self.pos + n);
            assert(s@ =~= old(self).remaining().take(n as int));
            self.pos = self.pos + n;
            Ok(s)
        } else {
            Err(Error::UnexpectedEof)
        }
    }
}

} // verus!
