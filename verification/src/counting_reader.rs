//! A sequential byte source over an in-memory buffer that keeps a running
//! count of the bytes it has handed out, so that a failure anywhere in a
//! parse can be located by its byte offset in the stream.

use vstd::prelude::*;

use crate::XZError;
use crate::XZErrorKind;

verus! {

/// Byte source with a cumulative count of delivered bytes.
pub struct CountingReader {
    data: Vec<u8>,
    pos: usize,
}

impl CountingReader {
    /// Total bytes handed out so far.
    pub closed spec fn consumed(self) -> int {
        self.pos as int
    }

    /// The bytes not yet handed out, in stream order.
    pub closed spec fn remaining(self) -> Seq<u8> {
        self.data@.skip(self.pos as int)
    }

    pub closed spec fn wf(self) -> bool {
        self.pos <= self.data@.len()
    }

    pub fn new(data: Vec<u8>) -> (r: CountingReader)
        ensures
            r.wf(),
            r.consumed() == 0,
            r.remaining() == data@,
    {
        let r = CountingReader { data, pos: 0 };
        proof {
            assert(r.remaining() =~= r.data@);
        }
        r
    }

    /// The cumulative number of bytes successfully delivered.
    pub fn count(&self) -> (c: usize)
        ensures
            c == self.consumed(),
    {
        self.pos
    }

    /// Hands out the next byte; fails without moving when none is left.
    pub fn read_byte(&mut self) -> (r: Result<u8, XZError>)
        requires
            old(self).wf(),
        ensures
            final(self).wf(),
            old(self).remaining().len() > 0 ==> (r matches Ok(b)
                && b == old(self).remaining()[0]
                && final(self).consumed() == old(self).consumed() + 1
                && final(self).remaining() == old(self).remaining().skip(1)),
            old(self).remaining().len() == 0 ==> (r matches Err(e)
                && e.kind == XZErrorKind::IO
                && e.location is None
                && final(self).consumed() == old(self).consumed()
                && final(self).remaining() == old(self).remaining()),
    {
        if self.pos < self.data.len() {
            let b = self.data[self.pos];
            self.pos = self.pos + 1;
            proof {
                assert(self.remaining() =~= old(self).remaining().skip(1));
            }
            Ok(b)
        } else {
            Err(XZError { kind: XZErrorKind::IO, location: None })
        }
    }

    /// Hands out exactly `n` bytes. A shortfall consumes whatever was left
    /// and fails, as a read-to-fill on an exhausted source does.
    pub fn read_exact(&mut self, n: usize) -> (r: Result<Vec<u8>, XZError>)
        requires
            old(self).wf(),
        ensures
            final(self).wf(),
            old(self).remaining().len() >= n ==> (r matches Ok(v)
                && v@ == old(self).remaining().take(n as int)
                && final(self).consumed() == old(self).consumed() + n
                && final(self).remaining() == old(self).remaining().skip(n as int)),
            old(self).remaining().len() < n ==> (r matches Err(e)
                && e.kind == XZErrorKind::IO
                && e.location is None
                && final(self).consumed() == old(self).consumed() + old(self).remaining().len()
                && final(self).remaining() == Seq::<u8>::empty()),
    {
        if n <= self.data.len() - self.pos {
            let mut v: Vec<u8> = Vec::new();
            let mut j: usize = 0;
            while j < n
                invariant
                    j <= n,
                    self == old(self),
                    self.pos + n <= self.data.len(),
                    v@ =~= self.data@.subrange(self.pos as int, self.pos + j),
                decreases n - j,
            {
                v.push(self.data[self.pos + j]);
                j = j + 1;
            }
            self.pos = self.pos + n;
            proof {
                assert(v@ =~= old(self).remaining().take(n as int));
                assert(self.remaining() =~= old(self).remaining().skip(n as int));
            }
            Ok(v)
        } else {
            self.pos = self.data.len();
            proof {
                assert(self.remaining() =~= Seq::<u8>::empty());
            }
            Err(XZError { kind: XZErrorKind::IO, location: None })
        }
    }
}

} // verus!
