//! The input byte source: an ordered, consumable sequence of bytes exposed
//! one byte at a time, with end of stream signalled distinctly.

use vstd::prelude::*;

verus! {

/// A pull source of bytes.  The scanner borrows it exclusively for the
/// duration of one scan and consumes it front to back; `remaining()` is the
/// sequence of bytes not yet consumed.
pub struct ByteStream {
    buf: Vec<u8>,
    pos: usize,
}

impl ByteStream {
    #[verifier::type_invariant]
    spec fn inv(self) -> bool {
        self.pos <= self.buf@.len()
    }

    /// The bytes that have not been consumed yet.
    pub closed spec fn remaining(self) -> Seq<u8> {
        self.buf@.subrange(self.pos as int, self.buf@.len() as int)
    }

    /// Wraps a buffer as a stream positioned at its first byte.
    pub fn new(buf: Vec<u8>) -> (r: ByteStream)
        ensures
            r.remaining() == buf@,
    {
        let r = ByteStream { buf, pos: 0 };
        proof {
            assert(r.remaining() =~= r.buf@);
        }
        r
    }

    /// Returns the next byte without consuming it, or `None` at end of stream.
    pub fn peek(&self) -> (r: Option<u8>)
        ensures
            self.remaining().len() > 0 ==> r == Some(self.remaining()[0]),
            self.remaining().len() == 0 ==> r is None,
    {
        proof {
            use_type_invariant(&*self);
        }
        if self.pos < self.buf.len() {
            Some(self.buf[self.pos])
        } else {
            None
        }
    }

    /// Consumes and returns the next byte, or `None` at end of stream.
    pub fn next(&mut self) -> (r: Option<u8>)
        ensures
            old(self).remaining().len() > 0 ==> r == Some(old(self).remaining()[0])
                && final(self).remaining() == old(self).remaining().drop_first(),
            old(self).remaining().len() == 0 ==> r is None && final(self).remaining()
                == old(self).remaining(),
    {
        proof {
            use_type_invariant(&*self);
        }
        if self.pos < self.buf.len() {
            let b = self.buf[self.pos];
            self.pos = self.pos + 1;
            proof {
                assert(self.remaining() =~= old(self).remaining().drop_first());
            }
            Some(b)
        } else {
            None
        }
    }
}

} // verus!
