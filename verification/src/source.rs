//! A byte source that is fed from outside.

use vstd::prelude::*;

verus! {

/// The bytes of a stream, as far as they have arrived, together with a read position. It
/// hands its bytes out in order. It keeps in memory only the bytes from the read position
/// on, and those before it that arrived with them.
pub struct ByteSource {
    /// The bytes that are kept.
    data: Vec<u8>,
    /// Index in `data` of the next byte to hand out.
    pos: usize,
    /// Whether the whole stream has arrived.
    complete: bool,
    /// The bytes of the stream that are not kept any more.
    dropped: Ghost<Seq<u8>>,
}

impl ByteSource {
    /// All the bytes of the stream that have arrived, those already read included.
    pub closed spec fn bytes(&self) -> Seq<u8> {
        self.dropped@ + self.data@
    }

    /// The number of bytes already read.
    pub closed spec fn position(&self) -> nat {
        self.dropped@.len() + self.pos as nat
    }

    /// Whether the whole stream has arrived.
    pub closed spec fn complete(&self) -> bool {
        self.complete
    }

    /// The number of bytes at the front of the stream that are not kept any more. Only
    /// `push` changes it.
    pub closed spec fn origin(&self) -> nat {
        self.dropped@.len()
    }

    /// The position is among the bytes that are kept, or at their end.
    pub open spec fn wf(&self) -> bool {
        self.origin() <= self.position() <= self.bytes().len()
    }

    /// Both stand for the same stream, of which the same bytes have arrived and are kept.
    pub open spec fn same_stream(self, other: ByteSource) -> bool {
        &&& self.bytes() == other.bytes()
        &&& self.origin() == other.origin()
        &&& self.complete() == other.complete()
    }

    /// The bytes that have arrived and are still to be read.
    pub open spec fn remaining(&self) -> Seq<u8> {
        self.bytes().subrange(self.position() as int, self.bytes().len() as int)
    }

    /// A source that will hand out `data` from its first byte on: `data` is the whole
    /// stream.
    pub fn new(data: Vec<u8>) -> (source: ByteSource)
        ensures
            source.wf(),
            source.bytes() == data@,
            source.position() == 0,
            source.origin() == 0,
            source.complete(),
    {
        let source = ByteSource { data, pos: 0, complete: true, dropped: Ghost(Seq::empty()) };
        proof {
            assert(source.bytes() =~= data@);
        }
        source
    }

    /// A source of which `data` has arrived so far; `push` brings more, until `finish`.
    pub fn partial(data: Vec<u8>) -> (source: ByteSource)
        ensures
            source.wf(),
            source.bytes() == data@,
            source.position() == 0,
            source.origin() == 0,
            !source.complete(),
    {
        let source = ByteSource { data, pos: 0, complete: false, dropped: Ghost(Seq::empty()) };
        proof {
            assert(source.bytes() =~= data@);
        }
        source
    }

    /// Whether the whole stream has arrived.
    pub fn is_complete(&self) -> (complete: bool)
        ensures
            complete == self.complete(),
    {
        self.complete
    }

    /// The number of bytes that have arrived and are still to be read.
    pub fn available(&self) -> (count: usize)
        requires
            self.wf(),
        ensures
            count == self.bytes().len() - self.position(),
    {
        self.data.len() - self.pos
    }

    /// Says that the whole stream has arrived.
    pub fn finish(&mut self)
        ensures
            final(self).complete(),
            final(self).bytes() == old(self).bytes(),
            final(self).position() == old(self).position(),
            final(self).origin() == old(self).origin(),
    {
        self.complete = true;
    }

    /// Takes the next bytes of the stream as they arrive. The bytes that were read before
    /// are no longer kept.
    pub fn push(&mut self, more: &[u8])
        requires
            old(self).wf(),
        ensures
            final(self).wf(),
            final(self).bytes() == old(self).bytes() + more@,
            final(self).position() == old(self).position(),
            final(self).origin() == old(self).position(),
            final(self).complete() == old(self).complete(),
    {
        if self.pos > 0 {
            let kept = self.data.split_off(self.pos);
            proof {
                self.dropped@ = self.dropped@ + self.data@;
            }
            self.data = kept;
            self.pos = 0;
            proof {
                assert(self.bytes() =~= old(self).bytes());
            }
        }
        let mut i: usize = 0;
        while i < more.len()
            invariant
                i <= more@.len(),
                self.pos == 0 || (self.pos == old(self).pos && self.dropped@ == old(self).dropped@),
                self.origin() == old(self).position(),
                self.complete == old(self).complete,
                self.position() == old(self).position(),
                self.bytes() == old(self).bytes() + more@.take(i as int),
            decreases more@.len() - i,
        {
            let ghost before = self.bytes();
            self.data.push(more[i]);
            i += 1;
            proof {
                assert(self.bytes() =~= before.push(more@[i - 1]));
                assert(more@.take(i as int) =~= more@.take(i - 1).push(more@[i - 1]));
                assert(self.bytes() =~= old(self).bytes() + more@.take(i as int));
            }
        }
        proof {
            assert(more@.take(i as int) =~= more@);
        }
    }

    /// Where the source stands among the bytes that it keeps.
    pub fn offset(&self) -> (offset: usize)
        requires
            self.wf(),
        ensures
            self.origin() + offset == self.position(),
    {
        self.pos
    }

    /// Goes back, or forth, to where `offset` was taken.
    pub fn seek(&mut self, offset: usize)
        requires
            old(self).origin() + offset <= old(self).bytes().len(),
        ensures
            final(self).wf(),
            final(self).same_stream(*old(self)),
            final(self).position() == old(self).origin() + offset,
    {
        self.pos = offset;
    }

    /// The next byte, or `None` where the bytes that have arrived end.
    pub fn next_byte(&mut self) -> (byte: Option<u8>)
        requires
            old(self).wf(),
        ensures
            final(self).wf(),
            final(self).same_stream(*old(self)),
            match byte {
                Some(b) => {
                    &&& old(self).position() < old(self).bytes().len()
                    &&& b == old(self).bytes()[old(self).position() as int]
                    &&& final(self).position() == old(self).position() + 1
                },
                None => {
                    &&& old(self).position() == old(self).bytes().len()
                    &&& final(self).position() == old(self).position()
                },
            },
    {
        if self.pos < self.data.len() {
            let b = self.data[self.pos];
            self.pos += 1;
            Some(b)
        } else {
            None
        }
    }

    /// Copies the next bytes into the front of `buf`: as many as `buf` holds, or all that
    /// have arrived if those are fewer. Returns how many were copied; the rest of `buf`
    /// keeps its content.
    pub fn read(&mut self, buf: &mut [u8]) -> (n: usize)
        requires
            old(self).wf(),
        ensures
            final(self).wf(),
            final(self).same_stream(*old(self)),
            final(self).position() == old(self).position() + n,
            n == old(buf)@.len() || n == old(self).remaining().len(),
            n <= old(buf)@.len(),
            n <= old(self).remaining().len(),
            final(buf)@ == old(self).remaining().take(n as int) + old(buf)@.skip(n as int),
    {
        let limit = buf.len();
        self.read_at_most(buf, limit)
    }

    /// Copies the next bytes into the front of `buf`, as `read` does, but no more than
    /// `limit` of them.
    pub fn read_at_most(&mut self, buf: &mut [u8], limit: usize) -> (n: usize)
        requires
            old(self).wf(),
        ensures
            final(self).wf(),
            final(self).same_stream(*old(self)),
            final(self).position() == old(self).position() + n,
            n == old(buf)@.len() || n == old(self).remaining().len() || n == limit,
            n <= old(buf)@.len(),
            n <= old(self).remaining().len(),
            n <= limit,
            final(buf)@ == old(self).remaining().take(n as int) + old(buf)@.skip(n as int),
    {
        let left = self.data.len() - self.pos;
        let room = if buf.len() < limit {
            buf.len()
        } else {
            limit
        };
        let n = if room < left {
            room
        } else {
            left
        };
        let mut i: usize = 0;
        while i < n
            invariant
                i <= n,
                n <= buf@.len(),
                n <= self.data.len() - self.pos,
                self.pos <= self.data.len(),
                *self == *old(self),
                buf@.len() == old(buf)@.len(),
                buf@ == old(self).remaining().take(i as int) + old(buf)@.skip(i as int),
            decreases n - i,
        {
            buf[i] = self.data[self.pos + i];
            i += 1;
            proof {
                assert(buf@ =~= old(self).remaining().take(i as int) + old(buf)@.skip(i as int));
            }
        }
        self.pos += n;
        n
    }
}

} // verus!
