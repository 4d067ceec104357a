//! The ring buffer of a pipe.
use vstd::prelude::*;
use std::collections::VecDeque;
use crate::memory::userbuffer::UserBuffer;

verus! {

/// The bytes written to a pipe and not yet read, first written first.
pub struct Pipe {
    /// The most bytes the pipe holds.
    size: u64,
    /// The bytes held.
    buffer: VecDeque<u8>,
}

impl Pipe {
    /// The bytes held, oldest first.
    pub closed spec fn contents(&self) -> Seq<u8> {
        self.buffer@
    }

    /// The most bytes the pipe holds.
    pub closed spec fn capacity(&self) -> nat {
        self.size as nat
    }

    /// The pipe holds no more bytes than its capacity, which fits in `usize`.
    pub closed spec fn wf(&self) -> bool {
        &&& self.buffer@.len() <= self.size
        &&& self.size <= usize::MAX
    }

    /// An empty pipe that holds up to 4096 bytes.
    pub fn new() -> (r: Self)
        ensures
            r.wf(),
            r.contents() == Seq::<u8>::empty(),
            r.capacity() == 4096,
    {
        Pipe { size: 4096, buffer: VecDeque::new() }
    }

    /// Moves the oldest bytes into `buffer`, as many as it has room for and the
    /// pipe holds; returns that count.
    pub fn read(&mut self, buffer: &mut [u8]) -> (r: Result<usize, &'static str>)
        requires
            old(self).wf(),
        ensures
            final(self).wf(),
            final(self).capacity() == old(self).capacity(),
            r matches Ok(n) && n == vstd::math::min(old(buffer)@.len() as int, old(self).contents().len() as int),
            final(buffer)@ == old(self).contents().subrange(0, r->Ok_0 as int) + old(buffer)@.subrange(
                r->Ok_0 as int,
                old(buffer)@.len() as int,
            ),
            final(self).contents() == old(self).contents().subrange(r->Ok_0 as int, old(self).contents().len() as int),
    {
        let len = if buffer.len() < self.buffer.len() {
            buffer.len()
        } else {
            self.buffer.len()
        };
        let ghost c0 = self.buffer@;
        let ghost b0 = buffer@;
        let mut i: usize = 0;
        while i < len
            invariant
                len <= b0.len(),
                len <= c0.len(),
                c0.len() <= self.size,
                self.size <= usize::MAX,
                self.size == old(self).size,
                i <= len,
                self.buffer@ == c0.subrange(i as int, c0.len() as int),
                buffer@.len() == b0.len(),
                forall|k: int| 0 <= k < b0.len() ==> #[trigger] buffer@[k] == if k < i {
                    c0[k]
                } else {
                    b0[k]
                },
            decreases len - i,
        {
            match self.buffer.pop_front() {
                Some(b) => {
                    buffer[i] = b;
                },
                None => {},
            }
            i = i + 1;
        }
        proof {
            assert(buffer@ =~= c0.subrange(0, len as int) + b0.subrange(len as int, b0.len() as int));
        }
        Ok(len)
    }

    /// Appends bytes of `buffer`, as many as the pipe has room for; returns that
    /// count.
    pub fn write(&mut self, buffer: &[u8]) -> (r: Result<usize, &'static str>)
        requires
            old(self).wf(),
        ensures
            final(self).wf(),
            final(self).capacity() == old(self).capacity(),
            r matches Ok(n) && n == vstd::math::min(
                buffer@.len() as int,
                old(self).capacity() - old(self).contents().len(),
            ),
            final(self).contents() == old(self).contents() + buffer@.subrange(0, r->Ok_0 as int),
    {
        let room = self.size as usize - self.buffer.len();
        let len = if buffer.len() < room {
            buffer.len()
        } else {
            room
        };
        let ghost c0 = self.buffer@;
        let mut i: usize = 0;
        while i < len
            invariant
                len <= buffer@.len(),
                c0.len() + len <= self.size,
                self.size <= usize::MAX,
                self.size == old(self).size,
                i <= len,
                self.buffer@ == c0 + buffer@.subrange(0, i as int),
            decreases len - i,
        {
            self.buffer.push_back(buffer[i]);
            i = i + 1;
            proof {
                assert(self.buffer@ =~= c0 + buffer@.subrange(0, i as int));
            }
        }
        Ok(len)
    }

    /// Moves the oldest bytes into the user buffer `buffer`, from its start, as
    /// many as it has room for and the pipe holds; returns that count.
    pub fn read_user_buffer(&mut self, buffer: &mut UserBuffer) -> (r: Result<usize, &'static str>)
        requires
            old(self).wf(),
            old(buffer).wf(),
        ensures
            final(self).wf(),
            final(self).capacity() == old(self).capacity(),
            final(buffer).wf(),
            r matches Ok(n) && n == vstd::math::min(
                old(buffer).bytes().len() as int,
                old(self).contents().len() as int,
            ),
            final(buffer).bytes() == old(self).contents().subrange(0, r->Ok_0 as int) + old(
                buffer,
            ).bytes().subrange(r->Ok_0 as int, old(buffer).bytes().len() as int),
            final(self).contents() == old(self).contents().subrange(r->Ok_0 as int, old(self).contents().len() as int),
    {
        let blen = buffer.len();
        let len = if blen < self.buffer.len() {
            blen
        } else {
            self.buffer.len()
        };
        let ghost c0 = self.buffer@;
        let ghost b0 = buffer.bytes();
        let mut i: usize = 0;
        while i < len
            invariant
                len <= b0.len(),
                len <= c0.len(),
                c0.len() <= self.size,
                self.size <= usize::MAX,
                b0.len() <= usize::MAX,
                self.size == old(self).size,
                i <= len,
                self.buffer@ == c0.subrange(i as int, c0.len() as int),
                buffer.bytes().len() == b0.len(),
                forall|k: int| 0 <= k < b0.len() ==> #[trigger] buffer.bytes()[k] == if k < i {
                    c0[k]
                } else {
                    b0[k]
                },
            decreases len - i,
        {
            match self.buffer.pop_front() {
                Some(b) => {
                    buffer.set(i, b);
                },
                None => {},
            }
            i = i + 1;
        }
        proof {
            assert(buffer.bytes() =~= c0.subrange(0, len as int) + b0.subrange(len as int, b0.len() as int));
        }
        Ok(len)
    }

    /// Appends bytes of the user buffer `buffer`, from its start, as many as the
    /// pipe has room for; returns that count.
    pub fn write_user_buffer(&mut self, buffer: &UserBuffer) -> (r: Result<usize, &'static str>)
        requires
            old(self).wf(),
            buffer.wf(),
        ensures
            final(self).wf(),
            final(self).capacity() == old(self).capacity(),
            r matches Ok(n) && n == vstd::math::min(
                buffer.bytes().len() as int,
                old(self).capacity() - old(self).contents().len(),
            ),
            final(self).contents() == old(self).contents() + buffer.bytes().subrange(0, r->Ok_0 as int),
    {
        let room = self.size as usize - self.buffer.len();
        let blen = buffer.len();
        let len = if blen < room {
            blen
        } else {
            room
        };
        let ghost c0 = self.buffer@;
        let mut i: usize = 0;
        while i < len
            invariant
                len <= buffer.bytes().len(),
                c0.len() + len <= self.size,
                self.size <= usize::MAX,
                self.size == old(self).size,
                i <= len,
                self.buffer@ == c0 + buffer.bytes().subrange(0, i as int),
            decreases len - i,
        {
            self.buffer.push_back(buffer.get(i));
            i = i + 1;
            proof {
                assert(self.buffer@ =~= c0 + buffer.bytes().subrange(0, i as int));
            }
        }
        Ok(len)
    }

    /// Whether the pipe holds no byte.
    pub fn empty(&self) -> (r: bool)
        ensures
            r == (self.contents().len() == 0),
    {
        self.buffer.len() == 0
    }
}

/// A pipe hands bytes out in the order they went in: bytes written to an empty
/// pipe, all of which fit, are what a read with room for them gives back, and
/// the pipe is empty again.
pub proof fn lemma_pipe_fifo(
    p0: Pipe,
    p1: Pipe,
    p2: Pipe,
    data: Seq<u8>,
    w: usize,
    out0: Seq<u8>,
    out1: Seq<u8>,
    n: usize,
)
    requires
        p0.contents().len() == 0,
        data.len() <= p0.capacity(),
        w == vstd::math::min(data.len() as int, p0.capacity() - p0.contents().len()),
        p1.contents() == p0.contents() + data.subrange(0, w as int),
        out0.len() == data.len(),
        n == vstd::math::min(out0.len() as int, p1.contents().len() as int),
        out1 == p1.contents().subrange(0, n as int) + out0.subrange(n as int, out0.len() as int),
        p2.contents() == p1.contents().subrange(n as int, p1.contents().len() as int),
    ensures
        w == data.len(),
        n == data.len(),
        out1 == data,
        p2.contents().len() == 0,
{
    assert(p1.contents() =~= data);
    assert(out1 =~= data);
}

} // verus!
