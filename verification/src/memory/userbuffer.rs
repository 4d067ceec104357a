//! A chunk of user memory, made of pieces that are not contiguous.
use vstd::prelude::*;

verus! {

broadcast use vstd::seq_lib::group_seq_properties;

/// A chunk of user memory: the pieces of physical memory that it spans, in the
/// order of the addresses they stand for.
pub struct UserBuffer {
    pub parts: Vec<Vec<u8>>,
}

/// The bytes of each piece.
pub open spec fn parts_view(parts: Seq<Vec<u8>>) -> Seq<Seq<u8>> {
    parts.map_values(|v: Vec<u8>| v@)
}

/// The byte at position `k` of a piece sits in the concatenation after all the
/// pieces before it.
proof fn lemma_flat_at(s: Seq<Seq<u8>>, k: int, j: int)
    requires
        0 <= k < s.len(),
        0 <= j < s[k].len(),
    ensures
        s.take(k).flatten().len() + j < s.flatten().len(),
        s.flatten()[s.take(k).flatten().len() + j] == s[k][j],
{
    assert(s =~= s.take(k + 1) + s.skip(k + 1));
    vstd::seq_lib::lemma_flatten_concat(s.take(k + 1), s.skip(k + 1));
    assert(s.take(k + 1) =~= s.take(k).push(s[k]));
    s.take(k).lemma_flatten_push(s[k]);
}

/// Changing one byte of piece `k` changes the concatenation at that byte only.
proof fn lemma_flat_update(s: Seq<Seq<u8>>, k: int, j: int, v: u8)
    requires
        0 <= k < s.len(),
        0 <= j < s[k].len(),
    ensures
        s.update(k, s[k].update(j, v)).flatten() == s.flatten().update(s.take(k).flatten().len() + j, v),
{
    let t = s.update(k, s[k].update(j, v));
    assert(s =~= s.take(k).push(s[k]) + s.skip(k + 1));
    assert(t =~= s.take(k).push(s[k].update(j, v)) + s.skip(k + 1));
    vstd::seq_lib::lemma_flatten_concat(s.take(k).push(s[k]), s.skip(k + 1));
    vstd::seq_lib::lemma_flatten_concat(s.take(k).push(s[k].update(j, v)), s.skip(k + 1));
    s.take(k).lemma_flatten_push(s[k]);
    s.take(k).lemma_flatten_push(s[k].update(j, v));
    assert(t.flatten() =~= s.flatten().update(s.take(k).flatten().len() + j, v));
}

/// The prefix of one more piece is one piece longer.
proof fn lemma_take_next(s: Seq<Seq<u8>>, k: int)
    requires
        0 <= k < s.len(),
    ensures
        s.take(k + 1).flatten().len() == s.take(k).flatten().len() + s[k].len(),
{
    assert(s.take(k + 1) =~= s.take(k).push(s[k]));
    s.take(k).lemma_flatten_push(s[k]);
}

impl UserBuffer {
    /// The bytes of the buffer, the pieces one after the other.
    pub open spec fn bytes(&self) -> Seq<u8> {
        parts_view(self.parts@).flatten()
    }

    /// The length of the buffer fits in `usize`, as that of memory does.
    pub open spec fn wf(&self) -> bool {
        self.bytes().len() <= usize::MAX
    }

    /// The buffer made of `parts`.
    pub fn new(parts: Vec<Vec<u8>>) -> (r: Self)
        ensures
            r.parts@ == parts@,
    {
        Self { parts }
    }

    /// The length of the buffer.
    pub fn len(&self) -> (r: usize)
        requires
            self.wf(),
        ensures
            r == self.bytes().len(),
    {
        let ghost s = parts_view(self.parts@);
        let mut total: usize = 0;
        let mut k: usize = 0;
        while k < self.parts.len()
            invariant
                k <= self.parts@.len(),
                s == parts_view(self.parts@),
                s.flatten().len() <= usize::MAX,
                total == s.take(k as int).flatten().len(),
            decreases self.parts@.len() - k,
        {
            proof {
                lemma_take_next(s, k as int);
                assert(s.take(k + 1).flatten().len() <= s.flatten().len()) by {
                    assert(s =~= s.take(k + 1) + s.skip(k + 1));
                    vstd::seq_lib::lemma_flatten_concat(s.take(k + 1), s.skip(k + 1));
                }
            }
            total += self.parts[k].len();
            k += 1;
        }
        proof {
            assert(s.take(k as int) =~= s);
        }
        return total;
    }

    /// The byte at `idx`: where the pieces before it end, the piece that holds it.
    pub fn get(&self, idx: usize) -> (r: u8)
        requires
            idx < self.bytes().len(),
        ensures
            r == self.bytes()[idx as int],
    {
        let ghost s = parts_view(self.parts@);
        let mut len = idx;
        let mut k: usize = 0;
        while k < self.parts.len()
            invariant
                k <= self.parts@.len(),
                s == parts_view(self.parts@),
                idx < s.flatten().len(),
                idx == s.take(k as int).flatten().len() + len,
            decreases self.parts@.len() - k,
        {
            if len < self.parts[k].len() {
                proof {
                    lemma_flat_at(s, k as int, len as int);
                }
                return self.parts[k][len];
            }
            proof {
                lemma_take_next(s, k as int);
            }
            len -= self.parts[k].len();
            k += 1;
        }
        proof {
            assert(s.take(k as int) =~= s);
        }
        0
    }

    /// Sets the byte at `idx` to `v`; the pieces keep their lengths.
    pub fn set(&mut self, idx: usize, v: u8)
        requires
            idx < old(self).bytes().len(),
        ensures
            final(self).bytes() == old(self).bytes().update(idx as int, v),
            final(self).parts@.len() == old(self).parts@.len(),
            forall|k: int|
                0 <= k < final(self).parts@.len() ==> #[trigger] final(self).parts@[k]@.len()
                    == old(self).parts@[k]@.len(),
    {
        let ghost s = parts_view(self.parts@);
        let mut len = idx;
        let mut k: usize = 0;
        while k < self.parts.len()
            invariant
                k <= self.parts@.len(),
                *self == *old(self),
                s == parts_view(self.parts@),
                idx < s.flatten().len(),
                idx == s.take(k as int).flatten().len() + len,
            decreases self.parts@.len() - k,
        {
            if len < self.parts[k].len() {
                let mut p = self.parts[k].clone();
                p.set(len, v);
                let ghost np = p@;
                self.parts.set(k, p);
                proof {
                    lemma_flat_update(s, k as int, len as int, v);
                    assert(parts_view(self.parts@) =~= s.update(k as int, s[k as int].update(len as int, v)));
                    assert(np =~= s[k as int].update(len as int, v));
                }
                return;
            }
            proof {
                lemma_take_next(s, k as int);
            }
            len -= self.parts[k].len();
            k += 1;
        }
        proof {
            assert(s.take(k as int) =~= s);
        }
    }

    /// A copy of all the bytes of the buffer.
    pub fn clone_bytes(&self) -> (r: Vec<u8>)
        ensures
            r@ == self.bytes(),
    {
        let ghost s = parts_view(self.parts@);
        let mut cloned: Vec<u8> = Vec::new();
        let mut k: usize = 0;
        while k < self.parts.len()
            invariant
                k <= self.parts@.len(),
                s == parts_view(self.parts@),
                cloned@ == s.take(k as int).flatten(),
            decreases self.parts@.len() - k,
        {
            let ghost before = cloned@;
            let mut j: usize = 0;
            while j < self.parts[k].len()
                invariant
                    k < self.parts@.len(),
                    s == parts_view(self.parts@),
                    j <= s[k as int].len(),
                    cloned@ == before + s[k as int].take(j as int),
                decreases s[k as int].len() - j,
            {
                cloned.push(self.parts[k][j]);
                j += 1;
                proof {
                    assert(cloned@ =~= before + s[k as int].take(j as int));
                }
            }
            proof {
                assert(s[k as int].take(j as int) =~= s[k as int]);
                assert(s.take(k + 1) =~= s.take(k as int).push(s[k as int]));
                s.take(k as int).lemma_flatten_push(s[k as int]);
            }
            k += 1;
        }
        proof {
            assert(s.take(k as int) =~= s);
        }
        cloned
    }

    /// Copies `bytes` into the buffer from `offset`; the buffer must be long enough.
    pub fn write_bytes(&mut self, bytes: &[u8], offset: usize)
        requires
            old(self).wf(),
            offset + bytes@.len() <= old(self).bytes().len(),
        ensures
            final(self).wf(),
            final(self).bytes() == old(self).bytes().subrange(0, offset as int) + bytes@
                + old(self).bytes().subrange(offset + bytes@.len(), old(self).bytes().len() as int),
            final(self).parts@.len() == old(self).parts@.len(),
            forall|k: int|
                0 <= k < final(self).parts@.len() ==> #[trigger] final(self).parts@[k]@.len()
                    == old(self).parts@[k]@.len(),
    {
        let ghost orig = self.bytes();
        let mut i: usize = 0;
        while i < bytes.len()
            invariant
                offset + bytes@.len() <= orig.len(),
                orig.len() <= usize::MAX,
                self.bytes().len() == orig.len(),
                i <= bytes@.len(),
                self.parts@.len() == old(self).parts@.len(),
                forall|k: int|
                    0 <= k < self.parts@.len() ==> #[trigger] self.parts@[k]@.len() == old(self).parts@[k]@.len(),
                forall|j: int|
                    0 <= j < orig.len() ==> #[trigger] self.bytes()[j] == if offset <= j < offset + i {
                        bytes@[j - offset]
                    } else {
                        orig[j]
                    },
            decreases bytes@.len() - i,
        {
            self.set(offset + i, bytes[i]);
            i += 1;
        }
        proof {
            assert(self.bytes() =~= orig.subrange(0, offset as int) + bytes@ + orig.subrange(
                offset + bytes@.len(),
                orig.len() as int,
            ));
        }
    }

    /// An iterator over the bytes of the buffer, from the first.
    pub fn iter(&self) -> (r: UserBufferIter<'_>)
        ensures
            r.buffer() == self,
            r.index() == 0,
    {
        UserBufferIter { index: 0, buffer: self }
    }
}

/// An iterator over the bytes of a user buffer.
pub struct UserBufferIter<'a> {
    index: usize,
    buffer: &'a UserBuffer,
}

impl<'a> UserBufferIter<'a> {
    /// The position of the next byte.
    pub closed spec fn index(&self) -> usize {
        self.index
    }

    /// The buffer walked over.
    pub closed spec fn buffer(&self) -> &'a UserBuffer {
        self.buffer
    }

    /// The next byte, or `None` past the end.
    pub fn next(&mut self) -> (r: Option<u8>)
        requires
            old(self).buffer().wf(),
        ensures
            final(self).buffer() == old(self).buffer(),
            old(self).index() >= old(self).buffer().bytes().len() ==> r is None && final(self).index()
                == old(self).index(),
            old(self).index() < old(self).buffer().bytes().len() ==> r == Some(
                old(self).buffer().bytes()[old(self).index() as int],
            ) && final(self).index() == old(self).index() + 1,
    {
        if self.index >= self.buffer.len() {
            return None;
        } else {
            self.index = self.index + 1;
            return Some(self.buffer.get(self.index - 1));
        }
    }
}


/// What a read of the buffer gives back of a write: after `write_bytes` of
/// `bytes` at `offset`, the bytes from `offset` are `bytes`, and the length is
/// unchanged.
pub proof fn lemma_write_bytes_read_back(b0: UserBuffer, b1: UserBuffer, bytes: Seq<u8>, offset: int)
    requires
        0 <= offset,
        offset + bytes.len() <= b0.bytes().len(),
        b1.bytes() == b0.bytes().subrange(0, offset) + bytes + b0.bytes().subrange(
            offset + bytes.len(),
            b0.bytes().len() as int,
        ),
    ensures
        b1.bytes().len() == b0.bytes().len(),
        forall|i: int| 0 <= i < bytes.len() ==> #[trigger] b1.bytes()[offset + i] == bytes[i],
{
    assert forall|i: int| 0 <= i < bytes.len() implies #[trigger] b1.bytes()[offset + i] == bytes[i] by {
        assert((b0.bytes().subrange(0, offset) + bytes)[offset + i] == bytes[i]);
    }
}

} // verus!
