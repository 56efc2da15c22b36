use vstd::prelude::*;

verus! {

/// A pull-based byte producer that a [`crate::CharBuffer`] can stage.
///
/// A source is total over what it holds: a read hands out as many of its
/// remaining bytes as fit into the destination, and a read that returns 0
/// bytes into a non-empty destination signals exhaustion.
pub trait ByteSource {
    /// The bytes this source has yet to hand out, in order.
    spec fn remaining(&self) -> Seq<u8>;

    /// Copies the next bytes of the source into the front of `dest`,
    /// without changing its length, and returns how many were copied:
    /// as many as remain, capped by the destination's length.
    fn read_into(&mut self, dest: &mut Vec<u8>) -> (n: usize)
        ensures
            n == if old(dest)@.len() <= old(self).remaining().len() {
                old(dest)@.len() as int
            } else {
                old(self).remaining().len() as int
            },
            final(self).remaining() == old(self).remaining().skip(n as int),
            final(dest)@.len() == old(dest)@.len(),
            forall|i: int| 0 <= i < n ==> final(dest)@[i] == old(self).remaining()[i],
            forall|i: int|
                n <= i < old(dest)@.len() ==> final(dest)@[i] == old(dest)@[i],
    ;
}

/// An in-memory source: hands out the bytes of a vector, front to back.
pub struct SliceSource {
    data: Vec<u8>,
    pos: usize,
}

impl SliceSource {
    /// Wraps a vector of bytes as a source that will produce exactly them.
    pub fn new(data: Vec<u8>) -> (s: SliceSource)
        ensures
            s.remaining() == data@,
    {
        let s = SliceSource { data, pos: 0 };
        proof {
            assert(s.remaining() =~= s.data@);
        }
        s
    }
}

impl ByteSource for SliceSource {
    closed spec fn remaining(&self) -> Seq<u8> {
        if self.pos <= self.data@.len() {
            self.data@.skip(self.pos as int)
        } else {
            Seq::empty()
        }
    }

    fn read_into(&mut self, dest: &mut Vec<u8>) -> (n: usize) {
        let ghost dest0 = dest@;
        let ghost pos0 = self.pos as int;
        let ghost data0 = self.data@;
        let avail = if self.pos <= self.data.len() {
            self.data.len() - self.pos
        } else {
            0
        };
        let n = if dest.len() <= avail {
            dest.len()
        } else {
            avail
        };
        let mut i: usize = 0;
        while i < n
            invariant
                i <= n,
                n <= dest0.len(),
                n == 0 || pos0 + n <= data0.len(),
                data0.len() <= usize::MAX as int,
                self.pos == pos0,
                self.data@ == data0,
                dest@.len() == dest0.len(),
                forall|j: int| 0 <= j < i ==> dest@[j] == data0[pos0 + j],
                forall|j: int| i <= j < dest0.len() ==> dest@[j] == dest0[j],
            decreases n - i,
        {
            let b = self.data[self.pos + i];
            dest[i] = b;
            i = i + 1;
        }
        self.pos = self.pos + n;
        proof {
            assert(self.remaining() =~= old(self).remaining().skip(n as int));
            assert forall|j: int| 0 <= j < n implies dest@[j] == old(self).remaining()[j] by {
                assert(dest@[j] == data0[pos0 + j]);
            }
        }
        n
    }
}

} // verus!
