//! Byte-stream endpoints for the codec.
//!
//! `ByteSource` is a readable endpoint: a buffer with an advancing cursor,
//! viewed as the bytes not yet consumed.  `ByteSink` is a writable endpoint
//! with a fixed capacity, viewed as the bytes written so far; a write that
//! does not fit delivers what fits and reports failure, like a fixed-size
//! output buffer.

use vstd::prelude::*;

verus! {

/// A readable byte stream: reads consume from the front and advance a
/// shared cursor across calls.
pub struct ByteSource {
    data: Vec<u8>,
    pos: usize,
}

impl View for ByteSource {
    type V = Seq<u8>;

    /// The bytes still to be read.
    closed spec fn view(&self) -> Seq<u8> {
        self.data@.skip(self.pos as int)
    }
}

impl ByteSource {
    #[verifier::type_invariant]
    spec fn inv(self) -> bool {
        self.pos <= self.data.len()
    }

    /// A source that will deliver exactly `data`.
    pub fn new(data: Vec<u8>) -> (s: Self)
        ensures
            s@ == data@,
    {
        let s = ByteSource { data, pos: 0 };
        proof {
            assert(s@ =~= s.data@);
        }
        s
    }

    /// How many bytes are still to be read.
    pub fn remaining(&self) -> (n: usize)
        ensures
            n == self@.len(),
    {
        proof {
            use_type_invariant(self);
        }
        self.data.len() - self.pos
    }

    /// Read exactly one byte, or report that the stream is exhausted.
    pub fn read_byte(&mut self) -> (r: Option<u8>)
        ensures
            old(self)@.len() == 0 ==> r is None && final(self)@ == old(self)@,
            old(self)@.len() > 0 ==> r == Some(old(self)@[0]) && final(self)@ == old(
                self,
            )@.drop_first(),
    {
        proof {
            use_type_invariant(&*self);
        }
        if self.pos < self.data.len() {
            let b = self.data[self.pos];
            self.pos = self.pos + 1;
            proof {
                assert(self.data@.skip(self.pos as int) =~= old(self)@.drop_first());
            }
            Some(b)
        } else {
            None
        }
    }
}

/// A writable byte stream of fixed capacity: writes append at the end until
/// the capacity is reached.
pub struct ByteSink {
    data: Vec<u8>,
    cap: usize,
}

impl View for ByteSink {
    type V = Seq<u8>;

    /// The bytes written so far.
    closed spec fn view(&self) -> Seq<u8> {
        self.data@
    }
}

impl ByteSink {
    #[verifier::type_invariant]
    spec fn inv(self) -> bool {
        self.data.len() <= self.cap
    }

    /// How many bytes the sink accepts in all.
    pub closed spec fn capacity(&self) -> nat {
        self.cap as nat
    }

    /// An empty sink that accepts up to `capacity` bytes.
    pub fn new(capacity: usize) -> (s: Self)
        ensures
            s@ == Seq::<u8>::empty(),
            s.capacity() == capacity,
    {
        let s = ByteSink { data: Vec::new(), cap: capacity };
        proof {
            assert(s@ =~= Seq::<u8>::empty());
        }
        s
    }

    /// Write all of `bytes`, in order.  When they do not all fit, exactly
    /// those that fit are delivered and the write reports failure.
    pub fn write_all(&mut self, bytes: &Vec<u8>) -> (ok: bool)
        ensures
            final(self).capacity() == old(self).capacity(),
            old(self)@.len() + bytes@.len() <= old(self).capacity() ==> ok && final(self)@ == old(
                self,
            )@ + bytes@,
            old(self)@.len() + bytes@.len() > old(self).capacity() ==> !ok && final(self)@ == old(
                self,
            )@ + bytes@.take(old(self).capacity() as int - old(self)@.len() as int),
    {
        proof {
            use_type_invariant(&*self);
        }
        let ghost pre = self@;
        let cap = self.cap;
        let mut buf: Vec<u8> = Vec::new();
        std::mem::swap(&mut buf, &mut self.data);
        let mut i: usize = 0;
        while i < bytes.len() && buf.len() < cap
            invariant
                i <= bytes@.len(),
                buf@ =~= pre + bytes@.take(i as int),
                buf@.len() == pre.len() + i,
                buf@.len() <= cap,
                pre.len() <= cap,
            decreases bytes@.len() - i,
        {
            buf.push(bytes[i]);
            i = i + 1;
            proof {
                assert(buf@ =~= pre + bytes@.take(i as int));
            }
        }
        proof {
            if i < bytes@.len() {
                assert(buf@.len() == cap);
            } else {
                assert(bytes@.take(i as int) =~= bytes@);
            }
        }
        std::mem::swap(&mut buf, &mut self.data);
        i == bytes.len()
    }

    /// The sink's whole contents, for inspection.
    pub fn buffer(&self) -> (r: &Vec<u8>)
        ensures
            r@ == self@,
    {
        &self.data
    }

    /// Give up the sink and keep what was written.
    pub fn into_buffer(self) -> (r: Vec<u8>)
        ensures
            r@ == self@,
    {
        self.data
    }
}

} // verus!
