//! A writer that builds its output from the end towards the front.
use vstd::prelude::*;

verus! {

/// Bytes are prepended: the writer's content is what it holds, reversed.
pub struct ReverseWriter {
    tail: Vec<u8>,
    limit: usize,
}

/// The reverse of a sequence.
pub open spec fn reversed(s: Seq<u8>) -> Seq<u8> {
    Seq::new(s.len(), |i: int| s[s.len() - 1 - i])
}

impl View for ReverseWriter {
    type V = Seq<u8>;

    /// The bytes written so far, in the order in which they will be output.
    closed spec fn view(&self) -> Seq<u8> {
        reversed(self.tail@)
    }
}

impl ReverseWriter {
    /// The most bytes that the writer accepts; never less than what it holds.
    pub closed spec fn limit(&self) -> nat {
        if self.tail@.len() <= self.limit { self.limit as nat } else { self.tail@.len() }
    }

    /// A writer holds no more bytes than its limit.
    pub proof fn lemma_within_limit(&self)
        ensures
            self@.len() <= self.limit(),
    {
    }

    /// A writer bounded only by the address space.
    pub fn new() -> (r: ReverseWriter)
        ensures
            r@ == Seq::<u8>::empty(),
            r.limit() == usize::MAX as nat,
    {
        Self::with_limit(usize::MAX)
    }

    /// A writer that refuses to grow past `limit` bytes.
    pub fn with_limit(limit: usize) -> (r: ReverseWriter)
        ensures
            r@ == Seq::<u8>::empty(),
            r.limit() == limit as nat,
    {
        let r = ReverseWriter { tail: Vec::new(), limit };
        assert(r@ =~= Seq::<u8>::empty());
        r
    }

    /// The number of bytes written so far.
    pub fn len(&self) -> (r: usize)
        ensures
            r == self@.len(),
    {
        self.tail.len()
    }

    /// The number of bytes that can still be written.
    pub fn remaining(&self) -> (r: usize)
        ensures
            self@.len() <= self.limit(),
            r == self.limit() - self@.len(),
    {
        if self.tail.len() <= self.limit {
            self.limit - self.tail.len()
        } else {
            0
        }
    }

    /// Puts `bytes` in front of everything written so far.
    pub fn prepend(&mut self, bytes: &[u8])
        requires
            old(self)@.len() + bytes@.len() <= old(self).limit(),
        ensures
            final(self)@ == bytes@ + old(self)@,
            final(self).limit() == old(self).limit(),
    {
        let n = bytes.len();
        let mut i: usize = n;
        while i > 0
            invariant
                i <= n,
                n == bytes@.len(),
                self@ == bytes@.subrange(i as int, n as int) + old(self)@,
                self.tail@.len() == old(self)@.len() + (n - i),
                old(self)@.len() + n <= old(self).limit(),
                self.limit() == old(self).limit(),
            decreases i,
        {
            i = i - 1;
            let ghost prev = self.tail@;
            self.tail.push(bytes[i]);
            assert(reversed(self.tail@) =~= seq![bytes@[i as int]] + reversed(prev));
            assert(bytes@.subrange(i as int, n as int) =~= seq![bytes@[i as int]]
                + bytes@.subrange(i + 1, n as int));
            assert(self@ =~= bytes@.subrange(i as int, n as int) + old(self)@);
        }
        assert(bytes@.subrange(0, n as int) =~= bytes@);
    }

    /// The bytes written, in output order.
    pub fn finish(self) -> (r: Vec<u8>)
        ensures
            r@ == self@,
    {
        let n = self.tail.len();
        let mut out: Vec<u8> = Vec::with_capacity(n);
        let mut i: usize = n;
        while i > 0
            invariant
                i <= n,
                n == self.tail@.len(),
                out@ =~= reversed(self.tail@).subrange(0, (n - i) as int),
            decreases i,
        {
            i = i - 1;
            out.push(self.tail[i]);
            assert(out@ =~= reversed(self.tail@).subrange(0, (n - i) as int));
        }
        assert(out@ =~= reversed(self.tail@));
        out
    }
}

/// Makes the writers that encoding fills, and turns a filled writer into the
/// output artifact.
pub trait ReverseWriterFactory {
    type Output;

    /// The most bytes that a writer of this factory accepts.
    spec fn capacity(&self) -> usize;

    /// The bytes that an output holds.
    spec fn output_bytes(o: Self::Output) -> Seq<u8>;

    fn new_writer(&self) -> (w: ReverseWriter)
        ensures
            w@ == Seq::<u8>::empty(),
            w.limit() == self.capacity() as nat,
    ;

    fn finish(&self, w: ReverseWriter) -> (o: Self::Output)
        ensures
            Self::output_bytes(o) == w@,
    ;
}

/// Writers that grow as needed; the output is a vector.
pub struct VecWriterFactory;

impl ReverseWriterFactory for VecWriterFactory {
    type Output = Vec<u8>;

    open spec fn capacity(&self) -> usize {
        usize::MAX
    }

    open spec fn output_bytes(o: Vec<u8>) -> Seq<u8> {
        o@
    }

    fn new_writer(&self) -> (w: ReverseWriter) {
        ReverseWriter::new()
    }

    fn finish(&self, w: ReverseWriter) -> (o: Vec<u8>) {
        w.finish()
    }
}

/// Writers for a fixed-size target: a write past `capacity` bytes fails.
pub struct BoundedWriterFactory {
    pub capacity: usize,
}

impl ReverseWriterFactory for BoundedWriterFactory {
    type Output = Vec<u8>;

    open spec fn capacity(&self) -> usize {
        self.capacity
    }

    open spec fn output_bytes(o: Vec<u8>) -> Seq<u8> {
        o@
    }

    fn new_writer(&self) -> (w: ReverseWriter) {
        ReverseWriter::with_limit(self.capacity)
    }

    fn finish(&self, w: ReverseWriter) -> (o: Vec<u8>) {
        w.finish()
    }
}

} // verus!
