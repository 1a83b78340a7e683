//! The byte source and byte sink that the buffers work against, and the
//! error type of the buffer operations.
use vstd::prelude::*;

verus! {

/// `after` begins with `before`: a history that has only grown.
pub open spec fn extends(before: Seq<u8>, after: Seq<u8>) -> bool {
    before.len() <= after.len() && after.subrange(0, before.len() as int) == before
}

/// The bytes added to a history between two moments.
pub open spec fn since(before: Seq<u8>, after: Seq<u8>) -> Seq<u8> {
    after.subrange(before.len() as int, after.len() as int)
}

/// A history extends itself, with nothing added.
pub proof fn lemma_extends_refl(a: Seq<u8>)
    ensures
        extends(a, a),
        since(a, a) == Seq::<u8>::empty(),
{
    assert(a.subrange(0, a.len() as int) =~= a);
    assert(since(a, a) =~= Seq::<u8>::empty());
}

/// Growth of a history adds up over consecutive periods.
pub proof fn lemma_extends_trans(a: Seq<u8>, b: Seq<u8>, c: Seq<u8>)
    requires
        extends(a, b),
        extends(b, c),
    ensures
        extends(a, c),
        since(a, c) == since(a, b) + since(b, c),
{
    assert(c.subrange(0, a.len() as int) =~= b.subrange(0, a.len() as int));
    assert(since(a, c) =~= since(a, b) + since(b, c));
}

/// Appending to a history extends it by exactly what was appended.
pub proof fn lemma_extends_append(a: Seq<u8>, b: Seq<u8>, x: Seq<u8>)
    requires
        extends(a, b),
    ensures
        extends(a, b + x),
        extends(b, b + x),
        since(b, b + x) == x,
        since(a, b + x) == since(a, b) + x,
{
    assert((b + x).subrange(0, b.len() as int) =~= b);
    assert(since(b, b + x) =~= x);
    lemma_extends_trans(a, b, b + x);
}

/// Anything that hands out bytes on request: a socket, a file, a cursor over memory.
///
/// `Ok(0)` for a non-empty slice means the end of the stream; an error means
/// that no byte was handed out by that call.
///
/// The ghost functions below have constant defaults only so that code the
/// verifier does not see (adapters over `std::io`, test doubles) can implement
/// the trait. With those defaults the contract of `read` cannot hold for a read
/// that hands out bytes, so no verified guarantee of this library carries over
/// to such an implementation. Every implementation in this crate defines them.
pub trait ByteSource {
    type Error;

    /// Every byte this source has handed out so far, oldest first.
    closed spec fn produced(&self) -> Seq<u8> {
        Seq::empty()
    }

    /// The most recent read reported the end of the stream.
    closed spec fn ended(&self) -> bool {
        false
    }

    /// The most recent read failed. A source for which this never holds never fails.
    closed spec fn failed(&self) -> bool {
        false
    }

    /// What the source is made of, where it has such a thing (the bytes of a source
    /// over memory); reading never changes it.
    closed spec fn content(&self) -> Seq<u8> {
        Seq::empty()
    }

    /// Reads some bytes into the front of `buf` and returns how many.
    fn read(&mut self, buf: &mut [u8]) -> (r: Result<usize, Self::Error>)
        ensures
            final(buf)@.len() == old(buf)@.len(),
            final(self).content() == old(self).content(),
            match r {
                Ok(n) => {
                    &&& n <= old(buf)@.len()
                    &&& final(self).produced() == old(self).produced() + final(buf)@.subrange(
                        0,
                        n as int,
                    )
                    &&& (n == 0 && old(buf)@.len() > 0 ==> final(self).ended())
                },
                Err(_) => final(self).produced() == old(self).produced() && final(self).failed(),
            },
    ;
}

/// Anything that takes bytes: a socket, a file, a growing vector.
///
/// An error means that no byte was taken by that call. As for [`ByteSource`], the
/// constant defaults of the ghost functions only let code outside the verifier
/// implement the trait; no verified guarantee carries over to such an implementation.
pub trait ByteSink {
    type Error;

    /// Every byte this sink has taken so far, oldest first.
    closed spec fn accepted(&self) -> Seq<u8> {
        Seq::empty()
    }

    /// The most recent write or flush failed. A sink for which this never holds never
    /// fails.
    closed spec fn failed(&self) -> bool {
        false
    }

    /// The most recent write took no byte of a non-empty slice. A sink for which this
    /// never holds always takes at least one byte.
    closed spec fn stalled(&self) -> bool {
        false
    }

    /// Takes some leading bytes of `data` and returns how many.
    fn write(&mut self, data: &[u8]) -> (r: Result<usize, Self::Error>)
        ensures
            match r {
                Ok(n) => {
                    &&& n <= data@.len()
                    &&& final(self).accepted() == old(self).accepted() + data@.subrange(0, n as int)
                    &&& (n == 0 && data@.len() > 0 ==> final(self).stalled())
                },
                Err(_) => final(self).accepted() == old(self).accepted() && final(self).failed(),
            },
    ;

    /// Pushes what the sink holds on to its final destination.
    fn flush(&mut self) -> (r: Result<(), Self::Error>)
        ensures
            final(self).accepted() == old(self).accepted(),
            r is Err ==> final(self).failed(),
    ;
}

/// Why a buffer operation failed.
#[derive(Debug)]
pub enum BufError<E> {
    /// The source or sink failed; its error, unchanged.
    Stream(E),
    /// The source ended before the requested number of bytes arrived.
    UnexpectedEof,
    /// The bytes are not valid UTF-8.
    InvalidData,
    /// The sink took no byte of a non-empty write.
    WriteZero,
}

/// A source that hands out the bytes of a vector, front to back.
pub struct MemorySource {
    data: Vec<u8>,
    pos: usize,
}

impl MemorySource {
    #[verifier::type_invariant]
    spec fn inv(&self) -> bool {
        self.pos <= self.data@.len()
    }

    /// All the bytes this source was made with.
    pub closed spec fn data(&self) -> Seq<u8> {
        self.data@
    }

    /// How far the source has got into its bytes.
    closed spec fn cut(&self) -> int {
        if self.pos <= self.data@.len() {
            self.pos as int
        } else {
            self.data@.len() as int
        }
    }

    /// The bytes not handed out yet.
    pub closed spec fn remaining(&self) -> Seq<u8> {
        self.data@.subrange(self.cut(), self.data@.len() as int)
    }

    pub fn new(data: Vec<u8>) -> (r: Self)
        ensures
            r.data() == data@,
            r.produced() == Seq::<u8>::empty(),
            r.remaining() == data@,
    {
        MemorySource { data, pos: 0 }
    }

    /// How many bytes have been handed out.
    pub fn position(&self) -> (r: usize)
        ensures
            r == self.produced().len(),
    {
        proof {
            use_type_invariant(self);
        }
        self.pos
    }

    /// The bytes this source was made with.
    pub fn into_inner(self) -> (r: Vec<u8>)
        ensures
            r@ == self.data(),
    {
        self.data
    }

    pub proof fn lemma_split(&self)
        ensures
            self.produced() + self.remaining() == self.data(),
            self.ended() ==> self.remaining().len() == 0,
    {
        assert(self.produced() + self.remaining() =~= self.data());
    }
}

impl ByteSource for MemorySource {
    type Error = ();

    closed spec fn produced(&self) -> Seq<u8> {
        self.data@.subrange(0, self.cut())
    }

    closed spec fn ended(&self) -> bool {
        self.cut() == self.data@.len()
    }

    /// Never: a memory source does not fail.
    open spec fn failed(&self) -> bool {
        false
    }

    /// The bytes the source was made with.
    open spec fn content(&self) -> Seq<u8> {
        self.data()
    }

    fn read(&mut self, buf: &mut [u8]) -> (r: Result<usize, ()>)
        ensures
            final(self).data() == old(self).data(),
            r == Ok::<usize, ()>(
                if old(self).remaining().len() < old(buf)@.len() {
                    old(self).remaining().len() as usize
                } else {
                    old(buf)@.len() as usize
                },
            ),
    {
        proof {
            use_type_invariant(&*self);
        }
        let rest = self.data.len() - self.pos;
        let n = if rest < buf.len() {
            rest
        } else {
            buf.len()
        };
        let start = self.pos;
        let mut i: usize = 0;
        while i < n
            invariant
                i <= n,
                n <= buf@.len(),
                buf@.len() == old(buf)@.len(),
                start + n <= self.data@.len(),
                self.data@.len() <= usize::MAX,
                forall|j: int| 0 <= j < i ==> buf@[j] == self.data@[start + j],
            decreases n - i,
        {
            buf[i] = self.data[start + i];
            i = i + 1;
        }
        self.pos = start + n;
        assert(buf@.subrange(0, n as int) =~= self.data@.subrange(start as int, start + n));
        assert(self.data@.subrange(0, self.pos as int) =~= self.data@.subrange(0, start as int)
            + self.data@.subrange(start as int, start + n));
        Ok(n)
    }
}

impl ByteSink for Vec<u8> {
    type Error = ();

    open spec fn accepted(&self) -> Seq<u8> {
        self@
    }

    /// Never: a vector takes every byte.
    open spec fn failed(&self) -> bool {
        false
    }

    /// Never: a vector takes every byte.
    open spec fn stalled(&self) -> bool {
        false
    }

    fn write(&mut self, data: &[u8]) -> (r: Result<usize, ()>)
        ensures
            r == Ok::<usize, ()>(data@.len() as usize),
    {
        self.extend_from_slice(data);
        assert(data@.subrange(0, data@.len() as int) =~= data@);
        assert(self@ =~= old(self)@ + data@);
        Ok(data.len())
    }

    fn flush(&mut self) -> (r: Result<(), ()>) {
        Ok(())
    }
}

} // verus!
