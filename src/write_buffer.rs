//! The write buffer: bytes are gathered in a fixed array and handed to a
//! sink only when the array is full or on an explicit flush.
use vstd::prelude::*;

use crate::storage::{copy_in, shift_to_front};
use crate::stream::{extends, lemma_extends_append, lemma_extends_refl, since, BufError, ByteSink};

verus! {

/// The smaller of two numbers.
pub open spec fn spec_min(a: int, b: int) -> int {
    if a < b {
        a
    } else {
        b
    }
}

/// A fixed-capacity write buffer of `S` bytes that does not own its sink.
#[derive(Debug)]
pub struct UnownedWriteBuffer<const S: usize> {
    fill_count: usize,
    buffer: [u8; S],
}

impl<const S: usize> UnownedWriteBuffer<S> {
    #[verifier::type_invariant]
    spec fn inv(&self) -> bool {
        &&& S >= 16
        &&& self.fill_count <= S
    }

    /// The whole fixed array.
    pub closed spec fn storage(&self) -> Seq<u8> {
        self.buffer@
    }

    /// How many leading bytes of the array wait to be sent.
    pub closed spec fn fill_pos(&self) -> nat {
        self.fill_count as nat
    }

    pub open spec fn wf(&self) -> bool {
        self.fill_pos() <= S && self.storage().len() == S
    }

    /// The bytes taken from callers and not yet handed to a sink, oldest first.
    pub open spec fn pending(&self) -> Seq<u8> {
        self.storage().subrange(0, self.fill_pos() as int)
    }

    /// An empty buffer.
    pub fn new() -> (r: Self)
        requires
            S >= 16,
        ensures
            r.wf(),
            r.pending().len() == 0,
    {
        UnownedWriteBuffer { fill_count: 0, buffer: vstd::array::array_fill_for_copy_types(0u8) }
    }

    /// How many more bytes fit before the buffer must be pushed.
    pub fn available(&self) -> (r: usize)
        ensures
            r == S - self.pending().len(),
    {
        proof {
            use_type_invariant(&*self);
        }
        S - self.fill_count
    }

    /// How many bytes wait to be sent.
    pub fn flushable(&self) -> (r: usize)
        ensures
            r == self.pending().len(),
    {
        proof {
            use_type_invariant(&*self);
        }
        self.fill_count
    }

    /// The bytes that wait to be sent.
    pub fn internal_buffer(&self) -> (r: &[u8])
        ensures
            r@ == self.pending(),
    {
        proof {
            use_type_invariant(&*self);
        }
        vstd::slice::slice_subrange(self.buffer.as_slice(), 0, self.fill_count)
    }

    /// The bytes that wait to be sent, open to change in place.
    pub fn internal_buffer_mut(&mut self) -> (r: &mut [u8])
        ensures
            r@ == old(self).pending(),
            final(self).wf(),
            final(self).fill_pos() == old(self).fill_pos(),
            final(self).storage() == final(r)@ + old(self).storage().subrange(
                old(self).fill_pos() as int,
                S as int,
            ),
    {
        proof {
            use_type_invariant(&*self);
        }
        let fill = self.fill_count;
        let whole: &mut [u8] = &mut self.buffer;
        let (head, _) = whole.split_at_mut(fill);
        head
    }

    /// The capacity `S`.
    pub fn size(&self) -> (r: usize)
        ensures
            r == S,
    {
        S
    }

    /// Keeps the unsent bytes `buffer[sent..fill_count]`, moved to the front.
    fn keep_unsent(&mut self, sent: usize)
        requires
            old(self).wf(),
            sent <= old(self).fill_pos(),
        ensures
            final(self).wf(),
            final(self).pending() == old(self).pending().subrange(
                sent as int,
                old(self).pending().len() as int,
            ),
    {
        proof {
            use_type_invariant(&*self);
        }
        if sent > 0 {
            let fill = self.fill_count;
            shift_to_front(&mut self.buffer, sent, fill);
            self.fill_count = fill - sent;
            assert(self.pending() =~= old(self).pending().subrange(sent as int, fill as int));
        }
    }

    /// Hands every pending byte to `sink`, calling its `write` until all are taken.
    ///
    /// On an error the bytes not taken stay pending, in order, at the front.
    fn push<T: ByteSink>(&mut self, sink: &mut T) -> (r: Result<(), BufError<T::Error>>)
        ensures
            final(self).wf(),
            extends(old(sink).accepted(), final(sink).accepted()),
            old(self).pending() == since(old(sink).accepted(), final(sink).accepted())
                + final(self).pending(),
            r is Ok <==> final(self).pending().len() == 0,
            r is Err ==> (r->Err_0 is Stream && final(sink).failed()) || (r->Err_0 is WriteZero
                && final(sink).stalled()),
    {
        proof {
            use_type_invariant(&*self);
        }
        proof {
            lemma_extends_refl(sink.accepted());
        }
        if self.fill_count == 0 {
            assert(self.pending() =~= Seq::<u8>::empty());
            return Ok(());
        }
        let fill = self.fill_count;
        let mut count: usize = 0;
        while count < fill
            invariant
                self.wf(),
                self.fill_count == fill,
                *self == *old(self),
                count <= fill,
                extends(old(sink).accepted(), sink.accepted()),
                since(old(sink).accepted(), sink.accepted()) == self.pending().subrange(
                    0,
                    count as int,
                ),
            decreases fill - count,
        {
            let part = vstd::slice::slice_subrange(self.buffer.as_slice(), count, fill);
            let ghost before = sink.accepted();
            match sink.write(part) {
                Ok(n) => {
                    proof {
                        lemma_extends_append(
                            old(sink).accepted(),
                            before,
                            part@.subrange(0, n as int),
                        );
                    }
                    assert(self.pending().subrange(0, count + n) =~= self.pending().subrange(
                        0,
                        count as int,
                    ) + part@.subrange(0, n as int));
                    if n == 0 {
                        self.keep_unsent(count);
                        assert(old(self).pending() =~= old(self).pending().subrange(
                            0,
                            count as int,
                        ) + old(self).pending().subrange(count as int, fill as int));
                        return Err(BufError::WriteZero);
                    }
                    count = count + n;
                },
                Err(e) => {
                    self.keep_unsent(count);
                    assert(old(self).pending() =~= old(self).pending().subrange(0, count as int)
                        + old(self).pending().subrange(count as int, fill as int));
                    return Err(BufError::Stream(e));
                },
            }
        }
        self.fill_count = 0;
        assert(old(self).pending() =~= old(self).pending().subrange(0, fill as int) + self.pending());
        Ok(())
    }
    /// Hands every pending byte to `sink`, then flushes `sink`.
    pub fn flush<T: ByteSink>(&mut self, sink: &mut T) -> (r: Result<(), BufError<T::Error>>)
        ensures
            final(self).wf(),
            extends(old(sink).accepted(), final(sink).accepted()),
            old(self).pending() == since(old(sink).accepted(), final(sink).accepted())
                + final(self).pending(),
            r is Ok ==> final(self).pending().len() == 0,
            r is Err ==> (r->Err_0 is Stream && final(sink).failed()) || (r->Err_0 is WriteZero
                && final(sink).stalled()),
    {
        proof {
            use_type_invariant(&*self);
        }
        match self.push(sink) {
            Ok(()) => {},
            Err(e) => {
                return Err(e);
            },
        }
        match sink.flush() {
            Ok(()) => Ok(()),
            Err(e) => Err(BufError::Stream(e)),
        }
    }

    /// Copies as much of `data` as fits, without touching any sink.
    ///
    /// When fewer than `data.len()` bytes are taken the buffer is full.
    pub fn try_write(&mut self, data: &[u8]) -> (r: usize)
        ensures
            final(self).wf(),
            r == spec_min(S - old(self).pending().len(), data@.len() as int),
            final(self).pending() == old(self).pending() + data@.subrange(0, r as int),
            r < data@.len() ==> final(self).pending().len() == S,
    {
        proof {
            use_type_invariant(&*self);
        }
        let fill = self.fill_count;
        let space = S - fill;
        let n = if space < data.len() {
            space
        } else {
            data.len()
        };
        copy_in(&mut self.buffer, fill, data, 0, n);
        self.fill_count = fill + n;
        assert(self.pending() =~= old(self).pending() + data@.subrange(0, n as int));
        n
    }

    /// Copies as much of `data` as fits; only when the buffer is already full is it
    /// pushed to `sink` first, to make room.
    ///
    /// Takes at least one byte of a non-empty `data` unless the push fails.
    pub fn write<T: ByteSink>(&mut self, sink: &mut T, data: &[u8]) -> (r: Result<
        usize,
        BufError<T::Error>,
    >)
        ensures
            final(self).wf(),
            extends(old(sink).accepted(), final(sink).accepted()),
            match r {
                Ok(n) => {
                    &&& old(self).pending() + data@.subrange(0, n as int) == since(
                        old(sink).accepted(),
                        final(sink).accepted(),
                    ) + final(self).pending()
                    &&& n == if data@.len() > 0 && old(self).pending().len() == S {
                        spec_min(S as int, data@.len() as int)
                    } else {
                        spec_min(S - old(self).pending().len(), data@.len() as int)
                    }
                },
                Err(_) => old(self).pending() == since(
                    old(sink).accepted(),
                    final(sink).accepted(),
                ) + final(self).pending(),
            },
            data@.len() == 0 || old(self).pending().len() < S ==> r is Ok && *final(sink)
                == *old(sink),
            data@.len() > 0 && old(self).pending().len() == S && r is Ok ==> since(
                old(sink).accepted(),
                final(sink).accepted(),
            ) == old(self).pending() && final(self).pending() == data@.subrange(
                0,
                r->Ok_0 as int,
            ),
            r is Ok && r->Ok_0 < data@.len() ==> final(self).pending().len() == S,
            r is Err ==> (r->Err_0 is Stream && final(sink).failed()) || (r->Err_0 is WriteZero
                && final(sink).stalled()),
    {
        proof {
            use_type_invariant(&*self);
        }
        proof {
            lemma_extends_refl(sink.accepted());
        }
        if data.len() > 0 && self.fill_count == S {
            match self.push(sink) {
                Ok(()) => {},
                Err(e) => {
                    return Err(e);
                },
            }
        }
        let ghost mid = *self;
        proof {
            if data.len() > 0 && old(self).pending().len() == S {
                assert(mid.pending().len() == 0);
                assert(mid.pending() + data@.subrange(0, S as int) =~= data@.subrange(0, S as int));
                assert(old(self).pending() =~= since(old(sink).accepted(), sink.accepted()) + mid.pending());
            }
        }
        let n = self.try_write(data);
        assert(mid.pending() + data@.subrange(0, n as int) == self.pending());
        Ok(n)
    }

    /// Takes all of `data`: what does not fit is pushed to `sink` whenever the buffer
    /// fills up. `Ok` means every byte is pending or handed to `sink`.
    pub fn write_all<T: ByteSink>(&mut self, sink: &mut T, data: &[u8]) -> (r: Result<
        (),
        BufError<T::Error>,
    >)
        ensures
            final(self).wf(),
            extends(old(sink).accepted(), final(sink).accepted()),
            r is Ok ==> old(self).pending() + data@ == since(
                old(sink).accepted(),
                final(sink).accepted(),
            ) + final(self).pending(),
            r is Err ==> exists|k: int|
                0 <= k < data@.len() && old(self).pending() + data@.subrange(0, k) == since(
                    old(sink).accepted(),
                    final(sink).accepted(),
                ) + final(self).pending(),
            old(self).pending().len() + data@.len() <= S ==> r is Ok && *final(sink)
                == *old(sink),
            r is Err ==> (r->Err_0 is Stream && final(sink).failed()) || (r->Err_0 is WriteZero
                && final(sink).stalled()),
    {
        proof {
            use_type_invariant(&*self);
        }
        proof {
            lemma_extends_refl(sink.accepted());
        }
        let len = data.len();
        let mut count: usize = 0;
        while count < len
            invariant
                self.wf(),
                S >= 16,
                count <= len,
                len == data@.len(),
                extends(old(sink).accepted(), sink.accepted()),
                old(self).pending() + data@.subrange(0, count as int) == since(
                    old(sink).accepted(),
                    sink.accepted(),
                ) + self.pending(),
                old(self).pending().len() + data@.len() <= S ==> *sink == *old(sink)
                    && self.pending().len() == old(self).pending().len() + count,
            decreases len - count,
        {
            if self.fill_count == S {
                let ghost before = sink.accepted();
                let ghost full = self.pending();
                match self.push(sink) {
                    Ok(()) => {},
                    Err(e) => {
                        proof {
                            crate::stream::lemma_extends_trans(
                                old(sink).accepted(),
                                before,
                                sink.accepted(),
                            );
                        }
                        return Err(e);
                    },
                }
                proof {
                    crate::stream::lemma_extends_trans(
                        old(sink).accepted(),
                        before,
                        sink.accepted(),
                    );
                    assert(full =~= since(before, sink.accepted()));
                }
            }
            let fill = self.fill_count;
            let ghost pre = self.pending();
            assert(old(self).pending() + data@.subrange(0, count as int) == since(
                old(sink).accepted(),
                sink.accepted(),
            ) + pre);
            let space = S - fill;
            let n = if space < len - count {
                space
            } else {
                len - count
            };
            copy_in(&mut self.buffer, fill, data, count, n);
            self.fill_count = fill + n;
            assert(data@.subrange(0, count + n) =~= data@.subrange(0, count as int)
                + data@.subrange(count as int, count + n));
            assert(self.pending() =~= pre + data@.subrange(count as int, count + n));
            proof {
                let mid = data@.subrange(count as int, count + n);
                let sent = since(old(sink).accepted(), sink.accepted());
                assert(old(self).pending() + data@.subrange(0, count + n) =~= (old(self).pending()
                    + data@.subrange(0, count as int)) + mid);
                assert((sent + pre) + mid =~= sent + (pre + mid));
            }
            count = count + n;
        }
        assert(data@.subrange(0, len as int) =~= data@);
        Ok(())
    }

    /// Pairs this buffer with `sink` for as long as both borrows last.
    pub fn borrow<'a, T: ByteSink>(&'a mut self, sink: &'a mut T) -> (r: BorrowedWriteBuffer<
        'a,
        T,
        S,
    >)
        ensures
            r.buffer() == *old(self),
            r.sink() == *old(sink),
            r.accepted() == Seq::<u8>::empty(),
    {
        proof {
            use_type_invariant(&*self);
        }
        BorrowedWriteBuffer { buffer: self, sink, taken: Ghost(Seq::empty()) }
    }
}

impl Default for UnownedWriteBuffer<0x4000> {
    fn default() -> (r: Self)
        ensures
            r.wf(),
            r.pending().len() == 0,
    {
        UnownedWriteBuffer { fill_count: 0, buffer: vstd::array::array_fill_for_copy_types(0u8) }
    }
}

/// A write buffer paired with its sink, usable wherever a plain sink is expected.
pub struct BorrowedWriteBuffer<'a, T: ByteSink, const S: usize> {
    buffer: &'a mut UnownedWriteBuffer<S>,
    sink: &'a mut T,
    taken: Ghost<Seq<u8>>,
}

impl<'a, T: ByteSink, const S: usize> BorrowedWriteBuffer<'a, T, S> {
    /// The paired buffer.
    pub closed spec fn buffer(&self) -> UnownedWriteBuffer<S> {
        *self.buffer
    }

    /// The paired sink.
    pub closed spec fn sink(&self) -> T {
        *self.sink
    }

    /// See [`UnownedWriteBuffer::write_all`].
    pub fn write_all(&mut self, data: &[u8]) -> (r: Result<(), BufError<T::Error>>)
        ensures
            final(self).buffer().wf(),
            extends(old(self).sink().accepted(), final(self).sink().accepted()),
            r is Ok ==> final(self).accepted() == old(self).accepted() + data@,
            r is Ok ==> old(self).buffer().pending() + data@ == since(
                old(self).sink().accepted(),
                final(self).sink().accepted(),
            ) + final(self).buffer().pending(),
            old(self).buffer().pending().len() + data@.len() <= S ==> r is Ok && final(self).sink()
                == old(self).sink(),
            r is Err ==> (r->Err_0 is Stream && final(self).sink().failed()) || (r->Err_0 is WriteZero
                && final(self).sink().stalled()),
    {
        proof {
            use_type_invariant(&*self.buffer);
        }
        let r = self.buffer.write_all(self.sink, data);
        if r.is_ok() {
            self.taken = Ghost(self.taken@ + data@);
        }
        r
    }
}

impl<'a, T: ByteSink, const S: usize> ByteSink for BorrowedWriteBuffer<'a, T, S> {
    type Error = BufError<T::Error>;

    /// The bytes taken by this pairing since it was made.
    closed spec fn accepted(&self) -> Seq<u8> {
        self.taken@
    }

    /// The paired sink failed, or took no byte of a non-empty slice.
    open spec fn failed(&self) -> bool {
        self.sink().failed() || self.sink().stalled()
    }

    /// Never: a write of a non-empty slice takes at least one byte or fails.
    open spec fn stalled(&self) -> bool {
        false
    }

    fn write(&mut self, data: &[u8]) -> (r: Result<usize, BufError<T::Error>>)
        ensures
            extends(old(self).sink().accepted(), final(self).sink().accepted()),
            r is Ok ==> old(self).buffer().pending() + data@.subrange(0, r->Ok_0 as int) == since(
                old(self).sink().accepted(),
                final(self).sink().accepted(),
            ) + final(self).buffer().pending(),
            data@.len() == 0 || old(self).buffer().pending().len() < S ==> r is Ok
                && final(self).sink() == old(self).sink() && r->Ok_0 == spec_min(
                S - old(self).buffer().pending().len(),
                data@.len() as int,
            ),
            r is Err ==> (r->Err_0 is Stream && final(self).sink().failed()) || (r->Err_0 is WriteZero
                && final(self).sink().stalled()),
    {
        proof {
            use_type_invariant(&*self.buffer);
        }
        let r = self.buffer.write(self.sink, data);
        match r {
            Ok(n) => {
                self.taken = Ghost(self.taken@ + data@.subrange(0, n as int));
            },
            Err(_) => {},
        }
        r
    }

    fn flush(&mut self) -> (r: Result<(), BufError<T::Error>>)
        ensures
            extends(old(self).sink().accepted(), final(self).sink().accepted()),
            old(self).buffer().pending() == since(
                old(self).sink().accepted(),
                final(self).sink().accepted(),
            ) + final(self).buffer().pending(),
            r is Ok ==> final(self).buffer().pending().len() == 0,
            r is Err ==> (r->Err_0 is Stream && final(self).sink().failed()) || (r->Err_0 is WriteZero
                && final(self).sink().stalled()),
    {
        proof {
            use_type_invariant(&*self.buffer);
        }
        self.buffer.flush(self.sink)
    }
}

} // verus!
