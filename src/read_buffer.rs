//! The read buffer: bytes fetched from a source wait in a fixed array
//! between a read cursor and a fill cursor until a caller takes them.
use vstd::prelude::*;

use crate::storage::{copy_in, copy_out, shift_to_front};
use crate::stream::{extends, lemma_extends_append, lemma_extends_refl, since, BufError, ByteSource};
use crate::utf8::{
    framed, lemma_encode_concat, lemma_framed_concat, lemma_invalid_at, lemma_valid_framed,
    lemma_valid_split, next_utf8, read_utf8, string_len,
};
use vstd::string::StringExecFns;
use vstd::utf8::{decode_utf8, decode_utf8_encode_utf8, encode_utf8, valid_utf8};

verus! {

/// The smaller of two numbers.
pub open spec fn spec_min(a: int, b: int) -> int {
    if a < b {
        a
    } else {
        b
    }
}

/// No byte of `s` is `b`.
pub open spec fn lacks(s: Seq<u8>, b: u8) -> bool {
    forall|i: int| 0 <= i < s.len() ==> s[i] != b
}

/// `n` is the length of the leading run of `s` that ends with the first `delim`,
/// or the length of all of `s` when `delim` does not occur in it.
pub open spec fn is_run_end(s: Seq<u8>, delim: u8, n: int) -> bool {
    &&& 0 <= n <= s.len()
    &&& n == 0 || lacks(s.subrange(0, n - 1), delim)
    &&& ((n > 0 && s[n - 1] == delim) || (n == s.len() && lacks(s, delim)))
}

/// A sequence has one run end for each delimiter.
pub proof fn lemma_run_end_unique(s: Seq<u8>, delim: u8, m1: int, m2: int)
    requires
        is_run_end(s, delim, m1),
        is_run_end(s, delim, m2),
    ensures
        m1 == m2,
{
    if m1 < m2 {
        if m1 > 0 {
            assert(s.subrange(0, m2 - 1)[m1 - 1] == s[m1 - 1]);
        }
    } else if m2 < m1 {
        if m2 > 0 {
            assert(s.subrange(0, m1 - 1)[m2 - 1] == s[m2 - 1]);
        }
    }
}

/// The state of a read buffer: its array and its two cursors.
pub struct ReadState {
    pub storage: Seq<u8>,
    pub read_count: nat,
    pub fill_count: nat,
}

impl ReadState {
    /// The cursors lie in order inside the array.
    pub open spec fn wf(self) -> bool {
        self.read_count <= self.fill_count <= self.storage.len()
    }

    /// The fetched bytes that no caller has taken yet.
    pub open spec fn resident(self) -> Seq<u8> {
        self.storage.subrange(self.read_count as int, self.fill_count as int)
    }

    /// The state after moving the resident bytes to the front of the array.
    pub open spec fn compacted(self) -> ReadState {
        if self.read_count == 0 {
            self
        } else {
            ReadState {
                storage: self.resident() + self.storage.subrange(
                    self.fill_count - self.read_count,
                    self.storage.len() as int,
                ),
                read_count: 0,
                fill_count: (self.fill_count - self.read_count) as nat,
            }
        }
    }

    /// Compaction keeps the resident bytes and the array length, and leaves the read
    /// cursor at 0.
    pub proof fn lemma_compacted(self)
        requires
            self.wf(),
        ensures
            self.compacted().wf(),
            self.compacted().read_count == 0,
            self.compacted().fill_count == self.resident().len(),
            self.compacted().resident() == self.resident(),
            self.compacted().storage.len() == self.storage.len(),
    {
        if self.read_count > 0 {
            let c = self.compacted();
            assert(c.resident() =~= self.resident());
        } else {
            assert(self.resident() =~= self.storage.subrange(0, self.fill_count as int));
        }
    }
}

/// A fixed-capacity read buffer of `S` bytes that does not own its source.
#[derive(Debug)]
pub struct UnownedReadBuffer<const S: usize> {
    read_count: usize,
    fill_count: usize,
    buffer: [u8; S],
}

impl<const S: usize> View for UnownedReadBuffer<S> {
    type V = ReadState;

    closed spec fn view(&self) -> ReadState {
        ReadState {
            storage: self.buffer@,
            read_count: self.read_count as nat,
            fill_count: self.fill_count as nat,
        }
    }
}

impl<const S: usize> UnownedReadBuffer<S> {
    #[verifier::type_invariant]
    spec fn inv(&self) -> bool {
        &&& S >= 16
        &&& self.read_count <= self.fill_count <= S
    }

    /// The view of this buffer is well formed, with an array of `S` bytes.
    pub open spec fn wf(&self) -> bool {
        self@.wf() && self@.storage.len() == S && S >= 16
    }

    /// An empty buffer.
    pub fn new() -> (r: Self)
        requires
            S >= 16,
        ensures
            r.wf(),
            r@.read_count == 0,
            r@.fill_count == 0,
    {
        UnownedReadBuffer {
            read_count: 0,
            fill_count: 0,
            buffer: vstd::array::array_fill_for_copy_types(0u8),
        }
    }

    /// How many fetched bytes wait to be taken.
    pub fn available(&self) -> (r: usize)
        ensures
            r == self@.resident().len(),
            self.wf(),
    {
        proof {
            use_type_invariant(self);
        }
        self.fill_count - self.read_count
    }

    /// The capacity `S`.
    pub fn size(&self) -> (r: usize)
        ensures
            r == S,
    {
        S
    }

    /// The read cursor: where the next byte will be taken from.
    pub fn read_count(&self) -> (r: usize)
        ensures
            r == self@.read_count,
    {
        self.read_count
    }

    /// The fill cursor: how much of the array holds, or held, fetched bytes.
    pub fn fill_count(&self) -> (r: usize)
        ensures
            r == self@.fill_count,
    {
        self.fill_count
    }

    /// How many bytes can still be appended behind the fill cursor.
    pub fn available_space(&self) -> (r: usize)
        ensures
            r == S - self@.fill_count,
            self.wf(),
    {
        proof {
            use_type_invariant(self);
        }
        S - self.fill_count
    }

    /// Moves the resident bytes to the front of the array; the read cursor is 0 afterwards.
    pub fn compact(&mut self)
        ensures
            final(self)@ == old(self)@.compacted(),
            final(self).wf(),
    {
        proof {
            use_type_invariant(&*self);
        }
        if self.read_count > 0 {
            let read = self.read_count;
            let fill = self.fill_count;
            if read < fill {
                shift_to_front(&mut self.buffer, read, fill);
            } else {
                assert(self.buffer@ =~= self.buffer@.subrange(read as int, fill as int)
                    + self.buffer@.subrange(0, S as int));
            }
            self.read_count = 0;
            self.fill_count = fill - read;
        }
    }

    /// Empties the buffer by putting both cursors at 0.
    fn clear(&mut self)
        ensures
            final(self)@.storage == old(self)@.storage,
            final(self)@.read_count == 0,
            final(self)@.fill_count == 0,
            final(self).wf(),
    {
        proof {
            use_type_invariant(&*self);
        }
        self.read_count = 0;
        self.fill_count = 0;
    }

    /// One read of `src` into the free space behind the fill cursor.
    fn fetch<T: ByteSource>(&mut self, src: &mut T) -> (r: Result<usize, BufError<T::Error>>)
        requires
            old(self)@.fill_count < S,
        ensures
            final(self).wf(),
            final(self)@.read_count == old(self)@.read_count,
            final(self)@.fill_count == old(self)@.fill_count + since(
                old(src).produced(),
                final(src).produced(),
            ).len(),
            since(old(src).produced(), final(src).produced()).len() <= S - old(self)@.fill_count,
            final(self)@.storage.subrange(0, old(self)@.fill_count as int)
                == old(self)@.storage.subrange(0, old(self)@.fill_count as int),
            final(self)@.resident() == old(self)@.resident() + since(
                old(src).produced(),
                final(src).produced(),
            ),
            extends(old(src).produced(), final(src).produced()),
            final(src).content() == old(src).content(),
            match r {
                Ok(n) => n == since(old(src).produced(), final(src).produced()).len() && (n == 0
                    ==> final(src).ended()),
                Err(e) => e is Stream && final(src).failed() && final(src).produced() == old(src).produced(),
            },
    {
        proof {
            use_type_invariant(&*self);
            lemma_extends_refl(src.produced());
        }
        let fill = self.fill_count;
        let whole: &mut [u8] = &mut self.buffer;
        let (_, free) = whole.split_at_mut(fill);
        match src.read(free) {
            Ok(n) => {
                assert(src.produced().subrange(0, old(src).produced().len() as int)
                    =~= old(src).produced());
                self.fill_count = fill + n;
                assert(self@.resident() =~= old(self)@.resident() + since(
                    old(src).produced(),
                    src.produced(),
                ));
                assert(self@.storage.subrange(0, fill as int) =~= old(self)@.storage.subrange(0, fill as int));
                Ok(n)
            },
            Err(e) => {
                assert(self@.resident() =~= old(self)@.resident() + since(
                    old(src).produced(),
                    src.produced(),
                ));
                Err(BufError::Stream(e))
            },
        }
    }

    /// Compacts, then makes one read of `src` into the free space.
    /// `Ok(false)` means that the source reported the end of the stream.
    fn feed<T: ByteSource>(&mut self, src: &mut T) -> (r: Result<bool, BufError<T::Error>>)
        requires
            old(self)@.resident().len() < S,
        ensures
            final(self).wf(),
            final(self)@.read_count == 0,
            since(old(src).produced(), final(src).produced()).len() <= S - old(
                self,
            )@.resident().len(),
            final(self)@.resident() == old(self)@.resident() + since(
                old(src).produced(),
                final(src).produced(),
            ),
            extends(old(src).produced(), final(src).produced()),
            final(src).content() == old(src).content(),
            match r {
                Ok(got) => (got <==> since(old(src).produced(), final(src).produced()).len() > 0)
                    && (!got ==> final(src).ended()),
                Err(e) => e is Stream && final(src).failed() && final(src).produced() == old(src).produced(),
            },
    {
        proof {
            use_type_invariant(&*self);
            old(self)@.lemma_compacted();
        }
        self.compact();
        match self.fetch(src) {
            Ok(n) => Ok(n > 0),
            Err(e) => Err(e),
        }
    }

    /// One read of `src` appended behind the fill cursor, without compacting first.
    /// Returns how many bytes arrived; 0 means the end of the stream.
    pub fn read_into_internal_buffer<T: ByteSource>(&mut self, src: &mut T) -> (r: Result<
        usize,
        BufError<T::Error>,
    >)
        requires
            old(self)@.fill_count < S,
        ensures
            final(self).wf(),
            final(self)@.read_count == old(self)@.read_count,
            final(self)@.resident() == old(self)@.resident() + since(
                old(src).produced(),
                final(src).produced(),
            ),
            extends(old(src).produced(), final(src).produced()),
            final(src).content() == old(src).content(),
            match r {
                Ok(n) => n == since(old(src).produced(), final(src).produced()).len() && (n == 0
                    ==> final(src).ended()),
                Err(e) => e is Stream && final(src).failed() && final(src).produced()
                    == old(src).produced(),
            },
    {
        self.fetch(src)
    }

    /// Appends `data` behind the fill cursor, without compacting first.
    pub fn copy_into_internal_buffer(&mut self, data: &[u8])
        requires
            data@.len() <= S - old(self)@.fill_count,
        ensures
            final(self).wf(),
            final(self)@ == (ReadState {
                storage: old(self)@.storage.subrange(0, old(self)@.fill_count as int) + data@
                    + old(self)@.storage.subrange((old(self)@.fill_count + data@.len()) as int, S as int),
                read_count: old(self)@.read_count,
                fill_count: old(self)@.fill_count + data@.len(),
            }),
            final(self)@.resident() == old(self)@.resident() + data@,
    {
        proof {
            use_type_invariant(&*self);
        }
        let fill = self.fill_count;
        let len = data.len();
        copy_in(&mut self.buffer, fill, data, 0, len);
        self.fill_count = fill + len;
        assert(data@.subrange(0, len as int) =~= data@);
        assert(self@.resident() =~= old(self)@.resident() + data@);
    }

    /// The resident bytes; the next read starts with the first of them.
    pub fn internal_buffer(&self) -> (r: &[u8])
        ensures
            r@ == self@.resident(),
    {
        proof {
            use_type_invariant(self);
        }
        vstd::slice::slice_subrange(self.buffer.as_slice(), self.read_count, self.fill_count)
    }

    /// The resident bytes, open to change in place.
    pub fn internal_buffer_mut(&mut self) -> (r: &mut [u8])
        ensures
            r@ == old(self)@.resident(),
            final(self)@.read_count == old(self)@.read_count,
            final(self)@.fill_count == old(self)@.fill_count,
            final(self)@.storage == old(self)@.storage.subrange(0, old(self)@.read_count as int)
                + final(r)@ + old(self)@.storage.subrange(old(self)@.fill_count as int, S as int),
    {
        proof {
            use_type_invariant(&*self);
        }
        let read = self.read_count;
        let fill = self.fill_count;
        let whole: &mut [u8] = &mut self.buffer;
        let (used, _) = whole.split_at_mut(fill);
        let (_, live) = used.split_at_mut(read);
        live
    }

    /// Discards the next `amount` resident bytes; when that is all of them both cursors
    /// go back to 0.
    pub fn skip(&mut self, amount: usize)
        requires
            amount <= old(self)@.resident().len(),
        ensures
            final(self).wf(),
            final(self)@.storage == old(self)@.storage,
            final(self)@.resident() == old(self)@.resident().subrange(
                amount as int,
                old(self)@.resident().len() as int,
            ),
            amount == old(self)@.resident().len() ==> final(self)@.read_count == 0
                && final(self)@.fill_count == 0,
            amount < old(self)@.resident().len() ==> final(self)@.read_count
                == old(self)@.read_count + amount,
    {
        proof {
            use_type_invariant(&*self);
        }
        if amount == self.fill_count - self.read_count {
            self.clear();
            return ;
        }
        self.read_count = self.read_count + amount;
        assert(self@.resident() =~= old(self)@.resident().subrange(
            amount as int,
            old(self)@.resident().len() as int,
        ));
    }

    /// Takes the next `amount` resident bytes, after a look at them with `fill_buf`.
    pub fn consume(&mut self, amount: usize)
        requires
            amount <= old(self)@.resident().len(),
        ensures
            final(self).wf(),
            final(self)@ == (ReadState { read_count: (old(self)@.read_count + amount) as nat, ..old(self)@ }),
            final(self)@.resident() == old(self)@.resident().subrange(
                amount as int,
                old(self)@.resident().len() as int,
            ),
    {
        proof {
            use_type_invariant(&*self);
        }
        self.read_count = self.read_count + amount;
        assert(self@.resident() =~= old(self)@.resident().subrange(
            amount as int,
            old(self)@.resident().len() as int,
        ));
    }

    /// `Ok(true)` when at least one byte is resident, after one read of `src` if none was.
    pub fn ensure_readable<T: ByteSource>(&mut self, src: &mut T) -> (r: Result<
        bool,
        BufError<T::Error>,
    >)
        ensures
            final(self).wf(),
            extends(old(src).produced(), final(src).produced()),
            final(src).content() == old(src).content(),
            final(self)@.resident() == old(self)@.resident() + since(
                old(src).produced(),
                final(src).produced(),
            ),
            old(self)@.resident().len() > 0 ==> r is Ok && r->Ok_0 && *final(self) == *old(self)
                && *final(src) == *old(src),
            match r {
                Ok(ready) => (ready <==> final(self)@.resident().len() > 0) && (!ready
                    ==> final(src).ended()),
                Err(e) => e is Stream && final(src).failed() && final(src).produced()
                    == old(src).produced(),
            },
    {
        proof {
            use_type_invariant(&*self);
        }
        if self.fill_count > self.read_count {
            proof {
                lemma_extends_refl(src.produced());
            }
            assert(self@.resident() =~= old(self)@.resident() + since(
                src.produced(),
                src.produced(),
            ));
            return Ok(true);
        }
        self.feed(src)
    }

    /// Copies as many resident bytes as fit into `out`, without touching any source.
    /// When that empties the buffer both cursors go back to 0.
    pub fn try_read(&mut self, out: &mut [u8]) -> (r: usize)
        ensures
            final(self).wf(),
            final(self)@.storage == old(self)@.storage,
            r == spec_min(old(self)@.resident().len() as int, old(out)@.len() as int),
            final(out)@ == old(self)@.resident().subrange(0, r as int) + old(out)@.subrange(
                r as int,
                old(out)@.len() as int,
            ),
            final(self)@.resident() == old(self)@.resident().subrange(
                r as int,
                old(self)@.resident().len() as int,
            ),
            0 < r < old(out)@.len() ==> final(self)@.read_count == 0 && final(self)@.fill_count
                == 0,
            r == 0 ==> *final(self) == *old(self) && final(out)@ == old(out)@,
    {
        proof {
            use_type_invariant(&*self);
        }
        let read = self.read_count;
        let avail = self.fill_count - read;
        let want = out.len();
        if want == 0 || avail == 0 {
            assert(old(out)@.subrange(0, 0) + old(out)@ =~= old(out)@);
            assert(old(self)@.resident().subrange(0, 0) + old(out)@.subrange(0, want as int) =~= old(out)@);
            assert(old(self)@.resident().subrange(0, old(self)@.resident().len() as int) =~= old(self)@.resident());
            return 0;
        }
        if avail >= want {
            copy_out(out, 0, &self.buffer, read, want);
            self.read_count = read + want;
            assert(old(out)@.subrange(0, 0) + self.buffer@.subrange(read as int, read + want) + old(out)@.subrange(want as int, want as int) =~= old(self)@.resident().subrange(0, want as int) + old(out)@.subrange(want as int, want as int));
            assert(self@.resident() =~= old(self)@.resident().subrange(want as int, avail as int));
            return want;
        }
        copy_out(out, 0, &self.buffer, read, avail);
        self.clear();
        assert(old(self)@.resident().subrange(0, avail as int) =~= old(self)@.resident());
        assert(old(out)@.subrange(0, 0) + self.buffer@.subrange(read as int, read + avail) =~= old(self)@.resident());
        assert(self@.resident() =~= old(self)@.resident().subrange(avail as int, avail as int));
        avail
    }

    /// Fills `out` as far as the resident bytes go; only when none is resident is `src`
    /// read, once. `Ok(0)` for a non-empty `out` means the end of the stream.
    pub fn read<T: ByteSource>(&mut self, src: &mut T, out: &mut [u8]) -> (r: Result<
        usize,
        BufError<T::Error>,
    >)
        ensures
            final(self).wf(),
            extends(old(src).produced(), final(src).produced()),
            final(src).content() == old(src).content(),
            final(out)@.len() == old(out)@.len(),
            old(self)@.resident().len() > 0 || old(out)@.len() == 0 ==> r is Ok && *final(src)
                == *old(src),
            match r {
                Ok(n) => {
                    let total = old(self)@.resident() + since(
                        old(src).produced(),
                        final(src).produced(),
                    );
                    &&& n == spec_min(total.len() as int, old(out)@.len() as int)
                    &&& final(out)@ == total.subrange(0, n as int) + old(out)@.subrange(
                        n as int,
                        old(out)@.len() as int,
                    )
                    &&& final(self)@.resident() == total.subrange(n as int, total.len() as int)
                    &&& (n == 0 && old(out)@.len() > 0 ==> final(src).ended())
                },
                Err(e) => {
                    &&& e is Stream && final(src).failed()
                    &&& final(src).produced() == old(src).produced()
                    &&& final(self)@.resident() == old(self)@.resident()
                    &&& final(out)@ == old(out)@
                },
            },
    {
        proof {
            use_type_invariant(&*self);
            lemma_extends_refl(src.produced());
        }
        if out.len() == 0 {
            assert(old(self)@.resident() + since(src.produced(), src.produced()) =~= old(
                self,
            )@.resident());
            assert(old(out)@ =~= old(self)@.resident().subrange(0, 0) + old(out)@.subrange(0, 0));
            assert(old(self)@.resident() =~= old(self)@.resident().subrange(
                0,
                old(self)@.resident().len() as int,
            ));
            return Ok(0);
        }
        if self.fill_count == self.read_count {
            match self.feed(src) {
                Ok(got) => {
                    if !got {
                        assert(old(out)@ =~= Seq::<u8>::empty() + old(out)@.subrange(
                            0,
                            old(out)@.len() as int,
                        ));
                        return Ok(0);
                    }
                },
                Err(e) => {
                    return Err(e);
                },
            }
        } else {
            assert(old(self)@.resident() + since(src.produced(), src.produced()) =~= old(
                self,
            )@.resident());
        }
        Ok(self.try_read(out))
    }

    /// Fills all of `out`, reading `src` as often as that needs.
    ///
    /// On an error the bytes copied so far stay in `out`; they are not resident any more.
    pub fn read_exact<T: ByteSource>(&mut self, src: &mut T, out: &mut [u8]) -> (r: Result<
        (),
        BufError<T::Error>,
    >)
        ensures
            final(self).wf(),
            extends(old(src).produced(), final(src).produced()),
            final(src).content() == old(src).content(),
            final(out)@.len() == old(out)@.len(),
            old(self)@.resident().len() >= old(out)@.len() ==> r is Ok && *final(src)
                == *old(src),
            old(out)@.len() == 0 ==> *final(self) == *old(self),
            ({
                let total = old(self)@.resident() + since(
                    old(src).produced(),
                    final(src).produced(),
                );
                match r {
                    Ok(()) => {
                        &&& total.len() >= old(out)@.len()
                        &&& final(out)@ == total.subrange(0, old(out)@.len() as int)
                        &&& final(self)@.resident() == total.subrange(
                            old(out)@.len() as int,
                            total.len() as int,
                        )
                    },
                    Err(e) => {
                        &&& total.len() < old(out)@.len()
                        &&& final(self)@.resident().len() == 0
                        &&& final(out)@ == total + old(out)@.subrange(
                            total.len() as int,
                            old(out)@.len() as int,
                        )
                        &&& (e is Stream && final(src).failed()) || (e is UnexpectedEof
                            && final(src).ended())
                    },
                }
            }),
    {
        proof {
            use_type_invariant(&*self);
            lemma_extends_refl(src.produced());
        }
        let want = out.len();
        if self.fill_count - self.read_count >= want {
            let n = self.try_read(out);
            assert(old(self)@.resident() + since(src.produced(), src.produced()) =~= old(
                self,
            )@.resident());
            assert(out@ =~= old(self)@.resident().subrange(0, want as int));
            return Ok(());
        }
        if self.fill_count == self.read_count {
            match self.feed(src) {
                Ok(got) => {
                    if !got {
                        assert(old(self)@.resident() + since(old(src).produced(), src.produced()) =~= Seq::<u8>::empty());
                        assert(out@ =~= Seq::<u8>::empty() + old(out)@.subrange(0, want as int));
                        return Err(BufError::UnexpectedEof);
                    }
                },
                Err(e) => {
                    assert(old(self)@.resident() + since(old(src).produced(), src.produced()) =~= Seq::<u8>::empty());
                    assert(out@ =~= Seq::<u8>::empty() + old(out)@.subrange(0, want as int));
                    return Err(e);
                },
            }
        }
        let mut done: usize = 0;
        loop
            invariant
                self.wf(),
                done < want,
                old(self)@.resident().len() < want,
                want == old(out)@.len(),
                out@.len() == want,
                self@.resident().len() > 0,
                extends(old(src).produced(), src.produced()),
                src.content() == old(src).content(),
                old(self)@.resident() + since(old(src).produced(), src.produced()) == out@.subrange(
                    0,
                    done as int,
                ) + self@.resident(),
                out@.subrange(done as int, want as int) == old(out)@.subrange(
                    done as int,
                    want as int,
                ),
            decreases want - done,
        {
            let ghost before = out@;
            let ghost live = self@.resident();
            let avail = self.fill_count - self.read_count;
            let read = self.read_count;
            if avail >= want - done {
                copy_out(out, done, &self.buffer, read, want - done);
                self.read_count = read + (want - done);
                proof {
                    let total = old(self)@.resident() + since(old(src).produced(), src.produced());
                    assert(total =~= before.subrange(0, done as int) + live);
                    assert(out@ =~= total.subrange(0, want as int));
                    assert(self@.resident() =~= total.subrange(want as int, total.len() as int));
                }
                return Ok(());
            }
            copy_out(out, done, &self.buffer, read, avail);
            self.clear();
            let ghost mid = src.produced();
            proof {
                assert(out@.subrange(0, done + avail) =~= before.subrange(0, done as int) + live);
                assert(out@.subrange(done + avail, want as int) =~= before.subrange(
                    done + avail,
                    want as int,
                ));
                assert(before.subrange(done + avail, want as int) =~= old(out)@.subrange(
                    done + avail,
                    want as int,
                )) by {
                    assert(before.subrange(done + avail, want as int) =~= before.subrange(
                        done as int,
                        want as int,
                    ).subrange(avail as int, want - done));
                    assert(old(out)@.subrange(done + avail, want as int) =~= old(out)@.subrange(
                        done as int,
                        want as int,
                    ).subrange(avail as int, want - done));
                }
                assert(self@.resident() =~= Seq::<u8>::empty());
            }
            done = done + avail;
            match self.feed(src) {
                Ok(got) => {
                    proof {
                        crate::stream::lemma_extends_trans(
                            old(src).produced(),
                            mid,
                            src.produced(),
                        );
                        assert(since(old(src).produced(), src.produced()) == since(
                            old(src).produced(),
                            mid,
                        ) + since(mid, src.produced()));
                        assert(old(self)@.resident() + since(old(src).produced(), src.produced())
                            =~= out@.subrange(0, done as int) + self@.resident());
                    }
                    if !got {
                        assert(out@ =~= out@.subrange(0, done as int) + out@.subrange(
                            done as int,
                            want as int,
                        ));
                        assert(self@.resident() =~= Seq::<u8>::empty());
                        return Err(BufError::UnexpectedEof);
                    }
                },
                Err(e) => {
                    proof {
                        lemma_extends_refl(mid);
                        assert(since(old(src).produced(), src.produced()) == since(
                            old(src).produced(),
                            mid,
                        ));
                        assert(out@ =~= out@.subrange(0, done as int) + out@.subrange(
                            done as int,
                            want as int,
                        ));
                    }
                    return Err(e);
                },
            }
        }
    }

    /// The first position in `from..to` that holds `byte`.
    fn find_byte(&self, byte: u8, from: usize, to: usize) -> (r: Option<usize>)
        requires
            from <= to <= S,
        ensures
            match r {
                Some(i) => from <= i < to && self@.storage[i as int] == byte && lacks(
                    self@.storage.subrange(from as int, i as int),
                    byte,
                ),
                None => lacks(self@.storage.subrange(from as int, to as int), byte),
            },
    {
        let mut i = from;
        while i < to
            invariant
                from <= i <= to <= S,
                self@.storage.len() == S,
                lacks(self@.storage.subrange(from as int, i as int), byte),
            decreases to - i,
        {
            if self.buffer[i] == byte {
                return Some(i);
            }
            assert(self@.storage.subrange(from as int, i + 1) =~= self@.storage.subrange(
                from as int,
                i as int,
            ).push(self.buffer@[i as int]));
            i = i + 1;
        }
        None
    }

    /// Appends `buffer[from..to]` to `collector`.
    fn append_to(&self, collector: &mut Vec<u8>, from: usize, to: usize)
        requires
            from <= to <= S,
        ensures
            final(collector)@ == old(collector)@ + self@.storage.subrange(from as int, to as int),
    {
        let part = vstd::slice::slice_subrange(self.buffer.as_slice(), from, to);
        collector.extend_from_slice(part);
        assert(collector@ =~= old(collector)@ + self@.storage.subrange(from as int, to as int));
    }

    /// Appends bytes to `collector` up to and including the first `delim`, reading `src`
    /// as often as that needs, or up to the end of the stream. Returns how many.
    pub fn read_until<T: ByteSource>(
        &mut self,
        src: &mut T,
        delim: u8,
        collector: &mut Vec<u8>,
    ) -> (r: Result<usize, BufError<T::Error>>)
        ensures
            final(self).wf(),
            extends(old(src).produced(), final(src).produced()),
            final(src).content() == old(src).content(),
            ({
                let total = old(self)@.resident() + since(
                    old(src).produced(),
                    final(src).produced(),
                );
                match r {
                    Ok(n) => {
                        &&& is_run_end(total, delim, n as int)
                        &&& final(collector)@ == old(collector)@ + total.subrange(0, n as int)
                        &&& final(self)@.resident() == total.subrange(n as int, total.len() as int)
                        &&& (lacks(total, delim) ==> final(src).ended())
                    },
                    Err(e) => {
                        &&& e is Stream && final(src).failed()
                        &&& lacks(total, delim)
                        &&& final(collector)@ == old(collector)@ + total
                        &&& final(self)@.resident().len() == 0
                    },
                }
            }),
    {
        proof {
            use_type_invariant(&*self);
            lemma_extends_refl(src.produced());
        }
        if self.fill_count == self.read_count {
            match self.feed(src) {
                Ok(got) => {
                    if !got {
                        assert(old(self)@.resident() + since(old(src).produced(), src.produced())
                            =~= Seq::<u8>::empty());
                        assert(old(collector)@ + Seq::<u8>::empty() =~= old(collector)@);
                        return Ok(0);
                    }
                },
                Err(e) => {
                    assert(old(self)@.resident() + since(old(src).produced(), src.produced())
                        =~= Seq::<u8>::empty());
                    assert(old(collector)@ + Seq::<u8>::empty() =~= old(collector)@);
                    return Err(e);
                },
            }
        } else {
            assert(old(self)@.resident() + since(old(src).produced(), src.produced()) =~= old(
                self,
            )@.resident());
        }
        let mut count: usize = 0;
        assert(collector.len() == collector@.len());
        assert(collector@.subrange(old(collector)@.len() as int, collector@.len() as int)
            =~= Seq::<u8>::empty());
        loop
            invariant
                self.wf(),
                self@.resident().len() > 0,
                extends(old(src).produced(), src.produced()),
                src.content() == old(src).content(),
                collector@.len() <= usize::MAX,
                collector@.len() == old(collector)@.len() + count,
                ({
                    let total = old(self)@.resident() + since(old(src).produced(), src.produced());
                    let taken = collector@.subrange(
                        old(collector)@.len() as int,
                        collector@.len() as int,
                    );
                    &&& collector@ == old(collector)@ + taken
                    &&& total == taken + self@.resident()
                    &&& lacks(taken, delim)
                }),
            decreases usize::MAX - collector@.len(),
        {
            let ghost taken = collector@.subrange(
                old(collector)@.len() as int,
                collector@.len() as int,
            );
            let ghost live = self@.resident();
            let read = self.read_count;
            let fill = self.fill_count;
            match self.find_byte(delim, read, fill) {
                Some(i) => {
                    self.append_to(collector, read, i + 1);
                    self.read_count = i + 1;
                    assert(collector.len() == collector@.len());
                    let n = count + (i + 1 - read);
                    proof {
                        let total = old(self)@.resident() + since(
                            old(src).produced(),
                            src.produced(),
                        );
                        let run = taken + live.subrange(0, i + 1 - read);
                        assert(live.subrange(0, i - read) =~= self@.storage.subrange(
                            read as int,
                            i as int,
                        ));
                        assert(total.subrange(0, n as int) =~= run);
                        assert(total.subrange(0, n - 1) =~= taken + live.subrange(0, i - read));
                        assert(self@.resident() =~= total.subrange(n as int, total.len() as int));
                        assert(collector@ =~= old(collector)@ + run);
                        assert(total[n - 1] == delim);
                    }
                    return Ok(n);
                },
                None => {
                    self.append_to(collector, read, fill);
                    assert(collector.len() == collector@.len());
                    count = count + (fill - read);
                    self.clear();
                    let ghost mid = src.produced();
                    proof {
                        assert(lacks(taken + live, delim));
                    }
                    match self.feed(src) {
                        Ok(got) => {
                            proof {
                                crate::stream::lemma_extends_trans(
                                    old(src).produced(),
                                    mid,
                                    src.produced(),
                                );
                                assert(collector@.subrange(
                                    old(collector)@.len() as int,
                                    collector@.len() as int,
                                ) =~= taken + live);
                                assert(collector@ =~= old(collector)@ + (taken + live));
                            }
                            if !got {
                                proof {
                                    let total = old(self)@.resident() + since(
                                        old(src).produced(),
                                        src.produced(),
                                    );
                                    assert(total =~= taken + live);
                                    assert(total.subrange(0, count as int) =~= total);
                                    assert(lacks(total.subrange(0, count - 1), delim));
                                    assert(self@.resident() =~= total.subrange(count as int, total.len() as int));
                                }
                                return Ok(count);
                            }
                        },
                        Err(e) => {
                            proof {
                                lemma_extends_refl(mid);
                                let total = old(self)@.resident() + since(
                                    old(src).produced(),
                                    src.produced(),
                                );
                                assert(since(old(src).produced(), src.produced()) == since(old(src).produced(), mid));
                                assert(total =~= taken + live);
                                assert(collector@ =~= old(collector)@ + total);
                            }
                            return Err(e);
                        },
                    }
                },
            }
        }
    }

    /// Like `read_until`, but appends at most `limit` bytes; what is fetched beyond that
    /// stays resident.
    pub fn read_until_limit<T: ByteSource>(
        &mut self,
        src: &mut T,
        delim: u8,
        limit: usize,
        collector: &mut Vec<u8>,
    ) -> (r: Result<usize, BufError<T::Error>>)
        ensures
            final(self).wf(),
            extends(old(src).produced(), final(src).produced()),
            final(src).content() == old(src).content(),
            limit == 0 ==> r is Ok && *final(src) == *old(src) && *final(self) == *old(self)
                && final(collector)@ == old(collector)@,
            ({
                let total = old(self)@.resident() + since(
                    old(src).produced(),
                    final(src).produced(),
                );
                match r {
                    Ok(n) => {
                        &&& n <= limit
                        &&& n <= total.len()
                        &&& is_run_end(total, delim, n as int) || (n == limit && lacks(
                            total.subrange(0, n as int),
                            delim,
                        ))
                        &&& final(collector)@ == old(collector)@ + total.subrange(0, n as int)
                        &&& final(self)@.resident() == total.subrange(n as int, total.len() as int)
                        &&& (n < limit && lacks(total, delim) ==> final(src).ended())
                    },
                    Err(e) => {
                        &&& e is Stream && final(src).failed()
                        &&& total.len() < limit
                        &&& lacks(total, delim)
                        &&& final(collector)@ == old(collector)@ + total
                        &&& final(self)@.resident().len() == 0
                    },
                }
            }),
    {
        proof {
            use_type_invariant(&*self);
            lemma_extends_refl(src.produced());
        }
        if limit == 0 {
            assert(old(collector)@ + Seq::<u8>::empty() =~= old(collector)@);
            assert(old(self)@.resident() + since(src.produced(), src.produced()) =~= old(self)@.resident());
            assert(old(self)@.resident().subrange(0, 0) =~= Seq::<u8>::empty());
            assert(old(self)@.resident().subrange(0, old(self)@.resident().len() as int) =~= old(self)@.resident());
            return Ok(0);
        }
        if self.fill_count == self.read_count {
            match self.feed(src) {
                Ok(got) => {
                    if !got {
                        assert(old(self)@.resident() + since(old(src).produced(), src.produced())
                            =~= Seq::<u8>::empty());
                        assert(old(collector)@ + Seq::<u8>::empty() =~= old(collector)@);
                        return Ok(0);
                    }
                },
                Err(e) => {
                    assert(old(self)@.resident() + since(old(src).produced(), src.produced())
                        =~= Seq::<u8>::empty());
                    assert(old(collector)@ + Seq::<u8>::empty() =~= old(collector)@);
                    return Err(e);
                },
            }
        } else {
            assert(old(self)@.resident() + since(old(src).produced(), src.produced()) =~= old(
                self,
            )@.resident());
        }
        let mut count: usize = 0;
        assert(collector@.subrange(old(collector)@.len() as int, collector@.len() as int)
            =~= Seq::<u8>::empty());
        loop
            invariant
                self.wf(),
                count < limit,
                self@.resident().len() > 0,
                extends(old(src).produced(), src.produced()),
                src.content() == old(src).content(),
                collector@.len() == old(collector)@.len() + count,
                ({
                    let total = old(self)@.resident() + since(old(src).produced(), src.produced());
                    let taken = collector@.subrange(
                        old(collector)@.len() as int,
                        collector@.len() as int,
                    );
                    &&& collector@ == old(collector)@ + taken
                    &&& total == taken + self@.resident()
                    &&& lacks(taken, delim)
                }),
            decreases limit - count,
        {
            let ghost taken = collector@.subrange(
                old(collector)@.len() as int,
                collector@.len() as int,
            );
            let ghost live = self@.resident();
            let read = self.read_count;
            let avail = self.fill_count - read;
            let take = if avail < limit - count {
                avail
            } else {
                limit - count
            };
            match self.find_byte(delim, read, read + take) {
                Some(i) => {
                    self.append_to(collector, read, i + 1);
                    self.read_count = i + 1;
                    let n = count + (i + 1 - read);
                    proof {
                        let total = old(self)@.resident() + since(
                            old(src).produced(),
                            src.produced(),
                        );
                        let run = taken + live.subrange(0, i + 1 - read);
                        assert(live.subrange(0, i - read) =~= self@.storage.subrange(
                            read as int,
                            i as int,
                        ));
                        assert(total.subrange(0, n as int) =~= run);
                        assert(total.subrange(0, n - 1) =~= taken + live.subrange(0, i - read));
                        assert(self@.resident() =~= total.subrange(n as int, total.len() as int));
                        assert(collector@ =~= old(collector)@ + run);
                        assert(total[n - 1] == delim);
                    }
                    return Ok(n);
                },
                None => {
                    self.append_to(collector, read, read + take);
                    count = count + take;
                    self.read_count = read + take;
                    proof {
                        let total = old(self)@.resident() + since(
                            old(src).produced(),
                            src.produced(),
                        );
                        let part = live.subrange(0, take as int);
                        assert(part =~= self@.storage.subrange(read as int, read + take));
                        assert(lacks(taken + part, delim));
                        assert(collector@.subrange(
                            old(collector)@.len() as int,
                            collector@.len() as int,
                        ) =~= taken + part);
                        assert(collector@ =~= old(collector)@ + (taken + part));
                        assert(total =~= (taken + part) + self@.resident());
                    }
                    if count >= limit {
                        proof {
                            let total = old(self)@.resident() + since(
                                old(src).produced(),
                                src.produced(),
                            );
                            assert(total.subrange(0, count as int) =~= collector@.subrange(
                                old(collector)@.len() as int,
                                collector@.len() as int,
                            ));
                            assert(self@.resident() =~= total.subrange(count as int, total.len() as int));
                        }
                        return Ok(count);
                    }
                    let ghost mid = src.produced();
                    let ghost taken2 = collector@.subrange(
                        old(collector)@.len() as int,
                        collector@.len() as int,
                    );
                    match self.feed(src) {
                        Ok(got) => {
                            proof {
                                crate::stream::lemma_extends_trans(
                                    old(src).produced(),
                                    mid,
                                    src.produced(),
                                );
                            }
                            if !got {
                                proof {
                                    let total = old(self)@.resident() + since(
                                        old(src).produced(),
                                        src.produced(),
                                    );
                                    assert(total =~= taken2);
                                    assert(total.subrange(0, count as int) =~= total);
                                    assert(lacks(total.subrange(0, count - 1), delim));
                                    assert(self@.resident() =~= total.subrange(count as int, total.len() as int));
                                }
                                return Ok(count);
                            }
                        },
                        Err(e) => {
                            proof {
                                lemma_extends_refl(mid);
                                let total = old(self)@.resident() + since(
                                    old(src).produced(),
                                    src.produced(),
                                );
                                assert(since(old(src).produced(), src.produced()) == since(old(src).produced(), mid));
                                assert(total =~= taken2);
                            }
                            return Err(e);
                        },
                    }
                },
            }
        }
    }

    /// Appends every remaining byte of the stream to `collector`: the resident ones, then
    /// whatever `src` hands out until it reports the end. Returns how many.
    pub fn read_to_end<T: ByteSource>(&mut self, src: &mut T, collector: &mut Vec<u8>) -> (r:
        Result<usize, BufError<T::Error>>)
        ensures
            final(self).wf(),
            extends(old(src).produced(), final(src).produced()),
            final(src).content() == old(src).content(),
            final(self)@.resident().len() == 0,
            ({
                let total = old(self)@.resident() + since(
                    old(src).produced(),
                    final(src).produced(),
                );
                &&& final(collector)@ == old(collector)@ + total
                &&& match r {
                    Ok(n) => n == total.len() && final(src).ended(),
                    Err(e) => e is Stream && final(src).failed(),
                }
            }),
    {
        proof {
            use_type_invariant(&*self);
            lemma_extends_refl(src.produced());
        }
        if self.fill_count == self.read_count {
            match self.feed(src) {
                Ok(got) => {
                    if !got {
                        assert(old(self)@.resident() + since(old(src).produced(), src.produced())
                            =~= Seq::<u8>::empty());
                        assert(old(collector)@ + Seq::<u8>::empty() =~= old(collector)@);
                        return Ok(0);
                    }
                },
                Err(e) => {
                    assert(old(self)@.resident() + since(old(src).produced(), src.produced())
                        =~= Seq::<u8>::empty());
                    assert(old(collector)@ + Seq::<u8>::empty() =~= old(collector)@);
                    return Err(e);
                },
            }
        } else {
            assert(old(self)@.resident() + since(old(src).produced(), src.produced()) =~= old(
                self,
            )@.resident());
        }
        let mut count: usize = 0;
        assert(collector.len() == collector@.len());
        assert(collector@.subrange(old(collector)@.len() as int, collector@.len() as int)
            =~= Seq::<u8>::empty());
        loop
            invariant
                self.wf(),
                self@.resident().len() > 0,
                extends(old(src).produced(), src.produced()),
                src.content() == old(src).content(),
                collector@.len() <= usize::MAX,
                collector@.len() == old(collector)@.len() + count,
                ({
                    let total = old(self)@.resident() + since(old(src).produced(), src.produced());
                    let taken = collector@.subrange(
                        old(collector)@.len() as int,
                        collector@.len() as int,
                    );
                    &&& collector@ == old(collector)@ + taken
                    &&& total == taken + self@.resident()
                }),
            decreases usize::MAX - collector@.len(),
        {
            let ghost taken = collector@.subrange(
                old(collector)@.len() as int,
                collector@.len() as int,
            );
            let ghost live = self@.resident();
            let read = self.read_count;
            let fill = self.fill_count;
            self.append_to(collector, read, fill);
            assert(collector.len() == collector@.len());
            count = count + (fill - read);
            self.clear();
            let ghost mid = src.produced();
            proof {
                assert(collector@.subrange(old(collector)@.len() as int, collector@.len() as int)
                    =~= taken + live);
                assert(collector@ =~= old(collector)@ + (taken + live));
            }
            match self.feed(src) {
                Ok(got) => {
                    proof {
                        crate::stream::lemma_extends_trans(old(src).produced(), mid, src.produced());
                    }
                    if !got {
                        assert(old(self)@.resident() + since(old(src).produced(), src.produced())
                            =~= taken + live);
                        return Ok(count);
                    }
                },
                Err(e) => {
                    proof {
                        lemma_extends_refl(mid);
                        assert(since(old(src).produced(), src.produced()) == since(
                            old(src).produced(),
                            mid,
                        ));
                    }
                    assert(old(self)@.resident() + since(old(src).produced(), src.produced())
                        =~= taken + live);
                    return Err(e);
                },
            }
        }
    }

    /// The resident bytes, after one read of `src` if none was resident. An empty slice
    /// means the end of the stream.
    pub fn fill_buf<T: ByteSource>(&mut self, src: &mut T) -> (r: Result<&[u8], BufError<T::Error>>)
        ensures
            final(self).wf(),
            extends(old(src).produced(), final(src).produced()),
            final(src).content() == old(src).content(),
            final(self)@.resident() == old(self)@.resident() + since(
                old(src).produced(),
                final(src).produced(),
            ),
            old(self)@.resident().len() > 0 ==> *final(src) == *old(src) && *final(self)
                == *old(self),
            match r {
                Ok(bytes) => bytes@ == final(self)@.resident() && (bytes@.len() == 0
                    ==> final(src).ended()),
                Err(e) => e is Stream && final(src).failed() && final(src).produced() == old(src).produced(),
            },
    {
        proof {
            use_type_invariant(&*self);
            lemma_extends_refl(src.produced());
        }
        if self.fill_count == self.read_count {
            match self.feed(src) {
                Ok(_) => {},
                Err(e) => {
                    return Err(e);
                },
            }
        } else {
            assert(old(self)@.resident() + since(src.produced(), src.produced()) =~= old(
                self,
            )@.resident());
        }
        Ok(self.internal_buffer())
    }

    /// The end of the longest framed run of `buffer[from..to]` that leaves at most
    /// `reserve` bytes behind; `None` when the bytes cannot be valid UTF-8.
    fn frame_run(&self, from: usize, to: usize, reserve: usize) -> (r: Option<usize>)
        requires
            from <= to <= S,
            reserve == 0 || reserve == 4,
        ensures
            match r {
                Some(k) => {
                    &&& from <= k <= to
                    &&& framed(self@.storage.subrange(from as int, k as int))
                    &&& to - k <= reserve
                    &&& (to - from > reserve ==> k > from)
                },
                None => {
                    &&& !valid_utf8(self@.storage.subrange(from as int, to as int))
                    &&& reserve == 4 ==> forall|x: Seq<u8>|
                        !valid_utf8(#[trigger] (self@.storage.subrange(from as int, to as int) + x))
                },
            },
    {
        let bytes = self.buffer.as_slice();
        let mut i = from;
        assert(self@.storage.subrange(from as int, from as int) =~= Seq::<u8>::empty());
        while to - i > reserve
            invariant
                from <= i <= to <= S,
                bytes@ == self@.storage,
                bytes@.len() == S,
                framed(self@.storage.subrange(from as int, i as int)),
            decreases to - i,
        {
            match next_utf8(bytes, i, to) {
                None => {
                    proof {
                        let run = self@.storage.subrange(from as int, to as int);
                        assert(run.subrange(0, i - from) =~= self@.storage.subrange(
                            from as int,
                            i as int,
                        ));
                        assert(run.subrange(i - from, run.len() as int) =~= bytes@.subrange(
                            i as int,
                            to as int,
                        ));
                        lemma_invalid_at(run, i - from);
                        if reserve == 4 {
                            assert forall|x: Seq<u8>| !valid_utf8(#[trigger] (run + x)) by {
                                let k = i - from;
                                let s2 = run + x;
                                assert(s2.subrange(0, k) =~= run.subrange(0, k));
                                let t1 = run.subrange(k, run.len() as int);
                                let t2 = s2.subrange(k, s2.len() as int);
                                assert(t1[0] == t2[0] && t1[1] == t2[1] && t1[2] == t2[2] && t1[3]
                                    == t2[3]);
                                crate::utf8::lemma_leading_by_front(t1, t2);
                                lemma_invalid_at(s2, k);
                            }
                        }
                    }
                    return None;
                },
                Some(w) => {
                    proof {
                        let one = bytes@.subrange(i as int, i + w);
                        let rest = bytes@.subrange(i as int, to as int);
                        assert(one.subrange(0, w as int) =~= rest.subrange(0, w as int));
                        assert(one =~= rest.subrange(0, w as int));
                        assert(vstd::utf8::valid_leading_and_continuation_bytes_first_codepoint(
                            one,
                        ));
                        assert(vstd::utf8::length_of_first_codepoint(one) == w);
                        assert(one.subrange(w as int, one.len() as int) =~= Seq::<u8>::empty());
                        assert(framed(Seq::<u8>::empty()));
                        assert(framed(one));
                        lemma_framed_concat(self@.storage.subrange(from as int, i as int), one);
                        assert(self@.storage.subrange(from as int, i + w) =~= self@.storage.subrange(
                            from as int,
                            i as int,
                        ) + one);
                    }
                    i = i + w;
                },
            }
        }
        Some(i)
    }

    /// Decodes the longest framed run of `buffer[read_count..to]` that leaves at most
    /// `reserve` bytes behind, appends its text to `text` and takes those bytes.
    /// `None` when the bytes cannot be valid UTF-8; then nothing changes.
    fn decode_run(&mut self, text: &mut String, to: usize, reserve: usize) -> (r: Option<usize>)
        requires
            old(self)@.read_count <= to <= old(self)@.fill_count,
            reserve == 0 || reserve == 4,
        ensures
            final(self).wf(),
            final(self)@.storage == old(self)@.storage,
            final(self)@.fill_count == old(self)@.fill_count,
            ({
                let run = old(self)@.storage.subrange(old(self)@.read_count as int, to as int);
                match r {
                    Some(n) => {
                        &&& n <= run.len()
                        &&& run.len() - n <= reserve
                        &&& (run.len() > reserve ==> n > 0)
                        &&& final(self)@.read_count == old(self)@.read_count + n
                        &&& valid_utf8(run.subrange(0, n as int))
                        &&& final(text)@ == old(text)@ + decode_utf8(run.subrange(0, n as int))
                        &&& encode_utf8(final(text)@) == encode_utf8(old(text)@) + run.subrange(
                            0,
                            n as int,
                        )
                        &&& encode_utf8(final(text)@).len() <= usize::MAX
                    },
                    None => {
                        &&& !valid_utf8(run)
                        &&& reserve == 4 ==> forall|x: Seq<u8>| !valid_utf8(#[trigger] (run + x))
                        &&& *final(self) == *old(self)
                        &&& final(text)@ == old(text)@
                    },
                }
            }),
    {
        proof {
            use_type_invariant(&*self);
        }
        let read = self.read_count;
        let ghost run = self@.storage.subrange(read as int, to as int);
        match self.frame_run(read, to, reserve) {
            None => None,
            Some(k) => {
                let part = vstd::slice::slice_subrange(self.buffer.as_slice(), read, k);
                assert(part@ =~= run.subrange(0, k - read));
                match read_utf8(part) {
                    None => {
                        proof {
                            let rest = run.subrange(k - read, run.len() as int);
                            assert(run =~= part@ + rest);
                            lemma_valid_split(part@, rest);
                            assert forall|x: Seq<u8>| !valid_utf8(#[trigger] (run + x)) by {
                                assert(run + x =~= part@ + (rest + x));
                                lemma_valid_split(part@, rest + x);
                            }
                        }
                        None
                    },
                    Some(t) => {
                        text.append(t);
                        self.read_count = k;
                        proof {
                            decode_utf8_encode_utf8(part@);
                            lemma_encode_concat(old(text)@, t@);
                        }
                        let _ = string_len(text);
                        Some(k - read)
                    },
                }
            },
        }
    }

    /// Appends the text of every remaining byte of the stream to `text`.
    ///
    /// On each pass the last four resident bytes are held back, since a sequence may be
    /// split by the next read; at the end of the stream they are decoded as the last
    /// run. When the bytes are not valid UTF-8 the call fails and every byte not yet
    /// decoded stays resident. Returns how many bytes were decoded.
    pub fn read_to_string<T: ByteSource>(&mut self, src: &mut T, text: &mut String) -> (r:
        Result<usize, BufError<T::Error>>)
        ensures
            final(self).wf(),
            extends(old(src).produced(), final(src).produced()),
            final(src).content() == old(src).content(),
            ({
                let total = old(self)@.resident() + since(
                    old(src).produced(),
                    final(src).produced(),
                );
                let kept = final(self)@.resident();
                let used = total.subrange(0, total.len() - kept.len());
                &&& kept.len() <= total.len()
                &&& total == used + kept
                &&& valid_utf8(used)
                &&& final(text)@ == old(text)@ + decode_utf8(used)
                &&& match r {
                    Ok(n) => n == total.len() && kept.len() == 0 && final(src).ended(),
                    Err(e) => {
                        &&& (e is Stream && final(src).failed()) || e is InvalidData
                        &&& e is InvalidData ==> kept.len() > 0 && ((final(src).ended()
                            && !valid_utf8(total)) || forall|x: Seq<u8>|
                            !valid_utf8(#[trigger] (total + x)))
                    },
                }
            }),
    {
        proof {
            use_type_invariant(&*self);
            lemma_extends_refl(src.produced());
        }
        assert(decode_utf8(Seq::<u8>::empty()) =~= Seq::<char>::empty());
        assert(old(text)@ + Seq::<char>::empty() =~= old(text)@);
        if self.fill_count == self.read_count {
            match self.feed(src) {
                Ok(got) => {
                    if !got {
                        assert(old(self)@.resident() + since(old(src).produced(), src.produced())
                            =~= Seq::<u8>::empty());
                        return Ok(0);
                    }
                },
                Err(e) => {
                    assert(old(self)@.resident() + since(old(src).produced(), src.produced())
                        =~= Seq::<u8>::empty());
                    return Err(e);
                },
            }
        } else {
            assert(old(self)@.resident() + since(old(src).produced(), src.produced()) =~= old(
                self,
            )@.resident());
        }
        let ghost mut used: Seq<u8> = Seq::empty();
        let mut count: usize = 0;
        assert(encode_utf8(old(text)@) + used =~= encode_utf8(old(text)@));
        loop
            invariant
                self.wf(),
                self@.resident().len() > 0,
                extends(old(src).produced(), src.produced()),
                src.content() == old(src).content(),
                old(self)@.resident() + since(old(src).produced(), src.produced()) == used
                    + self@.resident(),
                valid_utf8(used),
                text@ == old(text)@ + decode_utf8(used),
                encode_utf8(text@) == encode_utf8(old(text)@) + used,
                count == used.len(),
            decreases usize::MAX - count, S - self@.resident().len(),
        {
            let ghost live = self@.resident();
            let fill = self.fill_count;
            match self.decode_run(text, fill, 4) {
                None => {
                    proof {
                        lemma_valid_framed(used);
                        lemma_valid_split(used, live);
                        assert(live =~= self@.storage.subrange(self@.read_count as int, fill as int));
                        let total = used + live;
                        assert(total.subrange(0, total.len() - live.len()) =~= used);
                        crate::utf8::lemma_no_valid_extension(used, live);
                    }
                    return Err(BufError::InvalidData);
                },
                Some(n) => {
                    proof {
                        let piece = live.subrange(0, n as int);
                        lemma_valid_framed(used);
                        lemma_valid_split(used, piece);
                        assert(text@ =~= old(text)@ + decode_utf8(used + piece));
                        assert(encode_utf8(text@) =~= encode_utf8(old(text)@) + (used + piece));
                        assert(live =~= piece + self@.resident());
                        used = used + piece;
                    }
                    count = count + n;
                },
            }
            let ghost mid = src.produced();
            let ghost kept = self@.resident();
            assert(old(self)@.resident() + since(old(src).produced(), mid) =~= used + kept);
            match self.feed(src) {
                Ok(got) => {
                    proof {
                        crate::stream::lemma_extends_trans(old(src).produced(), mid, src.produced());
                        let fresh = since(mid, src.produced());
                        assert(old(self)@.resident() + since(old(src).produced(), src.produced())
                            =~= (old(self)@.resident() + since(old(src).produced(), mid)) + fresh);
                        assert((used + kept) + fresh =~= used + (kept + fresh));
                    }
                    if !got {
                        let ghost tail = self@.resident();
                        assert(tail =~= kept);
                        let read = self.read_count;
                        let fill = self.fill_count;
                        match self.decode_run(text, fill, 0) {
                            None => {
                                proof {
                                    lemma_valid_framed(used);
                                    lemma_valid_split(used, tail);
                                    assert(tail =~= self@.storage.subrange(read as int, fill as int));
                                    let total = used + tail;
                                    assert(total.subrange(0, total.len() - tail.len()) =~= used);
                                }
                                return Err(BufError::InvalidData);
                            },
                            Some(n) => {
                                proof {
                                    assert(tail =~= self@.storage.subrange(read as int, fill as int));
                                    assert(tail.subrange(0, n as int) =~= tail);
                                    lemma_valid_framed(used);
                                    lemma_valid_split(used, tail);
                                    assert(text@ =~= old(text)@ + decode_utf8(used + tail));
                                    assert(encode_utf8(text@) =~= encode_utf8(old(text)@) + (used + tail));
                                    used = used + tail;
                                }
                                count = count + n;
                                self.clear();
                                proof {
                                    let total = old(self)@.resident() + since(
                                        old(src).produced(),
                                        src.produced(),
                                    );
                                    assert(self@.resident() =~= Seq::<u8>::empty());
                                    assert(total =~= used);
                                    assert(total.subrange(0, total.len() as int) =~= total);
                                    assert(used + self@.resident() =~= used);
                                }
                                return Ok(count);
                            },
                        }
                    }
                },
                Err(e) => {
                    proof {
                        lemma_extends_refl(mid);
                        assert(self@.resident() =~= kept);
                        let total = used + kept;
                        assert(total.subrange(0, total.len() - kept.len()) =~= used);
                    }
                    return Err(e);
                },
            }
        }
    }

    /// Appends to `text` the text of the next line: up to and including the first `\n`,
    /// or up to the end of the stream. Bytes held back because a sequence may be split
    /// are never dropped: on invalid UTF-8 the call fails and every byte not yet decoded
    /// stays resident. Returns how many bytes were decoded; 0 only at the end of the stream.
    #[verifier::rlimit(80)]
    #[verifier::spinoff_prover]
    pub fn read_line<T: ByteSource>(&mut self, src: &mut T, text: &mut String) -> (r: Result<
        usize,
        BufError<T::Error>,
    >)
        ensures
            final(self).wf(),
            extends(old(src).produced(), final(src).produced()),
            final(src).content() == old(src).content(),
            ({
                let total = old(self)@.resident() + since(
                    old(src).produced(),
                    final(src).produced(),
                );
                let kept = final(self)@.resident();
                let used = total.subrange(0, total.len() - kept.len());
                &&& kept.len() <= total.len()
                &&& total == used + kept
                &&& valid_utf8(used)
                &&& final(text)@ == old(text)@ + decode_utf8(used)
                &&& match r {
                    Ok(n) => {
                        &&& n == used.len()
                        &&& is_run_end(total, 10u8, n as int)
                        &&& (lacks(total, 10u8) ==> kept.len() == 0 && final(src).ended())
                    },
                    Err(e) => {
                        &&& (e is Stream && final(src).failed()) || e is InvalidData
                        &&& lacks(used, 10u8)
                        &&& (e is InvalidData ==> kept.len() > 0 && (((!lacks(total, 10u8)
                            || final(src).ended()) && forall|m: int|
                            #[trigger] is_run_end(total, 10u8, m) ==> !valid_utf8(
                                total.subrange(0, m),
                            )) || forall|x: Seq<u8>| !valid_utf8(#[trigger] (total + x))))
                    },
                }
            }),
    {
        proof {
            use_type_invariant(&*self);
            lemma_extends_refl(src.produced());
        }
        assert(decode_utf8(Seq::<u8>::empty()) =~= Seq::<char>::empty());
        assert(old(text)@ + Seq::<char>::empty() =~= old(text)@);
        if self.fill_count == self.read_count {
            match self.feed(src) {
                Ok(got) => {
                    if !got {
                        assert(old(self)@.resident() + since(old(src).produced(), src.produced())
                            =~= Seq::<u8>::empty());
                        return Ok(0);
                    }
                },
                Err(e) => {
                    assert(old(self)@.resident() + since(old(src).produced(), src.produced())
                        =~= Seq::<u8>::empty());
                    return Err(e);
                },
            }
        } else {
            assert(old(self)@.resident() + since(old(src).produced(), src.produced()) =~= old(
                self,
            )@.resident());
        }
        let ghost mut used: Seq<u8> = Seq::empty();
        let mut count: usize = 0;
        assert(encode_utf8(old(text)@) + used =~= encode_utf8(old(text)@));
        loop
            invariant
                self.wf(),
                self@.resident().len() > 0,
                extends(old(src).produced(), src.produced()),
                src.content() == old(src).content(),
                old(self)@.resident() + since(old(src).produced(), src.produced()) == used
                    + self@.resident(),
                valid_utf8(used),
                lacks(used, 10u8),
                text@ == old(text)@ + decode_utf8(used),
                encode_utf8(text@) == encode_utf8(old(text)@) + used,
                count == used.len(),
            decreases usize::MAX - count, S - self@.resident().len(),
        {
            let ghost live = self@.resident();
            let read = self.read_count;
            let fill = self.fill_count;
            proof {
                lemma_valid_framed(used);
            }
            match self.find_byte(10u8, read, fill) {
                Some(i) => {
                    let ghost line = self@.storage.subrange(read as int, i + 1);
                    proof {
                        let total = used + live;
                        assert(live.subrange(0, i + 1 - read) =~= line);
                        assert(total.subrange(0, count + (i + 1 - read)) =~= used + line);
                        assert(total.subrange(0, count + (i - read)) =~= used
                            + self@.storage.subrange(read as int, i as int));
                        assert(is_run_end(total, 10u8, count + (i + 1 - read)));
                        lemma_valid_split(used, line);
                    }
                    match self.decode_run(text, i + 1, 0) {
                        None => {
                            proof {
                                let total = used + live;
                                assert(total.subrange(0, total.len() - live.len()) =~= used);
                                assert forall|m: int| #[trigger]
                                    is_run_end(total, 10u8, m) implies !valid_utf8(
                                    total.subrange(0, m),
                                ) by {
                                    lemma_run_end_unique(
                                        total,
                                        10u8,
                                        m,
                                        count + (i + 1 - read),
                                    );
                                }
                            }
                            return Err(BufError::InvalidData);
                        },
                        Some(n) => {
                            proof {
                                let total = used + live;
                                assert(line.subrange(0, n as int) =~= line);
                                assert(text@ =~= old(text)@ + decode_utf8(used + line));
                                assert(self@.resident() =~= live.subrange(
                                    i + 1 - read,
                                    live.len() as int,
                                ));
                                assert(total =~= (used + line) + self@.resident());
                                used = used + line;
                                assert(total.subrange(0, total.len() - self@.resident().len())
                                    =~= used);
                            }
                            assert(encode_utf8(text@) =~= encode_utf8(old(text)@) + used);
                            count = count + n;
                            return Ok(count);
                        },
                    }
                },
                None => {},
            }
            match self.decode_run(text, fill, 4) {
                None => {
                    proof {
                        lemma_valid_split(used, live);
                        assert(live =~= self@.storage.subrange(read as int, fill as int));
                        let total = used + live;
                        assert(total.subrange(0, total.len() - live.len()) =~= used);
                        crate::utf8::lemma_no_valid_extension(used, live);
                    }
                    return Err(BufError::InvalidData);
                },
                Some(n) => {
                    proof {
                        let piece = live.subrange(0, n as int);
                        lemma_valid_split(used, piece);
                        assert(text@ =~= old(text)@ + decode_utf8(used + piece));
                        assert(encode_utf8(text@) =~= encode_utf8(old(text)@) + (used + piece));
                        assert(live =~= piece + self@.resident());
                        assert(lacks(used + piece, 10u8));
                        used = used + piece;
                    }
                    count = count + n;
                },
            }
            let ghost mid = src.produced();
            let ghost kept = self@.resident();
            assert(old(self)@.resident() + since(old(src).produced(), mid) =~= used + kept);
            match self.feed(src) {
                Ok(got) => {
                    proof {
                        crate::stream::lemma_extends_trans(old(src).produced(), mid, src.produced());
                        let fresh = since(mid, src.produced());
                        assert(old(self)@.resident() + since(old(src).produced(), src.produced())
                            =~= (old(self)@.resident() + since(old(src).produced(), mid)) + fresh);
                        assert((used + kept) + fresh =~= used + (kept + fresh));
                    }
                    if !got {
                        let ghost tail = self@.resident();
                        assert(tail =~= kept);
                        let read = self.read_count;
                        let fill = self.fill_count;
                        proof {
                            lemma_valid_framed(used);
                            assert(tail =~= self@.storage.subrange(read as int, fill as int));
                        }
                        match self.decode_run(text, fill, 0) {
                            None => {
                                proof {
                                    lemma_valid_split(used, tail);
                                    let total = used + tail;
                                    assert(total.subrange(0, total.len() - tail.len()) =~= used);
                                    assert(lacks(total, 10u8));
                                    assert(is_run_end(total, 10u8, total.len() as int));
                                    assert(total.subrange(0, total.len() as int) =~= total);
                                    assert forall|m: int| #[trigger]
                                        is_run_end(total, 10u8, m) implies !valid_utf8(
                                        total.subrange(0, m),
                                    ) by {
                                        lemma_run_end_unique(total, 10u8, m, total.len() as int);
                                    }
                                }
                                return Err(BufError::InvalidData);
                            },
                            Some(n) => {
                                proof {
                                    assert(tail.subrange(0, n as int) =~= tail);
                                    lemma_valid_split(used, tail);
                                    assert(text@ =~= old(text)@ + decode_utf8(used + tail));
                                    assert(encode_utf8(text@) =~= encode_utf8(old(text)@) + (used
                                        + tail));
                                    used = used + tail;
                                }
                                count = count + n;
                                self.clear();
                                proof {
                                    let total = old(self)@.resident() + since(
                                        old(src).produced(),
                                        src.produced(),
                                    );
                                    assert(self@.resident() =~= Seq::<u8>::empty());
                                    assert(total =~= used);
                                    assert(total.subrange(0, total.len() as int) =~= total);
                                    assert(used + self@.resident() =~= used);
                                    assert(is_run_end(total, 10u8, total.len() as int));
                                }
                                return Ok(count);
                            },
                        }
                    }
                },
                Err(e) => {
                    proof {
                        lemma_extends_refl(mid);
                        assert(self@.resident() =~= kept);
                        let total = used + kept;
                        assert(total.subrange(0, total.len() - kept.len()) =~= used);
                    }
                    return Err(e);
                },
            }
        }
    }

    /// Pairs this buffer with `src` for as long as both borrows last.
    pub fn borrow<'a, T: ByteSource>(&'a mut self, src: &'a mut T) -> (r: BorrowedReadBuffer<
        'a,
        T,
        S,
    >)
        ensures
            r.buffer() == *old(self),
            r.source() == *old(src),
            r.produced() == Seq::<u8>::empty(),
    {
        BorrowedReadBuffer { buffer: self, source: src, handed: Ghost(Seq::empty()) }
    }
}

impl Default for UnownedReadBuffer<0x4000> {
    fn default() -> (r: Self)
        ensures
            r.wf(),
            r@.read_count == 0,
            r@.fill_count == 0,
    {
        UnownedReadBuffer {
            read_count: 0,
            fill_count: 0,
            buffer: vstd::array::array_fill_for_copy_types(0u8),
        }
    }
}

/// A read buffer paired with its source, usable wherever a plain source is expected.
pub struct BorrowedReadBuffer<'a, T: ByteSource, const S: usize> {
    buffer: &'a mut UnownedReadBuffer<S>,
    source: &'a mut T,
    handed: Ghost<Seq<u8>>,
}

impl<'a, T: ByteSource, const S: usize> BorrowedReadBuffer<'a, T, S> {
    /// The paired buffer.
    pub closed spec fn buffer(&self) -> UnownedReadBuffer<S> {
        *self.buffer
    }

    /// The paired source.
    pub closed spec fn source(&self) -> T {
        *self.source
    }

    /// Between `self` and `later` no byte was lost or made up: what was resident plus
    /// what the source handed out is what this pairing handed out plus what is resident.
    pub open spec fn conserved(&self, later: &Self) -> bool {
        &&& extends(self.produced(), later.produced())
        &&& extends(self.source().produced(), later.source().produced())
        &&& self.buffer()@.resident() + since(self.source().produced(), later.source().produced())
            == since(self.produced(), later.produced()) + later.buffer()@.resident()
    }

    /// The bytes resident in `self` followed by those the source handed out between
    /// `self` and `later`.
    pub open spec fn fetched(&self, later: &Self) -> Seq<u8> {
        self.buffer()@.resident() + since(self.source().produced(), later.source().produced())
    }

    /// Records that the underlying call handed out what it took from the buffer.
    proof fn lemma_record(old_self: &Self, new_self: &Self, out: Seq<u8>)
        requires
            new_self.handed@ == old_self.handed@ + out,
            extends(old_self.source().produced(), new_self.source().produced()),
            old_self.buffer()@.resident() + since(
                old_self.source().produced(),
                new_self.source().produced(),
            ) == out + new_self.buffer()@.resident(),
        ensures
            old_self.conserved(new_self),
            since(old_self.produced(), new_self.produced()) == out,
    {
        crate::stream::lemma_extends_refl(old_self.handed@);
        lemma_extends_append(old_self.handed@, old_self.handed@, out);
    }

    /// How many fetched bytes wait to be taken.
    pub fn available(&self) -> (r: usize)
        ensures
            r == self.buffer()@.resident().len(),
    {
        self.buffer.available()
    }

    /// See [`UnownedReadBuffer::read_exact`].
    pub fn read_exact(&mut self, out: &mut [u8]) -> (r: Result<(), BufError<T::Error>>)
        ensures
            old(self).conserved(&*final(self)),
            final(out)@.len() == old(out)@.len(),
            r is Ok ==> since(old(self).produced(), final(self).produced()) == final(out)@,
            r is Err ==> final(out)@ == since(old(self).produced(), final(self).produced())
                + old(out)@.subrange(
                since(old(self).produced(), final(self).produced()).len() as int,
                old(out)@.len() as int,
            ),
            r is Err ==> (r->Err_0 is Stream && final(self).source().failed()) || (r->Err_0 is UnexpectedEof
                && final(self).source().ended()),
            old(self).buffer()@.resident().len() >= old(out)@.len() ==> r is Ok
                && final(self).source() == old(self).source(),
    {
        let ghost before = *self;
        let r = self.buffer.read_exact(self.source, out);
        let ghost total = before.buffer()@.resident() + since(
            before.source().produced(),
            self.source().produced(),
        );
        let ghost got = total.subrange(0, total.len() - self.buffer()@.resident().len());
        proof {
            assert(total =~= got + self.buffer()@.resident());
            self.handed = Ghost(self.handed@ + got);
            Self::lemma_record(&before, &*self, got);
            if r is Ok {
                assert(got =~= out@);
            } else {
                assert(got =~= total);
            }
        }
        r
    }

    /// See [`UnownedReadBuffer::read_until`].
    pub fn read_until(&mut self, delim: u8, collector: &mut Vec<u8>) -> (r: Result<
        usize,
        BufError<T::Error>,
    >)
        ensures
            old(self).conserved(&*final(self)),
            final(collector)@ == old(collector)@ + since(old(self).produced(), final(self).produced()),
            r is Ok ==> r->Ok_0 == since(old(self).produced(), final(self).produced()).len()
                && is_run_end(old(self).fetched(&*final(self)), delim, r->Ok_0 as int),
            r is Err ==> r->Err_0 is Stream && final(self).source().failed(),
    {
        let ghost before = *self;
        let r = self.buffer.read_until(self.source, delim, collector);
        let ghost got = collector@.subrange(old(collector)@.len() as int, collector@.len() as int);
        proof {
            let total = before.buffer()@.resident() + since(
                before.source().produced(),
                self.source().produced(),
            );
            assert(collector@ =~= old(collector)@ + got);
            assert(total =~= got + self.buffer()@.resident());
            self.handed = Ghost(self.handed@ + got);
            Self::lemma_record(&before, &*self, got);
        }
        r
    }

    /// See [`UnownedReadBuffer::read_to_end`].
    pub fn read_to_end(&mut self, collector: &mut Vec<u8>) -> (r: Result<
        usize,
        BufError<T::Error>,
    >)
        ensures
            old(self).conserved(&*final(self)),
            final(collector)@ == old(collector)@ + since(old(self).produced(), final(self).produced()),
            r is Ok ==> r->Ok_0 == since(old(self).produced(), final(self).produced()).len()
                && final(self).source().ended(),
            final(self).buffer()@.resident().len() == 0,
            r is Err ==> r->Err_0 is Stream && final(self).source().failed(),
    {
        let ghost before = *self;
        let r = self.buffer.read_to_end(self.source, collector);
        let ghost got = collector@.subrange(old(collector)@.len() as int, collector@.len() as int);
        proof {
            let total = before.buffer()@.resident() + since(
                before.source().produced(),
                self.source().produced(),
            );
            assert(collector@ =~= old(collector)@ + got);
            assert(total =~= got + self.buffer()@.resident());
            self.handed = Ghost(self.handed@ + got);
            Self::lemma_record(&before, &*self, got);
        }
        r
    }

    /// See [`UnownedReadBuffer::read_to_string`].
    pub fn read_to_string(&mut self, text: &mut String) -> (r: Result<usize, BufError<T::Error>>)
        ensures
            old(self).conserved(&*final(self)),
            valid_utf8(since(old(self).produced(), final(self).produced())),
            final(text)@ == old(text)@ + decode_utf8(
                since(old(self).produced(), final(self).produced()),
            ),
            r is Ok ==> r->Ok_0 == since(old(self).produced(), final(self).produced()).len()
                && final(self).source().ended() && final(self).buffer()@.resident().len() == 0,
            r is Err ==> (r->Err_0 is Stream && final(self).source().failed()) || (r->Err_0 is InvalidData
                && final(self).buffer()@.resident().len() > 0 && ((final(self).source().ended()
                && !valid_utf8(old(self).fetched(&*final(self)))) || forall|x: Seq<u8>|
                !valid_utf8(#[trigger] (old(self).fetched(&*final(self)) + x)))),
    {
        let ghost before = *self;
        let r = self.buffer.read_to_string(self.source, text);
        let ghost total = before.buffer()@.resident() + since(
            before.source().produced(),
            self.source().produced(),
        );
        let ghost got = total.subrange(0, total.len() - self.buffer()@.resident().len());
        proof {
            self.handed = Ghost(self.handed@ + got);
            Self::lemma_record(&before, &*self, got);
        }
        r
    }

    /// See [`UnownedReadBuffer::read_line`].
    pub fn read_line(&mut self, text: &mut String) -> (r: Result<usize, BufError<T::Error>>)
        ensures
            old(self).conserved(&*final(self)),
            valid_utf8(since(old(self).produced(), final(self).produced())),
            final(text)@ == old(text)@ + decode_utf8(
                since(old(self).produced(), final(self).produced()),
            ),
            r is Ok ==> r->Ok_0 == since(old(self).produced(), final(self).produced()).len()
                && is_run_end(old(self).fetched(&*final(self)), 10u8, r->Ok_0 as int),
            r is Err ==> (r->Err_0 is Stream && final(self).source().failed()) || (r->Err_0 is InvalidData
                && final(self).buffer()@.resident().len() > 0),
    {
        let ghost before = *self;
        let r = self.buffer.read_line(self.source, text);
        let ghost total = before.buffer()@.resident() + since(
            before.source().produced(),
            self.source().produced(),
        );
        let ghost got = total.subrange(0, total.len() - self.buffer()@.resident().len());
        proof {
            self.handed = Ghost(self.handed@ + got);
            Self::lemma_record(&before, &*self, got);
        }
        r
    }

    /// See [`UnownedReadBuffer::fill_buf`]; nothing is handed out until `consume`.
    pub fn fill_buf(&mut self) -> (r: Result<&[u8], BufError<T::Error>>)
        ensures
            old(self).conserved(&*final(self)),
            final(self).produced() == old(self).produced(),
            r is Ok ==> r->Ok_0@ == final(self).buffer()@.resident() && (r->Ok_0@.len() == 0
                ==> final(self).source().ended()),
            r is Err ==> r->Err_0 is Stream && final(self).source().failed(),
    {
        proof {
            crate::stream::lemma_extends_refl(self.handed@);
            assert forall|x: Seq<u8>| #[trigger] (Seq::<u8>::empty() + x) == x by {
                assert(Seq::<u8>::empty() + x =~= x);
            }
        }
        self.buffer.fill_buf(self.source)
    }

    /// See [`UnownedReadBuffer::consume`]; the consumed bytes count as handed out.
    pub fn consume(&mut self, amount: usize)
        requires
            amount <= old(self).buffer()@.resident().len(),
        ensures
            old(self).conserved(&*final(self)),
            since(old(self).produced(), final(self).produced()) == old(self).buffer()@.resident().subrange(
                0,
                amount as int,
            ),
    {
        let ghost before = *self;
        let ghost got = self.buffer()@.resident().subrange(0, amount as int);
        self.buffer.consume(amount);
        proof {
            crate::stream::lemma_extends_refl(self.source().produced());
            assert(before.buffer()@.resident() + since(
                before.source().produced(),
                self.source().produced(),
            ) =~= got + self.buffer()@.resident());
            self.handed = Ghost(self.handed@ + got);
            Self::lemma_record(&before, &*self, got);
        }
    }
}

impl<'a, T: ByteSource, const S: usize> ByteSource for BorrowedReadBuffer<'a, T, S> {
    type Error = BufError<T::Error>;

    /// The bytes this pairing has handed out since it was made.
    closed spec fn produced(&self) -> Seq<u8> {
        self.handed@
    }

    open spec fn ended(&self) -> bool {
        self.source().ended()
    }

    /// The paired source failed.
    open spec fn failed(&self) -> bool {
        self.source().failed()
    }

    /// What the paired source is made of.
    open spec fn content(&self) -> Seq<u8> {
        self.source().content()
    }

    fn read(&mut self, buf: &mut [u8]) -> (r: Result<usize, BufError<T::Error>>)
        ensures
            old(self).buffer()@.resident().len() > 0 || old(buf)@.len() == 0 ==> r is Ok
                && final(self).source() == old(self).source(),
            r is Ok ==> r->Ok_0 == crate::read_buffer::spec_min(
                old(self).fetched(&*final(self)).len() as int,
                old(buf)@.len() as int,
            ),
            r is Err ==> r->Err_0 is Stream && final(self).source().failed(),
    {
        let r = self.buffer.read(self.source, buf);
        match r {
            Ok(n) => {
                self.handed = Ghost(self.handed@ + buf@.subrange(0, n as int));
            },
            Err(_) => {},
        }
        r
    }
}

} // verus!
