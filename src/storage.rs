//! Copying between the fixed byte arrays of the buffers and caller slices.
use vstd::prelude::*;

verus! {

/// Moves `buf[from..to]` to the front of `buf`; the bytes from `to - from` on keep their values.
pub fn shift_to_front<const S: usize>(buf: &mut [u8; S], from: usize, to: usize)
    requires
        from <= to <= S,
    ensures
        final(buf)@ == old(buf)@.subrange(from as int, to as int) + old(buf)@.subrange(
            (to - from) as int,
            S as int,
        ),
    no_unwind
{
    let len = to - from;
    let mut i: usize = 0;
    while i < len
        invariant
            from <= to <= S,
            len == to - from,
            i <= len,
            buf@.len() == S,
            forall|j: int| 0 <= j < i ==> buf@[j] == old(buf)@[from + j],
            forall|j: int| i <= j < S ==> buf@[j] == old(buf)@[j],
        decreases len - i,
    {
        buf[i] = buf[from + i];
        i = i + 1;
    }
    assert(buf@ =~= old(buf)@.subrange(from as int, to as int) + old(buf)@.subrange(
        len as int,
        S as int,
    ));
}

/// Copies `data[start..start + len]` into `buf[at..at + len]`.
pub fn copy_in<const S: usize>(buf: &mut [u8; S], at: usize, data: &[u8], start: usize, len: usize)
    requires
        at + len <= S,
        start + len <= data@.len(),
    ensures
        final(buf)@ == old(buf)@.subrange(0, at as int) + data@.subrange(
            start as int,
            start + len,
        ) + old(buf)@.subrange(at + len, S as int),
    no_unwind
{
    let mut i: usize = 0;
    while i < len
        invariant
            at + len <= S,
            start + len <= data.len(),
            i <= len,
            buf@.len() == S,
            forall|j: int| 0 <= j < at ==> buf@[j] == old(buf)@[j],
            forall|j: int| at <= j < at + i ==> buf@[j] == data@[start + (j - at)],
            forall|j: int| at + i <= j < S ==> buf@[j] == old(buf)@[j],
        decreases len - i,
    {
        buf[at + i] = data[start + i];
        i = i + 1;
    }
    assert(buf@ =~= old(buf)@.subrange(0, at as int) + data@.subrange(start as int, start + len)
        + old(buf)@.subrange(at + len, S as int));
}

/// Copies `buf[from..from + len]` into `out[at..at + len]`; the rest of `out` keeps its values.
pub fn copy_out<const S: usize>(out: &mut [u8], at: usize, buf: &[u8; S], from: usize, len: usize)
    requires
        from + len <= S,
        at + len <= old(out)@.len(),
    ensures
        final(out)@ == old(out)@.subrange(0, at as int) + buf@.subrange(from as int, from + len)
            + old(out)@.subrange(at + len, old(out)@.len() as int),
{
    let mut i: usize = 0;
    while i < len
        invariant
            from + len <= S,
            at + len <= out.len(),
            out@.len() == old(out)@.len(),
            i <= len,
            forall|j: int| 0 <= j < at ==> out@[j] == old(out)@[j],
            forall|j: int| at <= j < at + i ==> out@[j] == buf@[from + (j - at)],
            forall|j: int| at + i <= j < out@.len() ==> out@[j] == old(out)@[j],
        decreases len - i,
    {
        out[at + i] = buf[from + i];
        i = i + 1;
    }
    assert(out@ =~= old(out)@.subrange(0, at as int) + buf@.subrange(from as int, from + len)
        + old(out)@.subrange(at + len, old(out)@.len() as int));
}

} // verus!
