//! Properties that relate several calls of the buffer operations, stated over
//! the same models that the operations' contracts use.
use vstd::prelude::*;
use vstd::utf8::{decode_utf8, valid_utf8};

use crate::read_buffer::ReadState;
use crate::stream::{extends, lemma_extends_refl, lemma_extends_trans, since, ByteSource, MemorySource};
use crate::utf8::{lemma_valid_framed, lemma_valid_split};

verus! {

/// The byte runs of `parts`, one after the other.
pub open spec fn joined(parts: Seq<Seq<u8>>) -> Seq<u8>
    decreases parts.len(),
{
    if parts.len() == 0 {
        Seq::empty()
    } else {
        joined(parts.drop_last()) + parts.last()
    }
}

/// The texts that the byte runs of `parts` encode, one after the other.
pub open spec fn joined_text(parts: Seq<Seq<u8>>) -> Seq<char>
    decreases parts.len(),
{
    if parts.len() == 0 {
        Seq::empty()
    } else {
        joined_text(parts.drop_last()) + decode_utf8(parts.last())
    }
}

/// One read step: what was resident plus what the source added is what the step
/// handed out plus what stays resident.
pub open spec fn read_step(res: Seq<Seq<u8>>, hist: Seq<Seq<u8>>, outs: Seq<Seq<u8>>, i: int) -> bool {
    &&& extends(hist[i], hist[i + 1])
    &&& res[i] + since(hist[i], hist[i + 1]) == outs[i] + res[i + 1]
}

/// One write step: what was pending plus what the step took is what the sink
/// accepted plus what stays pending.
pub open spec fn write_step(pend: Seq<Seq<u8>>, acc: Seq<Seq<u8>>, ins: Seq<Seq<u8>>, i: int) -> bool {
    &&& extends(acc[i], acc[i + 1])
    &&& pend[i] + ins[i] == since(acc[i], acc[i + 1]) + pend[i + 1]
}

/// Compacting twice is compacting once, and afterwards the read cursor is 0.
pub proof fn law_compact_idempotent(v: ReadState)
    requires
        v.wf(),
    ensures
        v.compacted().compacted() == v.compacted(),
        v.compacted().read_count == 0,
{
    v.lemma_compacted();
}

/// Over any run of read calls (`read`, `read_exact`, `read_until`, `read_line`, ...),
/// each of which hands out the bytes it took in order, nothing is lost or repeated:
/// the bytes handed out, one call after another, are the bytes resident at the start
/// and every byte the source produced, less those still resident at the end.
pub proof fn law_read_conservation(res: Seq<Seq<u8>>, hist: Seq<Seq<u8>>, outs: Seq<Seq<u8>>)
    requires
        res.len() == outs.len() + 1,
        hist.len() == outs.len() + 1,
        forall|i: int| 0 <= i < outs.len() ==> #[trigger] read_step(res, hist, outs, i),
    ensures
        extends(hist[0], hist.last()),
        res[0] + since(hist[0], hist.last()) == joined(outs) + res.last(),
    decreases outs.len(),
{
    if outs.len() == 0 {
        lemma_extends_refl(hist[0]);
        assert(res[0] + since(hist[0], hist[0]) =~= joined(outs) + res[0]);
    } else {
        let k = outs.len() - 1;
        let r2 = res.drop_last();
        let h2 = hist.drop_last();
        let o2 = outs.drop_last();
        assert forall|i: int| 0 <= i < o2.len() implies #[trigger] read_step(r2, h2, o2, i) by {
            assert(read_step(res, hist, outs, i));
        }
        law_read_conservation(r2, h2, o2);
        assert(read_step(res, hist, outs, k));
        lemma_extends_trans(hist[0], hist[k], hist[k + 1]);
        assert(res[0] + since(hist[0], hist.last()) =~= (res[0] + since(hist[0], hist[k])) + since(
            hist[k],
            hist[k + 1],
        ));
        assert((joined(o2) + res[k]) + since(hist[k], hist[k + 1]) =~= joined(o2) + (res[k]
            + since(hist[k], hist[k + 1])));
        assert(joined(o2) + (outs[k] + res[k + 1]) =~= joined(outs) + res.last());
    }
}

/// Round trip: reading a fresh source through an empty buffer until it ends and the
/// buffer is empty hands out every byte the source was made with, in order, exactly
/// once; reading leaves those bytes as they were.
pub proof fn law_read_round_trip(
    res: Seq<Seq<u8>>,
    hist: Seq<Seq<u8>>,
    outs: Seq<Seq<u8>>,
    first: MemorySource,
    last: MemorySource,
)
    requires
        last.content() == first.content(),
        res.len() == outs.len() + 1,
        hist.len() == outs.len() + 1,
        forall|i: int| 0 <= i < outs.len() ==> #[trigger] read_step(res, hist, outs, i),
        res[0].len() == 0,
        hist[0].len() == 0,
        res.last().len() == 0,
        hist.last() == last.produced(),
        last.ended(),
    ensures
        joined(outs) == first.data(),
        last.data() == first.data(),
{
    law_read_conservation(res, hist, outs);
    last.lemma_split();
    assert(res[0] + since(hist[0], hist.last()) =~= last.produced());
    assert(joined(outs) + res.last() =~= joined(outs));
    assert(last.produced() + last.remaining() =~= last.produced());
}

/// Valid runs decoded one after another give the text of all of them together.
pub proof fn law_text_concatenation(parts: Seq<Seq<u8>>)
    requires
        forall|i: int| 0 <= i < parts.len() ==> valid_utf8(#[trigger] parts[i]),
    ensures
        valid_utf8(joined(parts)),
        decode_utf8(joined(parts)) == joined_text(parts),
    decreases parts.len(),
{
    if parts.len() == 0 {
        assert(decode_utf8(Seq::<u8>::empty()) =~= Seq::<char>::empty());
    } else {
        let front = parts.drop_last();
        assert forall|i: int| 0 <= i < front.len() implies valid_utf8(#[trigger] front[i]) by {
            assert(front[i] == parts[i]);
        }
        law_text_concatenation(front);
        assert(valid_utf8(parts[parts.len() - 1]));
        lemma_valid_framed(joined(front));
        lemma_valid_split(joined(front), parts.last());
    }
}

/// Over any run of write calls (`write`, `write_all`, `flush`), each of which keeps
/// the bytes it was given in order, the sink accepts exactly the bytes that were pending
/// at the start and every byte given, less those still pending at the end.
pub proof fn law_write_conservation(pend: Seq<Seq<u8>>, acc: Seq<Seq<u8>>, ins: Seq<Seq<u8>>)
    requires
        pend.len() == ins.len() + 1,
        acc.len() == ins.len() + 1,
        forall|i: int| 0 <= i < ins.len() ==> #[trigger] write_step(pend, acc, ins, i),
    ensures
        extends(acc[0], acc.last()),
        pend[0] + joined(ins) == since(acc[0], acc.last()) + pend.last(),
    decreases ins.len(),
{
    if ins.len() == 0 {
        lemma_extends_refl(acc[0]);
        assert(pend[0] + joined(ins) =~= since(acc[0], acc[0]) + pend[0]);
    } else {
        let k = ins.len() - 1;
        let p2 = pend.drop_last();
        let a2 = acc.drop_last();
        let i2 = ins.drop_last();
        assert forall|i: int| 0 <= i < i2.len() implies #[trigger] write_step(p2, a2, i2, i) by {
            assert(write_step(pend, acc, ins, i));
        }
        law_write_conservation(p2, a2, i2);
        assert(write_step(pend, acc, ins, k));
        lemma_extends_trans(acc[0], acc[k], acc[k + 1]);
        assert(pend[0] + joined(ins) =~= (pend[0] + joined(i2)) + ins[k]);
        assert((since(acc[0], acc[k]) + pend[k]) + ins[k] =~= since(acc[0], acc[k]) + (pend[k]
            + ins[k]));
        assert(since(acc[0], acc[k]) + (since(acc[k], acc[k + 1]) + pend[k + 1]) =~= since(
            acc[0],
            acc.last(),
        ) + pend.last());
    }
}

/// After a push that failed part way, a later flush that succeeds hands the sink the
/// rest: over both calls the sink accepts every byte that was pending, in order.
pub proof fn law_flush_retry(
    pending0: Seq<u8>,
    pending1: Seq<u8>,
    acc0: Seq<u8>,
    acc1: Seq<u8>,
    acc2: Seq<u8>,
)
    requires
        extends(acc0, acc1),
        pending0 == since(acc0, acc1) + pending1,
        extends(acc1, acc2),
        pending1 == since(acc1, acc2),
    ensures
        extends(acc0, acc2),
        since(acc0, acc2) == pending0,
{
    lemma_extends_trans(acc0, acc1, acc2);
}

} // verus!
