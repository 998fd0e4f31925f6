use vstd::prelude::*;
use crate::reader::{mark_step, read_source_step, read_step, reset_step, ReaderView};

verus! {

/// The valid bytes of a well-formed state are the part of the stream after
/// the cursor.
pub proof fn lemma_pending_is_stream_tail(v: ReaderView)
    requires
        v.inv(),
    ensures
        0 <= v.position() <= v.stream.len(),
        v.pending() == v.stream.subrange(v.position(), v.stream.len() as int),
{
    assert(v.pending() =~= v.data.subrange(0, v.cap as int).subrange(v.pos as int, v.cap as int));
    assert(v.stream.subrange(v.position(), v.stream.len() as int) =~= v.stream.subrange(
        v.stream.len() - v.cap,
        v.stream.len() as int,
    ).subrange(v.pos as int, v.cap as int));
}

/// Two reads in a row hand out consecutive bytes of the stream that the
/// source delivered, with nothing lost or repeated in between.
pub proof fn lemma_reads_concatenate(
    v0: ReaderView,
    v1: ReaderView,
    v2: ReaderView,
    before1: Seq<u8>,
    after1: Seq<u8>,
    n1: nat,
    before2: Seq<u8>,
    after2: Seq<u8>,
    n2: nat,
)
    requires
        v0.inv(),
        v1.inv(),
        v2.inv(),
        read_step(v0, v1, before1, after1, n1),
        read_step(v1, v2, before2, after2, n2),
    ensures
        after1.subrange(0, n1 as int) + after2.subrange(0, n2 as int) == v2.stream.subrange(
            v0.position(),
            v0.position() + n1 + n2,
        ),
        v2.position() == v0.position() + n1 + n2,
{
    lemma_pending_is_stream_tail(v1);
    lemma_pending_is_stream_tail(v2);
    let p = v0.position();
    assert(after1.subrange(0, n1 as int) =~= v1.stream.subrange(p, p + n1));
    assert(after2.subrange(0, n2 as int) =~= v2.stream.subrange(p + n1, p + n1 + n2));
    assert(v1.stream.subrange(p, p + n1) =~= v2.stream.subrange(p, p + n1));
    assert(v2.stream.subrange(p, p + n1 + n2) =~= v2.stream.subrange(p, p + n1) + v2.stream.subrange(
        p + n1,
        p + n1 + n2,
    ));
}

/// Reading from a byte slice reproduces it. Where the bytes the reader has
/// taken from the slice, followed by what the slice still holds, make up
/// `content` (as for a new reader over `content`), a read hands out the
/// bytes of `content` that follow the cursor, as many as asked for or as
/// remain (0 once all are consumed), leaves the rest of the target as it
/// was, and keeps the same relation for the next read.
pub proof fn lemma_slice_read_reproduces(
    v: ReaderView,
    w: ReaderView,
    pre: &[u8],
    post: &[u8],
    content: Seq<u8>,
    before: Seq<u8>,
    after: Seq<u8>,
    n: nat,
)
    requires
        v.inv(),
        w.inv(),
        read_step(v, w, before, after, n),
        read_source_step(v, w, pre, post, before.len()),
        v.stream + pre@ == content,
    ensures
        w.stream + post@ == content,
        0 <= v.position() <= content.len(),
        n == if before.len() <= content.len() - v.position() {
            before.len() as int
        } else {
            content.len() - v.position()
        },
        after == content.subrange(v.position(), v.position() + n) + before.subrange(
            n as int,
            before.len() as int,
        ),
{
    lemma_pending_is_stream_tail(v);
    lemma_pending_is_stream_tail(w);
    let p = v.position();
    let added = w.stream.subrange(v.stream.len() as int, w.stream.len() as int);
    assert(w.stream =~= v.stream + added);
    if before.len() <= v.pending().len() {
        assert(post == pre);
        assert(w.stream + post@ =~= content);
    } else {
        assert(<&[u8] as crate::source::ByteSource>::fills(
            pre,
            post,
            (w.capacity() - v.pending().len()) as nat,
            added,
        ));
        assert(w.stream + post@ =~= v.stream + pre@);
    }
    assert(w.stream.subrange(p, p + n) =~= content.subrange(p, p + n));
}

/// After `mark(limit)`, a read served from the buffer that consumes no more
/// than `limit` bytes, and `reset`, the cursor and the buffered bytes are as
/// right after the mark, and a read of the same length hands out the same
/// bytes again.
pub proof fn lemma_mark_reset_round_trip(
    v0: ReaderView,
    v1: ReaderView,
    v2: ReaderView,
    v3: ReaderView,
    v4: ReaderView,
    limit: nat,
    before: Seq<u8>,
    after: Seq<u8>,
    n: nat,
    before_again: Seq<u8>,
    after_again: Seq<u8>,
    n_again: nat,
)
    requires
        v0.inv(),
        v1.inv(),
        v2.inv(),
        v3.inv(),
        v4.inv(),
        mark_step(v0, v1, limit, true),
        read_step(v1, v2, before, after, n),
        before.len() <= v1.pending().len(),
        n <= limit,
        reset_step(v2, v3),
        read_step(v3, v4, before_again, after_again, n_again),
        before_again.len() == before.len(),
    ensures
        v3.position() == v1.position(),
        v3.stream == v1.stream,
        v3.pending() == v1.pending(),
        v3.mark_position() == v1.mark_position(),
        n_again == n,
        after_again.subrange(0, n as int) == after.subrange(0, n as int),
{
    lemma_pending_is_stream_tail(v1);
    lemma_pending_is_stream_tail(v2);
    lemma_pending_is_stream_tail(v3);
    lemma_pending_is_stream_tail(v4);
    let p = v1.position();
    assert(after.subrange(0, n as int) =~= v2.stream.subrange(p, p + n));
    assert(after_again.subrange(0, n_again as int) =~= v4.stream.subrange(p, p + n_again));
    assert(v3.stream.subrange(p, p + n) =~= v4.stream.subrange(p, p + n));
}

/// After `mark(limit)`, a read that consumes more than `limit` bytes leaves
/// nothing to return to: `reset` then leaves the cursor where it is.
pub proof fn lemma_mark_invalidation(
    v0: ReaderView,
    v1: ReaderView,
    v2: ReaderView,
    v3: ReaderView,
    limit: nat,
    before: Seq<u8>,
    after: Seq<u8>,
    n: nat,
)
    requires
        v0.inv(),
        v1.inv(),
        v2.inv(),
        mark_step(v0, v1, limit, true),
        read_step(v1, v2, before, after, n),
        n > limit,
        reset_step(v2, v3),
    ensures
        v2.mark is None,
        v3.position() == v2.position(),
{
}

/// In every well-formed state a set mark lies at most `ahead` bytes behind
/// the cursor: once more than the declared limit has been consumed past a
/// mark, it is gone, and `reset` leaves the cursor where it is.
pub proof fn lemma_mark_within_limit(v: ReaderView, w: ReaderView)
    requires
        v.inv(),
        reset_step(v, w),
    ensures
        v.mark_position() matches Some(m) ==> 0 <= v.position() - m <= v.ahead,
        v.mark_position() is None ==> w.position() == v.position(),
{
}

/// Growing the buffer for a mark keeps the bytes that were buffered: they
/// still come first, at the cursor, and the buffer can hold `limit` bytes.
pub proof fn lemma_mark_growth_preserves_data(v0: ReaderView, v1: ReaderView, limit: nat, ok: bool)
    requires
        v0.inv(),
        v1.inv(),
        mark_step(v0, v1, limit, ok),
    ensures
        v1.capacity() >= limit,
        v0.pending().len() <= v1.pending().len(),
        v1.pending().subrange(0, v0.pending().len() as int) == v0.pending(),
{
    lemma_pending_is_stream_tail(v0);
    lemma_pending_is_stream_tail(v1);
    let p = v0.position();
    assert(v1.pending().subrange(0, v0.pending().len() as int) =~= v1.stream.subrange(p, v0.stream.len() as int));
    assert(v0.pending() =~= v1.stream.subrange(p, v0.stream.len() as int));
}

/// Growing the buffer for a read keeps the bytes that were buffered: the
/// read hands them out first.
pub proof fn lemma_read_growth_preserves_data(
    v0: ReaderView,
    v1: ReaderView,
    before: Seq<u8>,
    after: Seq<u8>,
    n: nat,
)
    requires
        v0.inv(),
        v1.inv(),
        read_step(v0, v1, before, after, n),
    ensures
        v1.capacity() >= before.len(),
        n >= if before.len() <= v0.pending().len() {
            before.len()
        } else {
            v0.pending().len()
        },
        after.subrange(0, n as int) == v1.stream.subrange(v0.position(), v0.position() + n),
        n <= v0.pending().len() ==> after.subrange(0, n as int) == v0.pending().subrange(0, n as int),
        n > v0.pending().len() ==> after.subrange(0, v0.pending().len() as int) == v0.pending(),
{
    lemma_pending_is_stream_tail(v0);
    lemma_pending_is_stream_tail(v1);
    let p = v0.position();
    assert(after.subrange(0, n as int) =~= v1.stream.subrange(p, p + n));
    if n <= v0.pending().len() {
        assert(v0.pending().subrange(0, n as int) =~= v1.stream.subrange(p, p + n));
    } else {
        assert(after.subrange(0, v0.pending().len() as int) =~= v1.stream.subrange(p, v0.stream.len() as int));
        assert(v0.pending() =~= v1.stream.subrange(p, v0.stream.len() as int));
    }
}

} // verus!
