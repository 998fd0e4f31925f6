use vstd::prelude::*;
use crate::laws::lemma_pending_is_stream_tail;
use crate::source::ByteSource;

verus! {

/// Capacity of the buffer made by `BufferedReader::new`.
pub const DEFAULT_BUF_SIZE: usize = 8196;

/// The abstract state of a `BufferedReader`.
pub struct ReaderView {
    /// Contents of the whole buffer.
    pub data: Seq<u8>,
    /// Index of the first unconsumed byte in `data`.
    pub pos: nat,
    /// One past the last valid byte in `data`.
    pub cap: nat,
    /// Buffer index of the mark, if one is set.
    pub mark: Option<nat>,
    /// Read limit declared by the latest mark.
    pub ahead: nat,
    /// Every byte the source has delivered so far, in order.
    pub stream: Seq<u8>,
}

impl ReaderView {
    /// Length of the buffer.
    pub open spec fn capacity(self) -> nat {
        self.data.len()
    }

    /// The valid, unconsumed bytes.
    pub open spec fn pending(self) -> Seq<u8> {
        self.data.subrange(self.pos as int, self.cap as int)
    }

    /// How many bytes of `stream` have been consumed.
    pub open spec fn position(self) -> int {
        self.stream.len() - self.cap + self.pos
    }

    /// Stream position of the mark, if one is set.
    pub open spec fn mark_position(self) -> Option<int> {
        match self.mark {
            Some(m) => Some(self.stream.len() - self.cap + m),
            None => None,
        }
    }

    /// The bounds `pos <= cap <= capacity`, valid bytes that are the tail of
    /// what the source delivered, and a mark no later than the cursor and
    /// at most `ahead` bytes behind it.
    pub open spec fn inv(self) -> bool {
        &&& self.pos <= self.cap <= self.data.len()
        &&& self.cap <= self.stream.len()
        &&& self.data.subrange(0, self.cap as int) == self.stream.subrange(
            self.stream.len() - self.cap,
            self.stream.len() as int,
        )
        &&& match self.mark {
            Some(m) => m <= self.pos && self.pos - m <= self.ahead,
            None => true,
        }
    }
}

/// Where a set mark stands once the cursor is at `position`: it stays while
/// no more than `ahead` bytes lie between it and the cursor.
pub open spec fn mark_after_consume(mark: Option<int>, position: int, ahead: nat) -> Option<int> {
    match mark {
        Some(m) => if position - m <= ahead {
            Some(m)
        } else {
            None
        },
        None => None,
    }
}

/// How a read into a target that held `before` and then holds `after`,
/// returning `n`, takes the reader from `v` to `w`.
pub open spec fn read_step(v: ReaderView, w: ReaderView, before: Seq<u8>, after: Seq<u8>, n: nat) -> bool {
    let want = before.len();
    &&& v.stream.is_prefix_of(w.stream)
    &&& n == if want <= w.stream.len() - v.position() {
        want as int
    } else {
        w.stream.len() - v.position()
    }
    &&& after == w.stream.subrange(v.position(), v.position() + n) + before.subrange(n as int, want as int)
    &&& w.position() == v.position() + n
    &&& w.capacity() == if want <= v.capacity() {
        v.capacity()
    } else {
        want
    }
    &&& w.ahead == v.ahead
    &&& if want <= v.pending().len() {
        &&& w.stream == v.stream
        &&& w.mark_position() == mark_after_consume(v.mark_position(), w.position(), v.ahead)
    } else {
        w.mark is None
    }
}

/// How `mark(limit)` takes the reader from `v` to `w`; `ok` tells whether it
/// succeeded.
pub open spec fn mark_step(v: ReaderView, w: ReaderView, limit: nat, ok: bool) -> bool {
    &&& v.stream.is_prefix_of(w.stream)
    &&& w.position() == v.position()
    &&& w.capacity() == if limit <= v.capacity() {
        v.capacity()
    } else {
        limit
    }
    &&& (limit <= v.pending().len() ==> ok && w.stream == v.stream)
    &&& if ok {
        &&& w.mark_position() == Some(v.position())
        &&& w.ahead == limit
    } else {
        &&& w.mark is None
        &&& w.stream == v.stream
        &&& w.ahead == v.ahead
    }
}

/// How `reset` takes the reader from `v` to `w`: the cursor goes back to the
/// mark if one is set, and nothing else changes.
pub open spec fn reset_step(v: ReaderView, w: ReaderView) -> bool {
    &&& w == (ReaderView { pos: w.pos, ..v })
    &&& w.position() == match v.mark_position() {
        Some(m) => m,
        None => v.position(),
    }
}

/// What one refill that offered the source `room` bytes of space did to it:
/// either the source wrote `added`, or it failed and nothing was added.
pub open spec fn refill_step<R: ByteSource>(pre: R, post: R, room: nat, added: Seq<u8>) -> bool {
    ||| R::fills(pre, post, room, added)
    ||| added.len() == 0 && exists|e: std::io::Error| #[trigger] R::fails(pre, post, room, e)
}

/// What a read of `want` bytes, taking the reader from `v` to `w`, did to
/// its source: nothing when the buffered bytes were enough, else one refill
/// offered the free room of the grown buffer, whose bytes the stream gained.
pub open spec fn read_source_step<R: ByteSource>(v: ReaderView, w: ReaderView, pre: R, post: R, want: nat) -> bool {
    if want <= v.pending().len() {
        post == pre
    } else {
        refill_step(
            pre,
            post,
            (w.capacity() - v.pending().len()) as nat,
            w.stream.subrange(v.stream.len() as int, w.stream.len() as int),
        )
    }
}

/// Rewinding within a declared read limit.
pub trait MarkRead {
    /// The reader's own well-formedness.
    spec fn inv(&self) -> bool;

    /// Makes the current position one that `reset` can return to while at
    /// most `read_limit` further bytes have been consumed.
    fn mark(&mut self, read_limit: usize) -> (r: Result<(), std::io::Error>)
        requires
            old(self).inv(),
        ensures
            final(self).inv(),
    ;

    /// Returns to the mark, if one is still set.
    fn reset(&mut self) -> (r: Result<(), std::io::Error>)
        requires
            old(self).inv(),
        ensures
            final(self).inv(),
    ;
}

/// A reader that buffers the bytes of an inner source.
pub struct BufferedReader<R> {
    inner: R,
    buf: Vec<u8>,
    pos: usize,
    cap: usize,
    mark: Option<usize>,
    ahead: usize,
    stream: Ghost<Seq<u8>>,
}

impl<R> View for BufferedReader<R> {
    type V = ReaderView;

    closed spec fn view(&self) -> ReaderView {
        ReaderView {
            data: self.buf@,
            pos: self.pos as nat,
            cap: self.cap as nat,
            mark: match self.mark {
                Some(m) => Some(m as nat),
                None => None,
            },
            ahead: self.ahead as nat,
            stream: self.stream@,
        }
    }
}

impl<R> BufferedReader<R> {
    /// Every reader that the constructors make is well formed, and every
    /// operation keeps it so.
    pub open spec fn wf(&self) -> bool {
        self@.inv()
    }

    /// A reader over `inner` with a zeroed buffer of `capacity` bytes.
    pub fn with_capacity(capacity: usize, inner: R) -> (r: BufferedReader<R>)
        ensures
            r.wf(),
            r.source() == inner,
            r@ == (ReaderView {
                data: Seq::new(capacity as nat, |i: int| 0u8),
                pos: 0,
                cap: 0,
                mark: None,
                ahead: 0,
                stream: Seq::empty(),
            }),
    {
        let mut buf: Vec<u8> = Vec::new();
        while buf.len() < capacity
            invariant
                buf@.len() <= capacity,
                forall|i: int| 0 <= i < buf@.len() ==> buf@[i] == 0u8,
            decreases capacity - buf@.len(),
        {
            buf.push(0u8);
        }
        let r = BufferedReader { inner, buf, pos: 0, cap: 0, mark: None, ahead: 0, stream: Ghost(Seq::empty()) };
        assert(r@.data =~= Seq::new(capacity as nat, |i: int| 0u8));
        assert(r@.data.subrange(0, 0) =~= r@.stream.subrange(0, 0));
        r
    }

    /// A reader over `inner` with a buffer of `DEFAULT_BUF_SIZE` bytes.
    pub fn new(inner: R) -> (r: BufferedReader<R>)
        ensures
            r.wf(),
            r.source() == inner,
            r@ == (ReaderView {
                data: Seq::new(DEFAULT_BUF_SIZE as nat, |i: int| 0u8),
                pos: 0,
                cap: 0,
                mark: None,
                ahead: 0,
                stream: Seq::empty(),
            }),
    {
        BufferedReader::with_capacity(DEFAULT_BUF_SIZE, inner)
    }

    /// The valid, unconsumed bytes.
    pub fn buffer(&self) -> (r: &[u8])
        requires
            self.wf(),
        ensures
            r@ == self@.pending(),
    {
        &self.buf.as_slice()[self.pos..self.cap]
    }

    /// The source that the reader takes its bytes from.
    pub closed spec fn source(&self) -> R {
        self.inner
    }

    /// The source that the reader takes its bytes from.
    pub fn get_ref(&self) -> (r: &R)
        ensures
            *r == self.source(),
    {
        &self.inner
    }

    /// Length of the buffer.
    pub fn capacity(&self) -> (r: usize)
        ensures
            r == self@.capacity(),
    {
        self.buf.len()
    }

    /// Grows the buffer to `new_length` bytes: the old bytes keep their
    /// indices and the new ones are zero.
    fn resize_buf(&mut self, new_length: usize)
        requires
            old(self).wf(),
            old(self).buf@.len() <= new_length,
        ensures
            final(self).wf(),
            final(self).source() == old(self).source(),
            final(self)@ == (ReaderView { data: final(self)@.data, ..old(self)@ }),
            final(self)@.data == old(self)@.data + Seq::new(
                (new_length - old(self)@.data.len()) as nat,
                |i: int| 0u8,
            ),
    {
        let ghost old_data = self.buf@;
        let ghost v0 = self@;
        let ghost src0 = self.inner;
        while self.buf.len() < new_length
            invariant
                self.inner == src0,
                v0.inv(),
                v0.data == old_data,
                self@ == (ReaderView { data: self@.data, ..v0 }),
                old_data.len() <= self.buf@.len() <= new_length,
                self.buf@.subrange(0, old_data.len() as int) == old_data,
                forall|i: int| old_data.len() <= i < self.buf@.len() ==> self.buf@[i] == 0u8,
            decreases new_length - self.buf@.len(),
        {
            self.buf.push(0u8);
        }
        assert(self.buf@ =~= old_data + Seq::new((new_length - old_data.len()) as nat, |i: int| 0u8));
        assert(self.buf@.subrange(0, self.cap as int) =~= old_data.subrange(0, self.cap as int));
    }

    /// Advances the cursor by `amt` bytes, no further than the valid data,
    /// and drops the mark once the cursor has gone past its read limit.
    pub fn consume(&mut self, amt: usize)
        requires
            old(self).wf(),
        ensures
            final(self).wf(),
            final(self).source() == old(self).source(),
            final(self)@.stream == old(self)@.stream,
            final(self)@.data == old(self)@.data,
            final(self)@.cap == old(self)@.cap,
            final(self)@.ahead == old(self)@.ahead,
            final(self)@.position() == old(self)@.position() + if amt <= old(self)@.pending().len() {
                amt as int
            } else {
                old(self)@.pending().len() as int
            },
            final(self)@.mark_position() == mark_after_consume(
                old(self)@.mark_position(),
                final(self)@.position(),
                old(self)@.ahead,
            ),
    {
        let avail = self.cap - self.pos;
        let step = if amt <= avail {
            amt
        } else {
            avail
        };
        self.pos = self.pos + step;
        match self.mark {
            Some(m) => {
                if self.pos - m > self.ahead {
                    self.mark = None;
                }
            },
            None => {},
        }
    }

    /// Moves the valid bytes `buf[pos..cap]` to the front of the buffer.
    /// Copying upward from index 0 is safe although the two regions may
    /// overlap: each byte is read before any write reaches its index.
    fn shift_to_front(&mut self)
        requires
            old(self).wf(),
        ensures
            final(self).wf(),
            final(self).source() == old(self).source(),
            final(self)@.pos == 0,
            final(self)@.cap == old(self)@.cap - old(self)@.pos,
            final(self)@.mark is None,
            final(self)@.ahead == old(self)@.ahead,
            final(self)@.stream == old(self)@.stream,
            final(self)@.data.len() == old(self)@.data.len(),
            final(self)@.pending() == old(self)@.pending(),
    {
        let ghost old_data = self.buf@;
        let ghost v0 = self@;
        let ghost src0 = self.inner;
        let len = self.cap - self.pos;
        let mut i: usize = 0;
        while i < len
            invariant
                self.inner == src0,
                v0.inv(),
                v0.data == old_data,
                self@ == (ReaderView { data: self@.data, ..v0 }),
                self.pos + len == self.cap,
                self.cap <= old_data.len(),
                i <= len,
                self.buf@.len() == old_data.len(),
                forall|j: int| 0 <= j < i ==> self.buf@[j] == old_data[self.pos + j],
                forall|j: int| i <= j < old_data.len() ==> self.buf@[j] == old_data[j],
            decreases len - i,
        {
            let b = self.buf[self.pos + i];
            self.buf[i] = b;
            i = i + 1;
        }
        let ghost s = self.stream@;
        assert(self.buf@.subrange(0, len as int) =~= old_data.subrange(self.pos as int, self.cap as int));
        assert(old_data.subrange(self.pos as int, self.cap as int) =~= old_data.subrange(0, self.cap as int).subrange(
            self.pos as int,
            self.cap as int,
        ));
        assert(s.subrange(s.len() - len, s.len() as int) =~= s.subrange(s.len() - self.cap, s.len() as int).subrange(
            self.pos as int,
            self.cap as int,
        ));
        self.pos = 0;
        self.cap = len;
        self.mark = None;
    }
}

impl<R: ByteSource> BufferedReader<R> {
    /// Refills the buffer: the valid bytes move to the front and the source
    /// is asked for bytes to fill the room after them. Any mark is dropped.
    pub fn fill_buf(&mut self) -> (r: Result<&[u8], std::io::Error>)
        requires
            old(self).wf(),
        ensures
            final(self).wf(),
            final(self)@.pos == 0,
            final(self)@.mark is None,
            final(self)@.ahead == old(self)@.ahead,
            final(self)@.capacity() == old(self)@.capacity(),
            final(self)@.position() == old(self)@.position(),
            old(self)@.stream.is_prefix_of(final(self)@.stream),
            final(self)@.stream.len() - old(self)@.stream.len() <= old(self)@.capacity() - old(self)@.pending().len(),
            match r {
                Ok(b) => {
                    &&& b@ == final(self)@.pending()
                    &&& R::fills(
                        old(self).source(),
                        final(self).source(),
                        (old(self)@.capacity() - old(self)@.pending().len()) as nat,
                        final(self)@.stream.subrange(
                            old(self)@.stream.len() as int,
                            final(self)@.stream.len() as int,
                        ),
                    )
                },
                Err(e) => {
                    &&& final(self)@.stream == old(self)@.stream
                    &&& R::fails(
                        old(self).source(),
                        final(self).source(),
                        (old(self)@.capacity() - old(self)@.pending().len()) as nat,
                        e,
                    )
                },
            },
    {
        self.shift_to_front();
        let start = self.cap;
        let ghost v1 = self@;
        let blen = self.buf.len();
        let (_, room) = self.buf.as_mut_slice().split_at_mut(start);
        let ghost room0 = room@;
        assert(room0 =~= v1.data.subrange(start as int, v1.data.len() as int));
        let res = self.inner.fill(room);
        let ghost out = room@;
        match res {
            Err(e) => {
                assert(self.buf@.subrange(0, start as int) =~= v1.data.subrange(0, start as int));
                return Err(e);
            },
            Ok(n) => {
                assert(start + n <= blen);
                let ghost s0 = self.stream@;
                let ghost fresh = self.buf@.subrange(start as int, start + n);
                assert(fresh =~= out.subrange(0, n as int));
                self.stream = Ghost(s0 + fresh);
                self.cap = start + n;
                let ghost s1 = self.stream@;
                assert(s1.subrange(s0.len() as int, s1.len() as int) =~= fresh);
                assert(self.buf@.subrange(0, start as int) =~= v1.data.subrange(0, start as int));
                assert(self.buf@.subrange(0, self.cap as int) =~= self.buf@.subrange(0, start as int) + fresh);
                assert(s1.subrange(s1.len() - self.cap, s1.len() as int) =~= s0.subrange(
                    s0.len() - start,
                    s0.len() as int,
                ) + fresh);
            },
        }
        Ok(&self.buf.as_slice()[self.pos..self.cap])
    }

    /// Copies up to `target.len()` bytes into `target` and returns how many
    /// it copied. When fewer bytes are buffered than asked for, the buffer
    /// is refilled once first (after growing it to `target.len()` if it is
    /// smaller); a failure of that refill is not reported, and the read goes
    /// on with what is buffered. The result is fewer than asked for only
    /// where the source has delivered no more, and 0 at the end of it.
    pub fn read(&mut self, target: &mut [u8]) -> (r: Result<usize, std::io::Error>)
        requires
            old(self).wf(),
        ensures
            final(self).wf(),
            match r {
                Ok(n) => read_step(old(self)@, final(self)@, old(target)@, final(target)@, n as nat),
                Err(_) => false,
            },
            read_source_step(
                old(self)@,
                final(self)@,
                old(self).source(),
                final(self).source(),
                old(target)@.len() as nat,
            ),
    {
        let ghost v_start = self@;
        let want = target.len();
        if want > self.buf.len() {
            self.resize_buf(want);
        }
        let ghost v0 = self@;
        let ghost src0 = self.inner;
        assert(v0.pending() =~= v_start.pending());
        if self.cap - self.pos < want {
            match self.fill_buf() {
                Ok(_) => {},
                Err(e) => {
                    assert(R::fails(src0, self.inner, (v0.capacity() - v0.pending().len()) as nat, e));
                    assert(self@.stream.subrange(v0.stream.len() as int, self@.stream.len() as int) =~= Seq::<
                        u8,
                    >::empty());
                },
            }
        }
        proof {
            lemma_pending_is_stream_tail(self@);
        }
        let avail = self.cap - self.pos;
        let n = if avail < want {
            avail
        } else {
            want
        };
        let ghost t0 = target@;
        let mut i: usize = 0;
        while i < n
            invariant
                self.wf(),
                n <= self.cap - self.pos,
                n <= want,
                want == t0.len(),
                i <= n,
                target@.len() == want,
                forall|j: int| 0 <= j < i ==> target@[j] == self.buf@[self.pos + j],
                forall|j: int| i <= j < want ==> target@[j] == t0[j],
            decreases n - i,
        {
            target[i] = self.buf[self.pos + i];
            i = i + 1;
        }
        let ghost v1 = self@;
        assert(target@ =~= v1.stream.subrange(v1.position(), v1.position() + n) + t0.subrange(
            n as int,
            want as int,
        ));
        let ghost stream_before = self@.stream;
        let ghost src_before = self.inner;
        self.consume(n);
        assert(self@.stream == stream_before);
        assert(self.inner == src_before);
        Ok(n)
    }
}

impl<R: ByteSource> MarkRead for BufferedReader<R> {
    open spec fn inv(&self) -> bool {
        self.wf()
    }

    /// Grows the buffer to `read_limit` if it is smaller, refills it once
    /// if fewer than `read_limit` bytes are buffered, then sets the mark at
    /// the cursor. A failed refill is reported, and leaves no mark.
    fn mark(&mut self, read_limit: usize) -> (r: Result<(), std::io::Error>)
        ensures
            mark_step(old(self)@, final(self)@, read_limit as nat, r is Ok),
            read_limit <= old(self)@.pending().len() ==> final(self).source() == old(self).source(),
            read_limit > old(self)@.pending().len() ==> match r {
                Ok(_) => R::fills(
                    old(self).source(),
                    final(self).source(),
                    (final(self)@.capacity() - old(self)@.pending().len()) as nat,
                    final(self)@.stream.subrange(
                        old(self)@.stream.len() as int,
                        final(self)@.stream.len() as int,
                    ),
                ),
                Err(e) => R::fails(
                    old(self).source(),
                    final(self).source(),
                    (final(self)@.capacity() - old(self)@.pending().len()) as nat,
                    e,
                ),
            },
    {
        let ghost v_start = self@;
        if read_limit > self.buf.len() {
            self.resize_buf(read_limit);
        }
        assert(self@.pending() =~= v_start.pending());
        if self.cap - self.pos < read_limit {
            match self.fill_buf() {
                Err(e) => return Err(e),
                Ok(_) => {},
            }
        }
        self.mark = Some(self.pos);
        self.ahead = read_limit;
        Ok(())
    }

    /// Moves the cursor back to the mark if one is set; otherwise does
    /// nothing. Never fails.
    fn reset(&mut self) -> (r: Result<(), std::io::Error>)
        ensures
            reset_step(old(self)@, final(self)@),
            final(self).source() == old(self).source(),
            r is Ok,
    {
        match self.mark {
            Some(m) => {
                self.pos = m;
            },
            None => {},
        }
        Ok(())
    }
}

} // verus!
