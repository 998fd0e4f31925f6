use vstd::prelude::*;

verus! {

/// `std::io::Error`, the failure a source reports; it is only carried
/// through, never looked into.
#[verifier::external_type_specification]
#[verifier::external_body]
pub struct ExIoError(std::io::Error);

/// Where a buffered reader gets its bytes from.
pub trait ByteSource: Sized {
    /// A fill offered `room` bytes of space took the source from `pre` to
    /// `post` and wrote `out` at the front of that space. A source that
    /// states nothing of itself keeps this default, which rules nothing out.
    open spec fn fills(pre: Self, post: Self, room: nat, out: Seq<u8>) -> bool {
        true
    }

    /// A fill offered `room` bytes of space took the source from `pre` to
    /// `post` and failed with `e`. The default rules nothing out.
    open spec fn fails(pre: Self, post: Self, room: nat, e: std::io::Error) -> bool {
        true
    }

    /// Writes bytes into the front of `dst` and returns how many it wrote;
    /// 0 means that the source has no bytes to give at the moment.
    fn fill(&mut self, dst: &mut [u8]) -> (r: Result<usize, std::io::Error>)
        ensures
            final(dst)@.len() == old(dst)@.len(),
            r matches Ok(k) ==> k <= old(dst)@.len() && Self::fills(
                *old(self),
                *final(self),
                old(dst)@.len() as nat,
                final(dst)@.subrange(0, k as int),
            ),
            r matches Err(e) ==> Self::fails(*old(self), *final(self), old(dst)@.len() as nat, e),
    ;
}

/// A byte slice is a source that hands out its bytes in order, as many at a
/// time as fit, and never fails.
impl<'a> ByteSource for &'a [u8] {
    open spec fn fills(pre: Self, post: Self, room: nat, out: Seq<u8>) -> bool {
        let n = if pre@.len() <= room {
            pre@.len()
        } else {
            room
        };
        &&& out == pre@.subrange(0, n as int)
        &&& post@ == pre@.subrange(n as int, pre@.len() as int)
    }

    open spec fn fails(pre: Self, post: Self, room: nat, e: std::io::Error) -> bool {
        false
    }

    fn fill(&mut self, dst: &mut [u8]) -> (r: Result<usize, std::io::Error>)
        ensures
            ({
                let n = if old(self)@.len() <= old(dst)@.len() {
                    old(self)@.len()
                } else {
                    old(dst)@.len()
                };
                &&& r matches Ok(k) && k == n
                &&& final(dst)@ == old(self)@.subrange(0, n as int) + old(dst)@.subrange(
                    n as int,
                    old(dst)@.len() as int,
                )
                &&& final(self)@ == old(self)@.subrange(n as int, old(self)@.len() as int)
            }),
    {
        let src: &'a [u8] = *self;
        let n = if src.len() <= dst.len() {
            src.len()
        } else {
            dst.len()
        };
        let ghost d0 = dst@;
        let mut i: usize = 0;
        while i < n
            invariant
                n <= src@.len(),
                n <= d0.len(),
                i <= n,
                dst@.len() == d0.len(),
                forall|j: int| 0 <= j < i ==> dst@[j] == src@[j],
                forall|j: int| i <= j < d0.len() ==> dst@[j] == d0[j],
            decreases n - i,
        {
            dst[i] = src[i];
            i = i + 1;
        }
        assert(dst@ =~= src@.subrange(0, n as int) + d0.subrange(n as int, d0.len() as int));
        assert(dst@.subrange(0, n as int) =~= src@.subrange(0, n as int));
        *self = &src[n..src.len()];
        Ok(n)
    }
}

} // verus!
