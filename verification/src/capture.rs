//! Keeping the beginning of a stream and dropping the rest.

use vstd::prelude::*;

verus! {

/// How many bytes of a stream are kept; what comes behind them is cut.
pub const MAX_STREAM_BYTES: usize = 5 * 1024 * 1024;

/// The bytes of chunks, one after the other.
pub open spec fn stream_of(chunks: Seq<Seq<u8>>) -> Seq<u8>
    decreases chunks.len(),
{
    if chunks.len() == 0 {
        Seq::empty()
    } else {
        stream_of(chunks.drop_last()) + chunks.last()
    }
}

/// What is kept of chunks: every chunk that begins below the limit, whole.
pub open spec fn kept_of(chunks: Seq<Seq<u8>>) -> Seq<u8>
    decreases chunks.len(),
{
    if chunks.len() == 0 {
        Seq::empty()
    } else {
        let front = kept_of(chunks.drop_last());
        if front.len() < MAX_STREAM_BYTES {
            front + chunks.last()
        } else {
            front
        }
    }
}

/// A stream as it is read, chunk by chunk.
pub struct StreamCapture {
    kept: Vec<u8>,
    total: usize,
}

impl StreamCapture {
    /// `chunks` are what was read so far.
    pub closed spec fn has_read(self, chunks: Seq<Seq<u8>>) -> bool {
        &&& self.kept@ == kept_of(chunks)
        &&& self.total == if stream_of(chunks).len() <= usize::MAX {
            stream_of(chunks).len() as int
        } else {
            usize::MAX as int
        }
    }

    /// Nothing read yet.
    pub fn new() -> (r: StreamCapture)
        ensures
            r.has_read(Seq::empty()),
    {
        StreamCapture { kept: Vec::new(), total: 0 }
    }

    /// Takes the next chunk.
    pub fn absorb(&mut self, chunk: &[u8])
        ensures
            forall|chunks: Seq<Seq<u8>>| #[trigger]
                old(self).has_read(chunks) ==> final(self).has_read(chunks.push(chunk@)),
    {
        let ghost before = *self;
        let n: usize = chunk.len();
        if self.kept.len() < MAX_STREAM_BYTES {
            let mut i: usize = 0;
            while i < n
                invariant
                    i <= n,
                    n == chunk@.len(),
                    self.kept@ == before.kept@ + chunk@.take(i as int),
                    self.total == before.total,
                decreases n - i,
            {
                self.kept.push(chunk[i]);
                i += 1;
                assert(chunk@.take(i as int) =~= chunk@.take(i - 1).push(chunk@[i - 1]));
            }
            assert(chunk@.take(i as int) =~= chunk@);
        }
        if self.total <= usize::MAX - n {
            self.total = self.total + n;
        } else {
            self.total = usize::MAX;
        }
        proof {
            assert forall|chunks: Seq<Seq<u8>>| #[trigger] before.has_read(
                chunks,
            ) implies self.has_read(chunks.push(chunk@)) by {
                let next = chunks.push(chunk@);
                assert(next.drop_last() =~= chunks);
                assert(next.last() == chunk@);
            }
        }
    }

    /// What is kept, and whether the stream was longer than the limit.
    pub fn finish(self) -> (r: (Vec<u8>, bool))
        ensures
            forall|chunks: Seq<Seq<u8>>| #[trigger]
                self.has_read(chunks) ==> r.0@ == kept_of(chunks) && r.1 == (stream_of(chunks).len()
                    > MAX_STREAM_BYTES),
    {
        let cut = self.total > MAX_STREAM_BYTES;
        (self.kept, cut)
    }
}

/// What is kept is the beginning of the stream, and all of it where the
/// stream is no longer than the limit.
pub proof fn law_beginning_is_kept(chunks: Seq<Seq<u8>>)
    ensures
        kept_of(chunks).len() <= stream_of(chunks).len(),
        kept_of(chunks) == stream_of(chunks).take(kept_of(chunks).len() as int),
        stream_of(chunks).len() <= MAX_STREAM_BYTES ==> kept_of(chunks) == stream_of(chunks),
        kept_of(chunks).len() < MAX_STREAM_BYTES ==> kept_of(chunks) == stream_of(chunks),
    decreases chunks.len(),
{
    if chunks.len() > 0 {
        law_beginning_is_kept(chunks.drop_last());
        let k = kept_of(chunks.drop_last());
        let s = stream_of(chunks.drop_last());
        if k.len() < MAX_STREAM_BYTES {
            assert(kept_of(chunks) =~= stream_of(chunks));
        } else {
            assert((s + chunks.last()).take(k.len() as int) =~= s.take(k.len() as int));
            if s.len() + chunks.last().len() <= MAX_STREAM_BYTES {
                assert(k =~= s);
                assert(chunks.last().len() == 0);
                assert(s + chunks.last() =~= s);
            }
        }
    }
    assert(kept_of(chunks) =~= stream_of(chunks).take(kept_of(chunks).len() as int));
}

/// However long the stream is, less than one chunk beyond the limit is kept.
pub proof fn law_kept_is_bounded(chunks: Seq<Seq<u8>>, chunk_max: nat)
    requires
        chunk_max > 0,
        forall|i: int| 0 <= i < chunks.len() ==> (#[trigger] chunks[i]).len() <= chunk_max,
    ensures
        kept_of(chunks).len() < MAX_STREAM_BYTES + chunk_max,
    decreases chunks.len(),
{
    if chunks.len() > 0 {
        let front = chunks.drop_last();
        assert forall|i: int| 0 <= i < front.len() implies (#[trigger] front[i]).len()
            <= chunk_max by {
            assert(front[i] == chunks[i]);
        }
        law_kept_is_bounded(front, chunk_max);
        assert(chunks.last() == chunks[chunks.len() - 1]);
    }
}

} // verus!
