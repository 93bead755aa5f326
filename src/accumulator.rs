use vstd::arithmetic::div_mod::{
    lemma_basic_div, lemma_fundamental_div_mod, lemma_hoist_over_denominator,
    lemma_mod_multiples_vanish, lemma_small_mod,
};
use vstd::prelude::*;

verus! {

/// Buffers incoming chunks of samples and hands them out as fixed-size frames,
/// keeping the unconsumed tail for the next frame.
pub struct FrameAccumulator<T> {
    buffer: Vec<T>,
}

impl<T> View for FrameAccumulator<T> {
    type V = Seq<T>;

    /// The samples that arrived and have not yet left in a frame, oldest first.
    closed spec fn view(&self) -> Seq<T> {
        self.buffer@
    }
}

/// What one chunk does to the pending samples: the chunk is appended, then as
/// many whole frames as fit are taken from the front. The result is the number
/// of frames taken and the samples left over.
pub open spec fn feed_step<T>(pending: Seq<T>, chunk: Seq<T>, frame_size: nat) -> (nat, Seq<T>) {
    let joined = pending + chunk;
    let k = joined.len() / frame_size;
    (k, joined.skip((k * frame_size) as int))
}

/// Feeding a whole sequence of chunks, one after the other: the total number of
/// frames taken and the samples left over at the end.
pub open spec fn feed_chunks<T>(pending: Seq<T>, chunks: Seq<Seq<T>>, frame_size: nat) -> (nat, Seq<T>)
    decreases chunks.len(),
{
    if chunks.len() == 0 {
        (0, pending)
    } else {
        let (k, rest) = feed_step(pending, chunks[0], frame_size);
        let (more, left) = feed_chunks(rest, chunks.skip(1), frame_size);
        (k + more, left)
    }
}

/// The number of samples in all chunks together.
pub open spec fn total_len<T>(chunks: Seq<Seq<T>>) -> nat
    decreases chunks.len(),
{
    if chunks.len() == 0 {
        0
    } else {
        chunks[0].len() + total_len(chunks.skip(1))
    }
}

/// All chunks joined in order.
pub open spec fn concat<T>(chunks: Seq<Seq<T>>) -> Seq<T>
    decreases chunks.len(),
{
    if chunks.len() == 0 {
        Seq::empty()
    } else {
        chunks[0] + concat(chunks.skip(1))
    }
}

proof fn lemma_concat_len<T>(chunks: Seq<Seq<T>>)
    ensures
        concat(chunks).len() == total_len(chunks),
    decreases chunks.len(),
{
    if chunks.len() > 0 {
        lemma_concat_len(chunks.skip(1));
    }
}

proof fn lemma_feed_rest<T>(pending: Seq<T>, chunks: Seq<Seq<T>>, n: nat)
    requires
        n > 0,
        pending.len() < n,
    ensures
        feed_chunks(pending, chunks, n).1 == (pending + concat(chunks)).skip(
            (feed_chunks(pending, chunks, n).0 * n) as int,
        ),
    decreases chunks.len(),
{
    if chunks.len() == 0 {
        assert(pending + concat(chunks) =~= pending);
        assert(pending.skip(0) =~= pending);
        assert(feed_chunks(pending, chunks, n).0 == 0);
        assert(feed_chunks(pending, chunks, n).1 == pending);
        assert(feed_chunks(pending, chunks, n).0 * n == 0);
        assert(feed_chunks(pending, chunks, n).1 == (pending + concat(chunks)).skip(
            (feed_chunks(pending, chunks, n).0 * n) as int));
    } else {
        let ni = n as int;
        let joined = pending + chunks[0];
        let k = joined.len() / n;
        lemma_fundamental_div_mod(joined.len() as int, ni);
        assert(k * n <= joined.len()) by (nonlinear_arith)
            requires
                joined.len() as int == ni * (k as int) + (joined.len() as int) % ni,
                (joined.len() as int) % ni >= 0,
                ni == n,
        ;
        let rest = joined.skip((k * n) as int);
        assert(rest.len() < n);
        lemma_feed_rest(rest, chunks.skip(1), n);
        let more = feed_chunks(rest, chunks.skip(1), n).0;
        let tail = concat(chunks.skip(1));
        assert(pending + concat(chunks) =~= joined + tail);
        assert((k + more) * n == k * n + more * n) by (nonlinear_arith);
        lemma_feed_counts(rest, chunks.skip(1), n);
        lemma_concat_len(chunks.skip(1));
        let whole = rest.len() + tail.len();
        lemma_fundamental_div_mod(whole as int, ni);
        assert(more * n <= whole) by (nonlinear_arith)
            requires
                more == whole / n,
                whole as int == ni * (more as int) + (whole as int) % ni,
                (whole as int) % ni >= 0,
                ni == n,
        ;
        assert(joined.len() == k * n + rest.len());
        assert((rest + tail).skip((more * n) as int) =~= (joined + tail).skip((k * n + more * n) as int));
        assert(feed_step(pending, chunks[0], n) == (k, rest));
        assert(((k + more) * n) as int == (k * n + more * n) as int);
        assert(feed_chunks(pending, chunks, n).1 == (pending + concat(chunks)).skip(
            (feed_chunks(pending, chunks, n).0 * n) as int));
    }
}

proof fn lemma_feed_counts<T>(pending: Seq<T>, chunks: Seq<Seq<T>>, n: nat)
    requires
        n > 0,
        pending.len() < n,
    ensures
        feed_chunks(pending, chunks, n).0 == (pending.len() + total_len(chunks)) / n,
        feed_chunks(pending, chunks, n).1.len() == (pending.len() + total_len(chunks)) % n,
    decreases chunks.len(),
{
    let ni = n as int;
    if chunks.len() == 0 {
        lemma_basic_div(pending.len() as int, ni);
        lemma_small_mod(pending.len(), n);
    } else {
        let joined = pending + chunks[0];
        let j = joined.len() as int;
        let k = j / ni;
        lemma_fundamental_div_mod(j, ni);
        let rest = joined.skip((k * ni) as int);
        assert(rest.len() == j % ni);
        lemma_feed_counts(rest, chunks.skip(1), n);
        let t = total_len(chunks.skip(1)) as int;
        // (j % n + t) / n + k == (j + t) / n
        lemma_hoist_over_denominator(j % ni + t, k, n);
        assert(j % ni + t + k * ni == j + t) by (nonlinear_arith)
            requires
                j == ni * k + j % ni,
        ;
        lemma_mod_multiples_vanish(k, j % ni + t, ni);
        assert(ni * k + (j % ni + t) == j + t);
        lemma_basic_div(j % ni, ni);
        assert(pending.len() + total_len(chunks) == j + t);
    }
}

/// However the samples are cut into chunks, feeding them all yields exactly as
/// many frames as whole frames fit into their total, and leaves exactly the
/// remainder pending: the last samples of the stream, none lost or repeated.
pub proof fn lemma_frame_completeness<T>(chunks: Seq<Seq<T>>, frame_size: nat)
    requires
        frame_size > 0,
    ensures
        feed_chunks(Seq::<T>::empty(), chunks, frame_size).0 == total_len(chunks) / frame_size,
        feed_chunks(Seq::<T>::empty(), chunks, frame_size).1.len() == total_len(chunks)
            % frame_size,
        feed_chunks(Seq::<T>::empty(), chunks, frame_size).1 == concat(chunks).skip(
            total_len(chunks) - total_len(chunks) % frame_size,
        ),
{
    let n = frame_size;
    lemma_feed_counts(Seq::<T>::empty(), chunks, n);
    lemma_feed_rest(Seq::<T>::empty(), chunks, n);
    lemma_concat_len(chunks);
    let t = total_len(chunks) as int;
    lemma_fundamental_div_mod(t, n as int);
    assert(Seq::<T>::empty() + concat(chunks) =~= concat(chunks));
}

impl<T: Copy> FrameAccumulator<T> {
    /// An accumulator holding no samples.
    pub fn new() -> (r: Self)
        ensures
            r@ == Seq::<T>::empty(),
    {
        FrameAccumulator { buffer: Vec::new() }
    }

    /// The number of samples waiting for a frame.
    pub fn len(&self) -> (r: usize)
        ensures
            r == self@.len(),
    {
        self.buffer.len()
    }

    /// Appends a chunk of samples after those already pending.
    pub fn push(&mut self, chunk: &Vec<T>)
        ensures
            final(self)@ == old(self)@ + chunk@,
    {
        let mut i: usize = 0;
        while i < chunk.len()
            invariant
                i <= chunk@.len(),
                self@ == old(self)@ + chunk@.take(i as int),
            decreases chunk@.len() - i,
        {
            self.buffer.push(chunk[i]);
            i = i + 1;
            assert(chunk@.take(i as int) == chunk@.take(i - 1 as int).push(chunk@[i - 1]));
        }
        assert(chunk@.take(chunk@.len() as int) == chunk@);
    }

    /// Takes the first `frame_size` pending samples as a frame, if that many are
    /// pending; otherwise leaves everything as it is.
    pub fn try_take_frame(&mut self, frame_size: usize) -> (r: Option<Vec<T>>)
        ensures
            old(self)@.len() < frame_size ==> r is None && final(self)@ == old(self)@,
            old(self)@.len() >= frame_size ==> r is Some && r->0@ == old(self)@.take(
                frame_size as int,
            ) && final(self)@ == old(self)@.skip(frame_size as int),
    {
        if self.buffer.len() < frame_size {
            None
        } else {
            let mut frame = self.buffer.split_off(frame_size);
            std::mem::swap(&mut self.buffer, &mut frame);
            Some(frame)
        }
    }

    /// Takes every whole frame that the pending samples hold, in order, and keeps
    /// the tail that is shorter than a frame.
    pub fn drain_frames(&mut self, frame_size: usize) -> (r: Vec<Vec<T>>)
        requires
            frame_size > 0,
        ensures
            r@.len() == old(self)@.len() / (frame_size as nat),
            forall|k: int|
                0 <= k < r@.len() ==> #[trigger] r@[k]@ == old(self)@.subrange(
                    k * frame_size,
                    (k + 1) * frame_size,
                ),
            final(self)@ == old(self)@.skip(r@.len() * frame_size),
            final(self)@.len() < frame_size,
    {
        let ghost start = self@;
        let ghost n = frame_size as int;
        let mut frames: Vec<Vec<T>> = Vec::new();
        assert(frames@.len() * n == 0) by (nonlinear_arith)
            requires
                frames@.len() == 0,
        ;
        loop
            invariant
                start == old(self)@,
                n == frame_size as int,
                n > 0,
                frames@.len() * n <= start.len(),
                self@ == start.skip(frames@.len() * n),
                forall|k: int|
                    0 <= k < frames@.len() ==> #[trigger] frames@[k]@ == start.subrange(
                        k * n,
                        (k + 1) * n,
                    ),
            decreases self@.len(),
        {
            let ghost before = frames@.len() as int;
            match self.try_take_frame(frame_size) {
                None => {
                    proof {
                        let m = start.len() as int;
                        lemma_fundamental_div_mod(m, n);
                        let q = m / n;
                        assert(q == before) by (nonlinear_arith)
                            requires
                                m == n * q + m % n,
                                0 <= m % n < n,
                                before * n <= m,
                                m - before * n < n,
                                n > 0,
                        ;
                    }
                    return frames;
                },
                Some(frame) => {
                    let ghost prev = frames@;
                    proof {
                        assert((before + 1) * n == before * n + n) by (nonlinear_arith);
                    }
                    frames.push(frame);
                    proof {
                        assert(frames@.len() == before + 1);
                        assert forall|k: int| 0 <= k < frames@.len() implies #[trigger] frames@[k]@
                            == start.subrange(k * n, (k + 1) * n) by {
                            if k < before {
                                assert(frames@[k] == prev[k]);
                            }
                        }
                    }
                },
            }
        }
    }

    /// Appends a chunk and takes every whole frame that is then pending.
    pub fn feed(&mut self, chunk: &Vec<T>, frame_size: usize) -> (r: Vec<Vec<T>>)
        requires
            frame_size > 0,
        ensures
            (r@.len() as nat, final(self)@) == feed_step(old(self)@, chunk@, frame_size as nat),
            forall|k: int|
                0 <= k < r@.len() ==> #[trigger] r@[k]@ == (old(self)@ + chunk@).subrange(
                    k * frame_size,
                    (k + 1) * frame_size,
                ),
    {
        self.push(chunk);
        self.drain_frames(frame_size)
    }
}

} // verus!
