//! The linearizer: N producer endpoints, one consumer endpoint. Chunks
//! arrive out of order across producers (though in increasing sequence
//! order per producer) and are held in bounded per-producer buffers; the
//! consumer only ever takes the chunk carrying the next expected sequence,
//! so it observes strictly increasing sequences with no gaps and no
//! duplicates.

use vstd::prelude::*;
use vstd::pervasive::VecAdditionalExecFns;
use crate::morsel::EncodedChunk;

verus! {

/// What one consumer poll of the linearizer yields.
pub enum LinearizerPoll {
    /// The chunk with the next expected sequence.
    Ready(EncodedChunk),
    /// Every producer has signalled completion and the buffers are empty:
    /// no more data.
    Finished,
    /// The next expected chunk has not arrived yet and some producer may
    /// still send: the consumer would suspend.
    Pending,
}

/// The reordering join point. `queues[p]` buffers the chunks producer `p`
/// has sent and the consumer has not yet taken; `connected[p]` is whether
/// producer `p` may still send; `next` is the next expected sequence,
/// equal to the number of chunks already handed to the consumer.
pub struct Linearizer {
    pub queues: Vec<Vec<EncodedChunk>>,
    pub connected: Vec<bool>,
    pub capacity: usize,
    pub next: u64,
    /// The sequences handed to the consumer so far, in hand-over order.
    pub history: Ghost<Seq<u64>>,
}

impl Linearizer {
    /// The chunks buffered for producer `q`, oldest first.
    pub open spec fn qview(self, q: int) -> Seq<EncodedChunk> {
        self.queues@[q]@
    }

    /// The number of producer endpoints.
    pub open spec fn num_producers(self) -> int {
        self.queues@.len() as int
    }

    /// Producer `q` may still send, or still has buffered chunks.
    pub open spec fn producer_live(self, q: int) -> bool {
        self.connected@[q] || self.qview(q).len() > 0
    }

    /// `cur` is `prev` with the front chunk `c` of producer `q`'s buffer
    /// removed and every other buffer unchanged.
    pub open spec fn popped_from(prev: Linearizer, cur: Linearizer, q: int, c: EncodedChunk) -> bool {
        &&& 0 <= q < prev.num_producers()
        &&& prev.qview(q).len() > 0
        &&& prev.qview(q)[0] == c
        &&& cur.qview(q) == prev.qview(q).subrange(1, prev.qview(q).len() as int)
        &&& forall|q2: int|
            0 <= q2 < prev.num_producers() && q2 != q ==> (#[trigger] cur.qview(q2)) == prev.qview(
                q2,
            )
    }

    /// Internal well-formedness: per-producer buffers are bounded by the
    /// capacity and sorted by sequence, every buffered sequence is at least
    /// the next expected one, no two buffered chunks share a sequence, and
    /// the hand-over history is exactly the sequence range already served.
    pub open spec fn wf(self) -> bool {
        &&& self.connected@.len() == self.queues@.len()
        &&& self.capacity >= 1
        &&& self.history@.len() == self.next
        &&& forall|i: int| 0 <= i < self.history@.len() ==> self.history@[i] == i
        &&& forall|q: int|
            0 <= q < self.num_producers() ==> self.qview(q).len() <= self.capacity
        &&& forall|q: int, a: int, b: int|
            0 <= q < self.num_producers() && 0 <= a < b < self.qview(q).len() ==> self.qview(
                q,
            )[a].seq < self.qview(q)[b].seq
        &&& forall|q: int, a: int|
            0 <= q < self.num_producers() && 0 <= a < self.qview(q).len() ==> self.qview(
                q,
            )[a].seq >= self.next
        &&& forall|q1: int, a1: int, q2: int, a2: int|
            0 <= q1 < self.num_producers() && 0 <= a1 < self.qview(q1).len() && 0 <= q2
                < self.num_producers() && 0 <= a2 < self.qview(q2).len() && (q1 != q2 || a1 != a2)
                ==> self.qview(q1)[a1].seq != self.qview(q2)[a2].seq
    }

    /// A fresh linearizer for `num_producers` producers, with per-producer
    /// buffers bounded by `capacity` chunks.
    pub fn new(num_producers: usize, capacity: usize) -> (r: Linearizer)
        requires
            capacity >= 1,
        ensures
            r.wf(),
            r.num_producers() == num_producers,
            r.capacity == capacity,
            r.next == 0,
            forall|q: int| 0 <= q < num_producers ==> r.qview(q).len() == 0,
            forall|q: int| 0 <= q < num_producers ==> r.connected@[q],
    {
        let mut queues: Vec<Vec<EncodedChunk>> = Vec::new();
        let mut connected: Vec<bool> = Vec::new();
        let mut p: usize = 0;
        while p < num_producers
            invariant
                queues@.len() == p,
                connected@.len() == p,
                p <= num_producers,
                forall|q: int| 0 <= q < p ==> queues@[q]@.len() == 0,
                forall|q: int| 0 <= q < p ==> connected@[q],
            decreases num_producers - p,
        {
            queues.push(Vec::new());
            connected.push(true);
            p = p + 1;
        }
        Linearizer { queues, connected, capacity, next: 0, history: Ghost(Seq::empty()) }
    }

    /// Whether producer `p`'s buffer has room for another chunk. When it
    /// does not, the producer's send suspends: that is the backpressure.
    pub fn has_room(&self, p: usize) -> (r: bool)
        requires
            p < self.num_producers(),
        ensures
            r == (self.qview(p as int).len() < self.capacity),
    {
        self.queues[p].len() < self.capacity
    }

    /// Producer `p` hands over one chunk. Sequences must increase along one
    /// producer's sends, never fall behind the consumer, and never repeat a
    /// buffered one; the buffer must have room.
    pub fn insert(&mut self, p: usize, chunk: EncodedChunk)
        requires
            old(self).wf(),
            p < old(self).num_producers(),
            old(self).qview(p as int).len() < old(self).capacity,
            chunk.seq >= old(self).next,
            old(self).qview(p as int).len() > 0 ==> old(self).qview(p as int).last().seq
                < chunk.seq,
            forall|q: int, a: int|
                0 <= q < old(self).num_producers() && 0 <= a < old(self).qview(q).len() ==> old(
                    self,
                ).qview(q)[a].seq != chunk.seq,
        ensures
            final(self).wf(),
            final(self).num_producers() == old(self).num_producers(),
            final(self).capacity == old(self).capacity,
            final(self).next == old(self).next,
            final(self).connected@ == old(self).connected@,
            final(self).qview(p as int) == old(self).qview(p as int).push(chunk),
            forall|q: int|
                0 <= q < old(self).num_producers() && q != p ==> (#[trigger] final(self).qview(q))
                    == old(self).qview(q),
    {
        let ghost prior = *self;
        let mut row: Vec<EncodedChunk> = Vec::new();
        self.queues.set_and_swap(p, &mut row);
        row.push(chunk);
        self.queues.set_and_swap(p, &mut row);
        proof {
            assert(self.qview(p as int) =~= prior.qview(p as int).push(chunk));
            assert forall|q: int| 0 <= q < prior.num_producers() implies (#[trigger] self.qview(q))
                == if q == p {
                prior.qview(q).push(chunk)
            } else {
                prior.qview(q)
            } by {
                if q != p {
                    assert(self.queues@[q] == prior.queues@[q]);
                    assert(self.qview(q) =~= prior.qview(q));
                }
            }
            assert forall|q: int, a: int|
                0 <= q < self.num_producers() && 0 <= a < self.qview(q).len() implies (
            #[trigger] self.qview(q)[a]).seq >= self.next by {
                if q == p && a == prior.qview(q).len() {
                    assert(self.qview(q)[a] == chunk);
                } else {
                    assert(self.qview(q)[a] == prior.qview(q)[a]);
                }
            }
        }
    }

    /// Producer `p` signals completion (its channel endpoint is dropped or
    /// its stream ended): it will send no more chunks.
    pub fn close(&mut self, p: usize)
        requires
            old(self).wf(),
            p < old(self).num_producers(),
        ensures
            final(self).wf(),
            final(self).num_producers() == old(self).num_producers(),
            final(self).capacity == old(self).capacity,
            final(self).next == old(self).next,
            final(self).connected@ == old(self).connected@.update(p as int, false),
            forall|q: int|
                0 <= q < old(self).num_producers() ==> (#[trigger] final(self).qview(q)) == old(
                    self,
                ).qview(q),
    {
        let ghost prior = *self;
        self.connected.set(p, false);
        proof {
            assert forall|q: int| 0 <= q < prior.num_producers() implies (#[trigger] self.qview(q))
                == prior.qview(q) by {
                assert(self.queues@[q] == prior.queues@[q]);
            }
        }
    }

    /// One consumer poll: take the chunk with the next expected sequence if
    /// it has arrived; report completion once every producer has signalled
    /// it and the buffers are drained; otherwise the consumer would
    /// suspend.
    pub fn poll(&mut self) -> (r: LinearizerPoll)
        requires
            old(self).wf(),
            old(self).next < u64::MAX,
        ensures
            final(self).wf(),
            final(self).num_producers() == old(self).num_producers(),
            final(self).capacity == old(self).capacity,
            final(self).connected@ == old(self).connected@,
            r matches LinearizerPoll::Ready(c) ==> c.seq == old(self).next && final(self).next
                == old(self).next + 1 && final(self).history@ == old(self).history@.push(c.seq)
                && exists|q: int| Linearizer::popped_from(*old(self), *final(self), q, c),
            r is Finished ==> *final(self) == *old(self) && forall|q: int|
                0 <= q < old(self).num_producers() ==> !(#[trigger] old(self).producer_live(q)),
            r is Pending ==> *final(self) == *old(self) && (forall|q: int|
                0 <= q < old(self).num_producers() && old(self).qview(q).len() > 0 ==> (
                #[trigger] old(self).qview(q))[0].seq != old(self).next) && exists|q: int|
                0 <= q < old(self).num_producers() && #[trigger] old(self).producer_live(q),
    {
        let ghost prior = *self;
        let n = self.queues.len();
        let mut q: usize = 0;
        while q < n
            invariant
                prior == *old(self),
                *self == prior,
                self.wf(),
                self.next < u64::MAX,
                n == self.num_producers(),
                q <= n,
                forall|q2: int|
                    0 <= q2 < q && self.qview(q2).len() > 0 ==> self.qview(q2)[0].seq != self.next,
            decreases n - q,
        {
            if self.queues[q].len() > 0 && self.queues[q][0].seq == self.next {
                let mut row: Vec<EncodedChunk> = Vec::new();
                self.queues.set_and_swap(q, &mut row);
                let c = row.remove(0);
                self.queues.set_and_swap(q, &mut row);
                proof {
                    self.history@ = self.history@.push(self.next);
                }
                self.next = self.next + 1;
                proof {
                    let qi = q as int;
                    assert(self.queues@.len() == prior.queues@.len());
                    assert(self.qview(qi) =~= prior.qview(qi).subrange(
                        1,
                        prior.qview(qi).len() as int,
                    ));
                    assert forall|q2: int|
                        0 <= q2 < prior.num_producers() && q2 != qi implies (
                    #[trigger] self.qview(q2)) == prior.qview(q2) by {
                        assert(self.queues@[q2] == prior.queues@[q2]);
                        assert(self.qview(q2) =~= prior.qview(q2));
                    }
                    assert forall|q2: int, a: int|
                        0 <= q2 < self.num_producers() && 0 <= a < self.qview(q2).len() implies (
                        #[trigger] self.qview(q2)[a]).seq >= self.next by {
                        if q2 == qi {
                            assert(self.qview(q2)[a] == prior.qview(qi)[a + 1]);
                            assert(prior.qview(qi)[a + 1].seq > prior.qview(qi)[0].seq);
                        } else {
                            assert(self.qview(q2)[a] == prior.qview(q2)[a]);
                            assert(prior.qview(q2)[a].seq >= prior.next);
                            assert(prior.qview(q2)[a].seq != prior.qview(qi)[0].seq);
                        }
                    }
                    assert forall|q2: int, a: int, b: int|
                        0 <= q2 < self.num_producers() && 0 <= a < b < self.qview(q2).len() implies
                        self.qview(q2)[a].seq < self.qview(q2)[b].seq by {
                        if q2 == qi {
                            assert(self.qview(q2)[a] == prior.qview(qi)[a + 1]);
                            assert(self.qview(q2)[b] == prior.qview(qi)[b + 1]);
                        }
                    }
                    assert forall|q1: int, a1: int, q2: int, a2: int|
                        0 <= q1 < self.num_producers() && 0 <= a1 < self.qview(q1).len() && 0 <= q2
                            < self.num_producers() && 0 <= a2 < self.qview(q2).len() && (q1 != q2
                            || a1 != a2) implies self.qview(q1)[a1].seq != self.qview(
                        q2,
                    )[a2].seq by {
                        let b1 = if q1 == qi {
                            a1 + 1
                        } else {
                            a1
                        };
                        let b2 = if q2 == qi {
                            a2 + 1
                        } else {
                            a2
                        };
                        assert(self.qview(q1)[a1] == prior.qview(q1)[b1]);
                        assert(self.qview(q2)[a2] == prior.qview(q2)[b2]);
                    }
                }
                proof {
                    assert(Linearizer::popped_from(prior, *self, q as int, c));
                }
                return LinearizerPoll::Ready(c);
            }
            q = q + 1;
        }
        let mut done = true;
        let mut p: usize = 0;
        while p < n
            invariant
                prior == *old(self),
                *self == prior,
                n == self.num_producers(),
                self.connected@.len() == n,
                p <= n,
                done ==> forall|q2: int| 0 <= q2 < p ==> !(#[trigger] self.producer_live(q2)),
                !done ==> exists|q2: int| 0 <= q2 < n && #[trigger] self.producer_live(q2),
            decreases n - p,
        {
            if self.connected[p] || self.queues[p].len() > 0 {
                done = false;
                proof {
                    assert(self.producer_live(p as int));
                }
            } else {
                proof {
                    assert(!self.producer_live(p as int));
                }
            }
            p = p + 1;
        }
        if done {
            LinearizerPoll::Finished
        } else {
            LinearizerPoll::Pending
        }
    }
}

/// Exactly-once emission: the sequences the consumer has observed are
/// strictly increasing with no gap and no duplicate — exactly
/// `0, 1, .., next - 1`, each served once.
pub proof fn lemma_exactly_once_emission(lin: Linearizer)
    requires
        lin.wf(),
    ensures
        lin.history@.len() == lin.next,
        forall|i: int, j: int|
            0 <= i < j < lin.history@.len() ==> lin.history@[i] < lin.history@[j],
        forall|i: int| 0 <= i < lin.history@.len() ==> lin.history@[i] == i,
{
}

} // verus!
