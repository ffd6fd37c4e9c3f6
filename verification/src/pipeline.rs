//! The morsel-driven sink pipeline: N encode workers, the linearizer, and
//! the single commit task, modelled as one state machine stepped
//! cooperatively. Each step function is one task's scheduling quantum; a
//! step that would suspend (a full buffer, a missing chunk) reports no
//! progress and leaves the state unchanged, exactly as a suspended task
//! leaves shared state untouched.
//!
//! The driver `run_sink` steps tasks in a caller-chosen order and then
//! drives the pipeline to quiescence. Its contract does not mention the
//! order: the bytes handed to the sink and the surfaced error are the same
//! for every schedule.

use vstd::prelude::*;
use vstd::pervasive::VecAdditionalExecFns;
use crate::completion::CompletionOutcome;
use crate::linearizer::Linearizer;
use crate::linearizer::LinearizerPoll;
use crate::morsel::EncodeError;
use crate::morsel::EncodedChunk;
use crate::morsel::SinkError;
use crate::morsel::Unit;
use crate::morsel::all_ok_below;
use crate::morsel::distinct_seqs;
use crate::morsel::has_seq;
use crate::morsel::lemma_total_units_nonneg;
use crate::morsel::lemma_unit_at;
use crate::morsel::ordered_bytes;
use crate::morsel::sink_run_post;
use crate::morsel::stream_ordered;
use crate::morsel::total_units;
use crate::morsel::unit_at;
use crate::morsel::unit_bytes;
use crate::morsel::unit_ok;
use crate::morsel::wf_inputs;
use crate::worker::EncodeWorker;

verus! {

/// The view of a vector of per-worker input streams as a mathematical
/// sequence of sequences of units.
pub open spec fn iview(inputs: Vec<Vec<Unit>>) -> Seq<Seq<Unit>> {
    inputs@.map_values(|v: Vec<Unit>| v@)
}

/// One encode worker's task state.
pub struct WorkerTask {
    /// How many units of this worker's input stream have been received.
    pub consumed: usize,
    /// A chunk that has been encoded but not yet handed to the linearizer:
    /// while it exists, the unit's admission token is still held.
    pub pending: Option<EncodedChunk>,
    /// The encode transform failed on the last received unit; the task has
    /// terminated with that error.
    pub failed: bool,
    /// The task has terminated (normally or by failure) and has released
    /// its linearizer endpoint.
    pub done: bool,
    /// The adaptive buffer-size estimate.
    pub sizer: EncodeWorker,
    /// The completion handshake for this worker's channel: fired exactly on
    /// normal termination.
    pub outcome: CompletionOutcome,
}

/// The units of worker `w`'s stream that have been handed to the
/// linearizer: all consumed ones except a still-pending chunk's unit and a
/// failed unit (which never produced a chunk).
pub open spec fn handed_count(t: WorkerTask) -> int {
    if t.failed {
        t.consumed - 1
    } else if t.pending is Some {
        t.consumed - 1
    } else {
        t.consumed as int
    }
}

/// The whole sink pipeline state.
pub struct Pipeline {
    pub workers: Vec<WorkerTask>,
    pub lin: Linearizer,
    /// The bytes the commit task has written to the external sink, in
    /// order.
    pub written: Vec<u8>,
    /// The commit task has terminated.
    pub finished: bool,
    /// The whole sink's completion handshake: fired when the commit task
    /// terminates normally.
    pub sink_outcome: CompletionOutcome,
    /// The aggregated error: the least failing sequence seen so far.
    pub error: Option<SinkError>,
    /// Per worker, how many of its units the commit task has written.
    pub emitted: Ghost<Seq<int>>,
}

impl Pipeline {
    /// The number of encode workers.
    pub open spec fn num_workers(self) -> int {
        self.workers@.len() as int
    }

    /// Worker `w` failed at sequence `seq` with `cause`.
    pub open spec fn failed_with(
        self,
        ws: Seq<Seq<Unit>>,
        w: int,
        seq: u64,
        cause: EncodeError,
    ) -> bool {
        &&& self.workers@[w].failed
        &&& ws[w][self.workers@[w].consumed - 1].seq == seq
        &&& ws[w][self.workers@[w].consumed - 1].encoded == Result::<Vec<u8>, EncodeError>::Err(
            cause,
        )
    }

    /// The per-worker part of the pipeline invariant.
    pub open spec fn worker_inv(self, ws: Seq<Seq<Unit>>, w: int) -> bool {
        let t = self.workers@[w];
        &&& t.consumed <= ws[w].len()
        &&& (t.done ==> t.pending is None && (t.failed || t.consumed == ws[w].len()))
        &&& (t.failed ==> t.done && t.consumed >= 1 && !unit_ok(ws[w][t.consumed - 1]))
        &&& (t.pending matches Some(c) ==> {
            &&& !t.done
            &&& t.consumed >= 1
            &&& unit_ok(ws[w][t.consumed - 1])
            &&& c.seq == ws[w][t.consumed - 1].seq
            &&& c.bytes@ == unit_bytes(ws[w][t.consumed - 1])
        })
        &&& forall|i: int| 0 <= i < handed_count(t) ==> unit_ok(#[trigger] ws[w][i])
        &&& 0 <= self.emitted@[w] <= handed_count(t)
        &&& t.outcome.fired == (t.done && !t.failed)
        &&& self.lin.connected@[w] == !t.done
        &&& self.lin.qview(w).len() == handed_count(t) - self.emitted@[w]
        &&& forall|m: int|
            0 <= m < self.lin.qview(w).len() ==> (#[trigger] self.lin.qview(w)[m]).seq == ws[w][self.emitted@[w]
                + m].seq && self.lin.qview(w)[m].bytes@ == unit_bytes(
                ws[w][self.emitted@[w] + m],
            )
        &&& forall|j: int| 0 <= j < self.emitted@[w] ==> (#[trigger] ws[w][j]).seq < self.lin.next
    }

    /// The error-bookkeeping part of the invariant: a recorded error names
    /// the least failing sequence among the workers that have failed so
    /// far, together with its cause.
    pub open spec fn error_inv(self, ws: Seq<Seq<Unit>>) -> bool {
        match self.error {
            None => forall|w: int| 0 <= w < ws.len() ==> !(#[trigger] self.workers@[w]).failed,
            Some(e) => {
                &&& e matches SinkError::Encode { seq, cause }
                &&& exists|w: int|
                    0 <= w < ws.len() && #[trigger] self.failed_with(ws, w, e->Encode_seq, e->Encode_cause)
                &&& forall|w: int|
                    0 <= w < ws.len() && (#[trigger] self.workers@[w]).failed ==> ws[w][self.workers@[w].consumed
                        - 1].seq >= e->Encode_seq
            },
        }
    }

    /// The pipeline invariant, relative to the (fixed) input streams.
    pub open spec fn inv(self, ws: Seq<Seq<Unit>>) -> bool {
        &&& wf_inputs(ws)
        &&& self.workers@.len() == ws.len()
        &&& self.emitted@.len() == ws.len()
        &&& self.lin.wf()
        &&& self.lin.num_producers() == ws.len()
        &&& self.lin.next <= total_units(ws)
        &&& forall|w: int| 0 <= w < ws.len() ==> #[trigger] self.worker_inv(ws, w)
        &&& forall|w: int, j: int|
            0 <= w < ws.len() && 0 <= j < ws[w].len() && (#[trigger] ws[w][j]).seq < self.lin.next
                ==> j < self.emitted@[w]
        &&& self.written@ == ordered_bytes(ws, self.lin.next as int)
        &&& self.sink_outcome.fired == self.finished
        &&& (self.finished ==> forall|w: int|
            0 <= w < ws.len() ==> (#[trigger] self.workers@[w]).done && self.lin.qview(w).len()
                == 0)
        &&& self.error_inv(ws)
    }

    /// Worker `w` can take a scheduling step that makes progress: it is not
    /// terminated, and if it holds an encoded chunk, its linearizer buffer
    /// has room.
    pub open spec fn worker_runnable(self, ws: Seq<Seq<Unit>>, w: int) -> bool {
        let t = self.workers@[w];
        &&& !t.done
        &&& (t.pending is Some ==> self.lin.qview(w).len() < self.lin.capacity)
    }

    /// The commit task can take a step that makes progress: it is not
    /// terminated, and the linearizer yields either the next chunk or
    /// completion.
    pub open spec fn commit_runnable(self) -> bool {
        &&& !self.finished
        &&& {
            ||| exists|q: int|
                0 <= q < self.lin.num_producers() && (#[trigger] self.lin.qview(q)).len() > 0
                    && self.lin.qview(q)[0].seq == self.lin.next
            ||| forall|q: int|
                0 <= q < self.lin.num_producers() ==> !(#[trigger] self.lin.producer_live(q))
        }
    }

    /// No task can make progress: every suspended task stays suspended
    /// forever (for a clean run this means everything has terminated).
    pub open spec fn quiescent(self, ws: Seq<Seq<Unit>>) -> bool {
        &&& forall|w: int| 0 <= w < ws.len() ==> !self.worker_runnable(ws, w)
        &&& !self.commit_runnable()
    }

    /// A fresh pipeline over the given per-worker input streams, with the
    /// given per-producer linearizer buffer capacity.
    pub fn new(inputs: &Vec<Vec<Unit>>, capacity: usize) -> (p: Pipeline)
        requires
            wf_inputs(iview(*inputs)),
            capacity >= 1,
        ensures
            p.inv(iview(*inputs)),
            p.num_workers() == inputs@.len(),
            p.lin.capacity == capacity,
            p.lin.next == 0,
            p.written@.len() == 0,
            !p.finished,
            p.error is None,
            forall|w: int|
                0 <= w < inputs@.len() ==> (#[trigger] p.workers@[w]).sizer.allocation_size
                    == crate::worker::DEFAULT_ALLOCATION_SIZE,
    {
        let ghost ws = iview(*inputs);
        let n = inputs.len();
        let mut workers: Vec<WorkerTask> = Vec::new();
        let mut w: usize = 0;
        while w < n
            invariant
                w <= n,
                workers@.len() == w,
                forall|v: int|
                    0 <= v < w ==> (#[trigger] workers@[v]) == (WorkerTask {
                        consumed: 0,
                        pending: None,
                        failed: false,
                        done: false,
                        sizer: EncodeWorker { allocation_size: crate::worker::DEFAULT_ALLOCATION_SIZE },
                        outcome: CompletionOutcome { fired: false },
                    }),
            decreases n - w,
        {
            workers.push(
                WorkerTask {
                    consumed: 0,
                    pending: None,
                    failed: false,
                    done: false,
                    sizer: EncodeWorker::new(),
                    outcome: CompletionOutcome::new(),
                },
            );
            w = w + 1;
        }
        let lin = Linearizer::new(n, capacity);
        let p = Pipeline {
            workers,
            lin,
            written: Vec::new(),
            finished: false,
            sink_outcome: CompletionOutcome::new(),
            error: None,
            emitted: Ghost(Seq::new(ws.len() as nat, |w: int| 0int)),
        };
        proof {
            lemma_total_units_nonneg(ws);
            assert(ws.len() == inputs@.len());
            assert forall|v: int| 0 <= v < ws.len() implies #[trigger] p.worker_inv(ws, v) by {
                assert(p.lin.qview(v).len() == 0);
                assert(p.workers@[v].consumed == 0);
                assert(p.emitted@[v] == 0);
            }
            assert(p.written@ =~= ordered_bytes(ws, 0));
            assert forall|w2: int, j: int|
                0 <= w2 < ws.len() && 0 <= j < ws[w2].len() && (#[trigger] ws[w2][j]).seq
                    < p.lin.next implies j < p.emitted@[w2] by {}
        }
        p
    }

    /// A placeholder task used only while a real task is temporarily moved
    /// out of the worker vector.
    fn vacant_task() -> (t: WorkerTask) {
        WorkerTask {
            consumed: 0,
            pending: None,
            failed: false,
            done: false,
            sizer: EncodeWorker::new(),
            outcome: CompletionOutcome::new(),
        }
    }

    /// One scheduling quantum of encode worker `w`. Returns whether the
    /// task made progress; a task that would suspend (its buffer is full)
    /// or has terminated leaves the state untouched. The buffer-size
    /// estimate never decreases.
    #[verifier::rlimit(100)]
    pub fn step_worker(&mut self, w: usize, inputs: &Vec<Vec<Unit>>) -> (progressed: bool)
        requires
            old(self).inv(iview(*inputs)),
            w < old(self).num_workers(),
        ensures
            final(self).inv(iview(*inputs)),
            final(self).num_workers() == old(self).num_workers(),
            final(self).lin.capacity == old(self).lin.capacity,
            final(self).finished == old(self).finished,
            final(self).written@ == old(self).written@,
            progressed ==> pipe_measure(*final(self), iview(*inputs)) < pipe_measure(
                *old(self),
                iview(*inputs),
            ),
            !progressed ==> *final(self) == *old(self),
            !progressed ==> !old(self).worker_runnable(iview(*inputs), w as int),
            final(self).workers@[w as int].sizer.allocation_size >= old(self).workers@[w as int].sizer.allocation_size,
            forall|v: int|
                0 <= v < old(self).num_workers() && v != w ==> final(self).workers@[v] == old(
                    self,
                ).workers@[v],
    {
        let ghost ws = iview(*inputs);
        let ghost prior = *self;
        proof {
            assert(prior.worker_inv(ws, w as int));
            assert(ws[w as int] == inputs@[w as int]@);
        }
        if self.workers[w].done {
            return false;
        }
        proof {
            assert(!prior.finished) by {
                if prior.finished {
                    assert(prior.workers@[w as int].done);
                }
            }
        }
        if self.workers[w].pending.is_some() {
            if !self.lin.has_room(w) {
                return false;
            }
            // hand the chunk to the linearizer; the admission token is
            // dropped here, freeing one slot of upstream capacity
            let mut task = Self::vacant_task();
            self.workers.set_and_swap(w, &mut task);
            let WorkerTask { consumed, pending, failed, done, sizer, outcome } = task;
            let chunk = pending.unwrap();
            let ghost em = prior.emitted@[w as int];
            let ghost j0 = consumed - 1;
            proof {
                assert(chunk.seq == ws[w as int][j0].seq);
                if ws[w as int][j0].seq < prior.lin.next {
                    assert(j0 < em);
                }
                if prior.lin.qview(w as int).len() > 0 {
                    let last = prior.lin.qview(w as int).len() - 1;
                    assert(prior.lin.qview(w as int)[last].seq == ws[w as int][em + last].seq);
                    assert(stream_ordered(ws[w as int]));
                }
                assert forall|q: int, a: int|
                    0 <= q < prior.lin.num_producers() && 0 <= a < prior.lin.qview(q).len() implies
                    (#[trigger] prior.lin.qview(q)[a]).seq != chunk.seq by {
                    assert(prior.worker_inv(ws, q));
                    assert(prior.lin.qview(q)[a].seq == ws[q][prior.emitted@[q] + a].seq);
                    assert(distinct_seqs(ws));
                }
            }
            self.lin.insert(w, chunk);
            self.workers.set(
                w,
                WorkerTask { consumed, pending: None, failed, done, sizer, outcome },
            );
            proof {
                assert(self.worker_inv(ws, w as int)) by {
                    assert(self.lin.qview(w as int) == prior.lin.qview(w as int).push(chunk));
                    assert forall|m: int|
                        0 <= m < self.lin.qview(w as int).len() implies (#[trigger] self.lin.qview(
                        w as int,
                    )[m]).seq == ws[w as int][em + m].seq && self.lin.qview(w as int)[m].bytes@
                        == unit_bytes(ws[w as int][em + m]) by {
                        if m < prior.lin.qview(w as int).len() {
                            assert(self.lin.qview(w as int)[m] == prior.lin.qview(w as int)[m]);
                        } else {
                            assert(self.lin.qview(w as int)[m] == chunk);
                        }
                    }
                }
                assert forall|v: int| 0 <= v < ws.len() implies #[trigger] self.worker_inv(
                    ws,
                    v,
                ) by {
                    if v != w {
                        assert(prior.worker_inv(ws, v));
                        assert(self.lin.qview(v) == prior.lin.qview(v));
                        assert(self.workers@[v] == prior.workers@[v]);
                    }
                }
                assert(self.error_inv(ws)) by {
                    lemma_error_inv_frame(prior, *self, ws);
                }
                assert forall|v: int|
                    0 <= v < ws.len() && v != w implies #[trigger] same_contribution(
                    prior,
                    *self,
                    ws,
                    v,
                ) by {
                    assert(self.workers@[v] == prior.workers@[v]);
                    assert(self.lin.qview(v) == prior.lin.qview(v));
                }
                lemma_measure_frame(prior, *self, ws, ws.len() as int, w as int, -1);
            }
            return true;
        }
        let consumed_now = self.workers[w].consumed;
        if consumed_now < inputs[w].len() {
            // receive the next unit; the encode transform's outcome travels
            // with it
            let unit = &inputs[w][consumed_now];
            let seq = unit.seq;
            let mut task = Self::vacant_task();
            self.workers.set_and_swap(w, &mut task);
            proof {
                assert(unit == ws[w as int][consumed_now as int]);
            }
            match &unit.encoded {
                Ok(bytes) => {
                    let chunk = task.sizer.encode_into_chunk(seq, bytes.as_slice());
                    task.consumed = task.consumed + 1;
                    task.pending = Some(chunk);
                    self.workers.set(w, task);
                    proof {
                        assert(self.worker_inv(ws, w as int)) by {
                            assert(self.lin.qview(w as int) == prior.lin.qview(w as int));
                        }
                        assert forall|v: int| 0 <= v < ws.len() implies #[trigger] self.worker_inv(
                            ws,
                            v,
                        ) by {
                            if v != w {
                                assert(prior.worker_inv(ws, v));
                                assert(self.workers@[v] == prior.workers@[v]);
                            }
                        }
                        assert(self.error_inv(ws)) by {
                            lemma_error_inv_frame(prior, *self, ws);
                        }
                        assert forall|v: int|
                            0 <= v < ws.len() && v != w implies #[trigger] same_contribution(
                            prior,
                            *self,
                            ws,
                            v,
                        ) by {
                            assert(self.workers@[v] == prior.workers@[v]);
                            assert(self.lin.qview(v) == prior.lin.qview(v));
                        }
                        lemma_measure_frame(prior, *self, ws, ws.len() as int, w as int, -1);
                    }
                    true
                },
                Err(cause) => {
                    // the transform failed: this worker's task terminates
                    // with the error; its linearizer endpoint is released
                    task.consumed = task.consumed + 1;
                    task.failed = true;
                    task.done = true;
                    self.workers.set(w, task);
                    self.lin.close(w);
                    let new_err = SinkError::Encode { seq, cause: *cause };
                    match self.error {
                        None => {
                            self.error = Some(new_err);
                        },
                        Some(SinkError::Encode { seq: s0, cause: c0 }) => {
                            if seq < s0 {
                                self.error = Some(new_err);
                            } else {
                                self.error = Some(SinkError::Encode { seq: s0, cause: c0 });
                            }
                        },
                        Some(SinkError::Io { written }) => {
                            proof {
                                assert(false);
                            }
                        },
                    }
                    proof {
                        assert(self.worker_inv(ws, w as int)) by {
                            assert(self.lin.qview(w as int) == prior.lin.qview(w as int));
                        }
                        assert forall|v: int| 0 <= v < ws.len() implies #[trigger] self.worker_inv(
                            ws,
                            v,
                        ) by {
                            if v != w {
                                assert(prior.worker_inv(ws, v));
                                assert(self.lin.qview(v) == prior.lin.qview(v));
                                assert(self.workers@[v] == prior.workers@[v]);
                            }
                        }
                        assert(self.error_inv(ws)) by {
                            assert(unit.encoded == Result::<Vec<u8>, EncodeError>::Err(*cause));
                            assert(self.failed_with(ws, w as int, seq, *cause));
                            assert(!prior.workers@[w as int].failed);
                            lemma_error_update(prior, *self, ws, w as int, seq, *cause);
                        }
                        assert forall|v: int|
                            0 <= v < ws.len() && v != w implies #[trigger] same_contribution(
                            prior,
                            *self,
                            ws,
                            v,
                        ) by {
                            assert(self.workers@[v] == prior.workers@[v]);
                            assert(self.lin.qview(v) == prior.lin.qview(v));
                        }
                        lemma_measure_frame(prior, *self, ws, ws.len() as int, w as int, -4);
                    }
                    true
                },
            }
        } else {
            // end of stream: fire the completion handshake and release the
            // linearizer endpoint
            let mut task = Self::vacant_task();
            self.workers.set_and_swap(w, &mut task);
            task.done = true;
            task.outcome.stopped();
            self.workers.set(w, task);
            self.lin.close(w);
            proof {
                assert(self.worker_inv(ws, w as int)) by {
                    assert(self.lin.qview(w as int) == prior.lin.qview(w as int));
                }
                assert forall|v: int| 0 <= v < ws.len() implies #[trigger] self.worker_inv(
                    ws,
                    v,
                ) by {
                    if v != w {
                        assert(prior.worker_inv(ws, v));
                        assert(self.lin.qview(v) == prior.lin.qview(v));
                        assert(self.workers@[v] == prior.workers@[v]);
                    }
                }
                assert(self.error_inv(ws)) by {
                    lemma_error_inv_frame(prior, *self, ws);
                }
                assert forall|v: int|
                    0 <= v < ws.len() && v != w implies #[trigger] same_contribution(
                    prior,
                    *self,
                    ws,
                    v,
                ) by {
                    assert(self.workers@[v] == prior.workers@[v]);
                    assert(self.lin.qview(v) == prior.lin.qview(v));
                }
                lemma_measure_frame(prior, *self, ws, ws.len() as int, w as int, -1);
            }
            true
        }
    }

    /// One scheduling quantum of the commit task: take the next chunk from
    /// the linearizer and write it out in full, or terminate once every
    /// producer has completed and the buffers are drained. A poll that
    /// would suspend reports no progress and leaves the state untouched.
    #[verifier::rlimit(100)]
    pub fn step_commit(&mut self, inputs: &Vec<Vec<Unit>>) -> (progressed: bool)
        requires
            old(self).inv(iview(*inputs)),
        ensures
            final(self).inv(iview(*inputs)),
            final(self).num_workers() == old(self).num_workers(),
            final(self).lin.capacity == old(self).lin.capacity,
            final(self).workers@ == old(self).workers@,
            final(self).error == old(self).error,
            progressed ==> pipe_measure(*final(self), iview(*inputs)) < pipe_measure(
                *old(self),
                iview(*inputs),
            ),
            !progressed ==> *final(self) == *old(self),
            !progressed ==> !old(self).commit_runnable(),
    {
        let ghost ws = iview(*inputs);
        let ghost prior = *self;
        if self.finished {
            return false;
        }
        proof {
            assert(self.lin.next < u64::MAX);
        }
        let r = self.lin.poll();
        match r {
            LinearizerPoll::Ready(c) => {
                let ghost gc = c;
                let ghost q = choose|q: int|
                    Linearizer::popped_from(prior.lin, self.lin, q, gc);
                let ghost em = prior.emitted@[q];
                let EncodedChunk { seq: _, mut bytes } = c;
                self.written.append(&mut bytes);
                proof {
                    self.emitted@ = prior.emitted@.update(q, em + 1);
                }
                proof {
                    assert(Linearizer::popped_from(prior.lin, self.lin, q, gc));
                    assert(prior.worker_inv(ws, q));
                    assert(prior.lin.qview(q)[0] == gc);
                    assert(gc.seq == ws[q][em].seq && gc.bytes@ == unit_bytes(ws[q][em]));
                    assert(gc.seq == prior.lin.next);
                    assert(ws[q][em].seq < total_units(ws));
                    lemma_unit_at(ws, q, em);
                    assert(unit_at(ws, prior.lin.next as int) == ws[q][em]);
                    assert(self.written@ =~= ordered_bytes(ws, self.lin.next as int));
                    assert(self.worker_inv(ws, q)) by {
                        assert(self.lin.qview(q) == prior.lin.qview(q).subrange(
                            1,
                            prior.lin.qview(q).len() as int,
                        ));
                        assert forall|m: int|
                            0 <= m < self.lin.qview(q).len() implies (#[trigger] self.lin.qview(
                            q,
                        )[m]).seq == ws[q][self.emitted@[q] + m].seq && self.lin.qview(
                            q,
                        )[m].bytes@ == unit_bytes(ws[q][self.emitted@[q] + m]) by {
                            assert(self.lin.qview(q)[m] == prior.lin.qview(q)[m + 1]);
                        }
                        assert forall|j: int| 0 <= j < self.emitted@[q] implies (
                        #[trigger] ws[q][j]).seq < self.lin.next by {
                            if j < em {
                                assert(ws[q][j].seq < prior.lin.next);
                            } else {
                                assert(j == em);
                            }
                        }
                    }
                    assert forall|v: int| 0 <= v < ws.len() implies #[trigger] self.worker_inv(
                        ws,
                        v,
                    ) by {
                        if v != q {
                            assert(prior.worker_inv(ws, v));
                            assert(self.lin.qview(v) == prior.lin.qview(v));
                            assert(self.emitted@[v] == prior.emitted@[v]);
                            assert forall|j: int| 0 <= j < self.emitted@[v] implies (
                            #[trigger] ws[v][j]).seq < self.lin.next by {
                                assert(ws[v][j].seq < prior.lin.next);
                            }
                        }
                    }
                    assert forall|w2: int, j: int|
                        0 <= w2 < ws.len() && 0 <= j < ws[w2].len() && (#[trigger] ws[w2][j]).seq
                            < self.lin.next implies j < self.emitted@[w2] by {
                        if ws[w2][j].seq < prior.lin.next {
                            assert(j < prior.emitted@[w2]);
                        } else {
                            assert(ws[w2][j].seq == ws[q][em].seq);
                            assert(distinct_seqs(ws));
                            assert(w2 == q && j == em);
                        }
                    }
                    assert(self.error_inv(ws)) by {
                        lemma_error_inv_frame(prior, *self, ws);
                    }
                    assert forall|v: int|
                        0 <= v < ws.len() && v != q implies #[trigger] same_contribution(
                        prior,
                        *self,
                        ws,
                        v,
                    ) by {
                        assert(self.lin.qview(v) == prior.lin.qview(v));
                    }
                    lemma_measure_frame(prior, *self, ws, ws.len() as int, q, -1);
                }
                true
            },
            LinearizerPoll::Finished => {
                self.finished = true;
                self.sink_outcome.stopped();
                proof {
                    assert forall|v: int| 0 <= v < ws.len() implies #[trigger] self.worker_inv(
                        ws,
                        v,
                    ) by {
                        assert(prior.worker_inv(ws, v));
                    }
                    assert forall|v: int|
                        0 <= v < ws.len() implies (#[trigger] self.workers@[v]).done
                        && self.lin.qview(v).len() == 0 by {
                        assert(!prior.lin.producer_live(v));
                        assert(prior.worker_inv(ws, v));
                    }
                    assert(self.error_inv(ws)) by {
                        lemma_error_inv_frame(prior, *self, ws);
                    }
                    assert forall|v: int|
                        0 <= v < ws.len() && v != 0 implies #[trigger] same_contribution(
                        prior,
                        *self,
                        ws,
                        v,
                    ) by {}
                    if ws.len() > 0 {
                        lemma_measure_frame(prior, *self, ws, ws.len() as int, 0, 0);
                    }
                }
                true
            },
            LinearizerPoll::Pending => {
                proof {
                    assert(!prior.commit_runnable()) by {
                        assert forall|q2: int|
                            0 <= q2 < prior.lin.num_producers() && (#[trigger] prior.lin.qview(
                            q2,
                        )).len() > 0 implies prior.lin.qview(q2)[0].seq != prior.lin.next by {}
                    }
                }
                false
            },
        }
    }

}

/// One task's contribution to the termination measure: remaining receives,
/// a held chunk, and the final close step.
pub open spec fn task_measure(p: Pipeline, ws: Seq<Seq<Unit>>, w: int) -> int {
    let t = p.workers@[w];
    3 * (ws[w].len() - t.consumed) + (if t.pending is Some {
        2int
    } else {
        0int
    }) + (if t.done {
        0int
    } else {
        1int
    })
}

/// The termination measure over workers below `k`, including their
/// buffered chunks.
pub open spec fn measure_below(p: Pipeline, ws: Seq<Seq<Unit>>, k: int) -> int
    decreases k,
{
    if k <= 0 {
        0
    } else {
        measure_below(p, ws, k - 1) + task_measure(p, ws, k - 1) + p.lin.qview(k - 1).len()
    }
}

/// The whole pipeline's termination measure: every progressing step
/// strictly decreases it.
pub open spec fn pipe_measure(p: Pipeline, ws: Seq<Seq<Unit>>) -> int {
    measure_below(p, ws, ws.len() as int) + if p.finished {
        0int
    } else {
        1int
    }
}

/// Worker `v` contributes the same measure in both states.
spec fn same_contribution(p1: Pipeline, p2: Pipeline, ws: Seq<Seq<Unit>>, v: int) -> bool {
    task_measure(p2, ws, v) == task_measure(p1, ws, v) && p2.lin.qview(v).len() == p1.lin.qview(
        v,
    ).len()
}

/// If only worker `w`'s contribution changed, by `delta`, the measure
/// changed by `delta`.
proof fn lemma_measure_frame(
    p1: Pipeline,
    p2: Pipeline,
    ws: Seq<Seq<Unit>>,
    k: int,
    w: int,
    delta: int,
)
    requires
        0 <= w < k,
        task_measure(p2, ws, w) + p2.lin.qview(w).len() == task_measure(p1, ws, w) + p1.lin.qview(
            w,
        ).len() + delta,
        forall|v: int| 0 <= v < k && v != w ==> #[trigger] same_contribution(p1, p2, ws, v),
    ensures
        measure_below(p2, ws, k) == measure_below(p1, ws, k) + delta,
    decreases k,
{
    if w == k - 1 {
        lemma_measure_same(p1, p2, ws, k - 1, w);
    } else {
        lemma_measure_frame(p1, p2, ws, k - 1, w, delta);
        assert(same_contribution(p1, p2, ws, k - 1));
    }
}

/// Workers below `k` (none of which is `w`) contribute the same measure in
/// both states.
proof fn lemma_measure_same(p1: Pipeline, p2: Pipeline, ws: Seq<Seq<Unit>>, k: int, w: int)
    requires
        forall|v: int| 0 <= v < k && v != w ==> #[trigger] same_contribution(p1, p2, ws, v),
        k <= w,
    ensures
        measure_below(p2, ws, k) == measure_below(p1, ws, k),
    decreases k,
{
    if k > 0 {
        lemma_measure_same(p1, p2, ws, k - 1, w);
        assert(same_contribution(p1, p2, ws, k - 1));
    }
}

/// The measure is never negative while the invariant holds.
proof fn lemma_measure_nonneg(p: Pipeline, ws: Seq<Seq<Unit>>, k: int)
    requires
        p.inv(ws),
        0 <= k <= ws.len(),
    ensures
        measure_below(p, ws, k) >= 0,
    decreases k,
{
    if k > 0 {
        lemma_measure_nonneg(p, ws, k - 1);
        assert(p.worker_inv(ws, k - 1));
    }
}

/// Recording a new failure keeps the error invariant: the recorded error
/// stays the least failing sequence seen, with its cause.
proof fn lemma_error_update(
    prior: Pipeline,
    cur: Pipeline,
    ws: Seq<Seq<Unit>>,
    w: int,
    seq: u64,
    cause: EncodeError,
)
    requires
        prior.error_inv(ws),
        prior.workers@.len() == ws.len(),
        cur.workers@.len() == ws.len(),
        0 <= w < ws.len(),
        !prior.workers@[w].failed,
        cur.failed_with(ws, w, seq, cause),
        forall|v: int|
            0 <= v < ws.len() && v != w ==> #[trigger] cur.workers@[v] == prior.workers@[v],
        cur.error == (match prior.error {
            None => Some(SinkError::Encode { seq, cause }),
            Some(e0) => if seq < e0->Encode_seq {
                Some(SinkError::Encode { seq, cause })
            } else {
                Some(e0)
            },
        }),
    ensures
        cur.error_inv(ws),
{
    let e = cur.error->0;
    match prior.error {
        None => {
            assert(e->Encode_seq == seq);
            assert forall|v: int|
                0 <= v < ws.len() && (#[trigger] cur.workers@[v]).failed implies ws[v][cur.workers@[v].consumed
                - 1].seq >= e->Encode_seq by {
                if v != w {
                    assert(cur.workers@[v] == prior.workers@[v]);
                    assert(!prior.workers@[v].failed);
                }
            }
            assert(cur.failed_with(ws, w, e->Encode_seq, e->Encode_cause));
        },
        Some(e0) => {
            let w0 = choose|v: int|
                0 <= v < ws.len() && #[trigger] prior.failed_with(
                    ws,
                    v,
                    e0->Encode_seq,
                    e0->Encode_cause,
                );
            assert(prior.workers@[w0].failed);
            assert(w0 != w);
            assert(cur.workers@[w0] == prior.workers@[w0]);
            assert(cur.failed_with(ws, w0, e0->Encode_seq, e0->Encode_cause));
            if seq < e0->Encode_seq {
                assert(cur.failed_with(ws, w, e->Encode_seq, e->Encode_cause));
            } else {
                assert(e == e0);
            }
            assert forall|v: int|
                0 <= v < ws.len() && (#[trigger] cur.workers@[v]).failed implies ws[v][cur.workers@[v].consumed
                - 1].seq >= e->Encode_seq by {
                if v != w {
                    assert(cur.workers@[v] == prior.workers@[v]);
                    assert(prior.workers@[v].failed);
                    assert(ws[v][prior.workers@[v].consumed - 1].seq >= e0->Encode_seq);
                }
            }
        },
    }
}

/// Framing for the error bookkeeping: if no worker's failure state changed
/// and the error field is unchanged, the error invariant carries over.
proof fn lemma_error_inv_frame(p1: Pipeline, p2: Pipeline, ws: Seq<Seq<Unit>>)
    requires
        p1.error_inv(ws),
        p2.error == p1.error,
        p2.workers@.len() == p1.workers@.len(),
        p1.workers@.len() == ws.len(),
        forall|v: int|
            0 <= v < ws.len() ==> (#[trigger] p2.workers@[v]).failed == p1.workers@[v].failed && (
            p1.workers@[v].failed ==> p2.workers@[v].consumed == p1.workers@[v].consumed),
    ensures
        p2.error_inv(ws),
{
    match p1.error {
        None => {
        },
        Some(e) => {
            let w0 = choose|v: int|
                0 <= v < ws.len() && #[trigger] p1.failed_with(ws, v, e->Encode_seq, e->Encode_cause);
            assert(p2.failed_with(ws, w0, e->Encode_seq, e->Encode_cause));
            assert forall|v: int|
                0 <= v < ws.len() && (#[trigger] p2.workers@[v]).failed implies ws[v][p2.workers@[v].consumed
                - 1].seq >= e->Encode_seq by {
                assert(p1.workers@[v].failed);
            }
        },
    }
}

/// Everything already committed is correct: every sequence below the next
/// expected one belongs to a successfully encoded unit.
proof fn lemma_emitted_ok(p: Pipeline, ws: Seq<Seq<Unit>>)
    requires
        p.inv(ws),
    ensures
        all_ok_below(ws, p.lin.next as int),
{
    assert forall|s: int| 0 <= s < p.lin.next as int implies unit_ok(
        #[trigger] unit_at(ws, s),
    ) by {
        assert(has_seq(ws, s));
        let (w, i) = choose|w: int, i: int|
            0 <= w < ws.len() && 0 <= i < ws[w].len() && ws[w][i].seq == s;
        assert(p.worker_inv(ws, w));
        assert(i < p.emitted@[w]);
        assert(unit_ok(ws[w][i]));
        lemma_unit_at(ws, w, i);
    }
}

/// In a quiescent pipeline that has not reached the end of the sequence
/// space, the unit with the next expected sequence is exactly a failed
/// worker's failing unit: nothing else can stop the pipeline.
proof fn lemma_stuck_at_failure(p: Pipeline, ws: Seq<Seq<Unit>>)
    requires
        p.inv(ws),
        p.quiescent(ws),
        p.lin.next < total_units(ws),
    ensures
        exists|w: int|
            0 <= w < ws.len() && (#[trigger] p.workers@[w]).failed && ws[w][p.workers@[w].consumed
                - 1].seq == p.lin.next,
{
    let s = p.lin.next as int;
    assert(has_seq(ws, s));
    let (wq, iq) = choose|w: int, i: int|
        0 <= w < ws.len() && 0 <= i < ws[w].len() && ws[w][i].seq == s;
    let t = p.workers@[wq];
    assert(p.worker_inv(ws, wq));
    assert(stream_ordered(ws[wq]));
    // the units before `iq` in this stream carry smaller sequences, so they
    // have been emitted, and `iq` itself has not: emitted == iq
    assert forall|j: int|
        0 <= j < iq implies (#[trigger] ws[wq][j]).seq < p.lin.next && j < p.emitted@[wq] by {
        assert(ws[wq][j].seq < ws[wq][iq].seq);
    }
    assert(p.emitted@[wq] == iq) by {
        if p.emitted@[wq] > iq {
            assert(ws[wq][iq].seq < p.lin.next);
        }
        if p.emitted@[wq] < iq {
            assert(iq - 1 < p.emitted@[wq]);
        }
    }
    // a buffered chunk for `iq` would make the commit task runnable
    assert(handed_count(t) <= iq) by {
        if handed_count(t) > iq {
            assert(p.lin.qview(wq).len() > 0);
            assert(p.lin.qview(wq)[0].seq == ws[wq][iq].seq);
            if p.finished {
                assert(p.lin.qview(wq).len() == 0);
            } else {
                assert(p.commit_runnable());
            }
        }
    }
    if t.failed {
        assert(handed_count(t) == t.consumed - 1);
        assert(iq <= t.consumed - 1) by {
            if iq > t.consumed - 1 {
                assert(ws[wq][t.consumed - 1].seq < ws[wq][iq].seq);
                assert(t.consumed - 1 < p.emitted@[wq]);
            }
        }
        assert(iq == t.consumed - 1);
        assert(p.workers@[wq].failed && ws[wq][p.workers@[wq].consumed - 1].seq == p.lin.next);
    } else {
        // a healthy worker here would still be runnable: contradiction
        assert(!p.worker_runnable(ws, wq));
        if t.done {
            assert(t.consumed == ws[wq].len());
            assert(handed_count(t) == t.consumed as int);
            assert(false);
        } else {
            if t.pending is Some {
                assert(handed_count(t) == t.consumed - 1);
                assert(iq == t.consumed - 1) by {
                    if iq > t.consumed - 1 {
                        assert(ws[wq][t.consumed - 1].seq < ws[wq][iq].seq);
                        assert(t.consumed - 1 < p.emitted@[wq]);
                    }
                }
                assert(p.lin.qview(wq).len() == 0);
                assert(p.lin.qview(wq).len() < p.lin.capacity);
                assert(false);
            } else {
                assert(false);
            }
        }
        assert(false);
    }
}

/// What a quiescent pipeline guarantees: the committed bytes and the
/// surfaced error satisfy the sink contract, and on a clean run every task
/// has terminated, every completion handshake has fired, and the buffers
/// are empty.
pub proof fn lemma_quiescent_final(p: Pipeline, ws: Seq<Seq<Unit>>)
    requires
        p.inv(ws),
        p.quiescent(ws),
    ensures
        sink_run_post(ws, p.written@, p.error),
        p.error is None ==> p.finished && p.sink_outcome.fired && forall|w: int|
            0 <= w < ws.len() ==> (#[trigger] p.workers@[w]).done && p.workers@[w].outcome.fired
                && p.lin.qview(w).len() == 0,
{
    let total = total_units(ws);
    let next = p.lin.next as int;
    lemma_emitted_ok(p, ws);
    match p.error {
        None => {
            // no worker has failed, so the pipeline cannot be stuck short
            // of the end
            assert(next == total) by {
                if next < total {
                    lemma_stuck_at_failure(p, ws);
                    let w0 = choose|w: int|
                        0 <= w < ws.len() && (#[trigger] p.workers@[w]).failed
                            && ws[w][p.workers@[w].consumed - 1].seq == p.lin.next;
                    assert(!p.workers@[w0].failed);
                }
            }
            // every unit is emitted, so every worker has terminated and
            // every buffer is drained
            assert forall|w: int|
                0 <= w < ws.len() implies (#[trigger] p.workers@[w]).done
                && p.workers@[w].outcome.fired && p.lin.qview(w).len() == 0 by {
                let t = p.workers@[w];
                assert(p.worker_inv(ws, w));
                assert forall|j: int|
                    0 <= j < ws[w].len() implies (#[trigger] ws[w][j]).seq < total_units(ws) && j
                        < p.emitted@[w] by {}
                assert(p.emitted@[w] == ws[w].len() && handed_count(t) == ws[w].len()
                    && t.consumed == ws[w].len() && t.pending is None && !t.failed) by {
                    if ws[w].len() > 0 {
                        assert(ws[w][ws[w].len() - 1].seq < total_units(ws));
                        assert(ws[w].len() - 1 < p.emitted@[w]);
                    }
                }
                assert(t.done) by {
                    if !t.done {
                        assert(p.worker_runnable(ws, w));
                    }
                }
            }
            assert(p.finished) by {
                if !p.finished {
                    assert forall|q: int|
                        0 <= q < p.lin.num_producers() implies !(#[trigger] p.lin.producer_live(
                        q,
                    )) by {
                        assert(p.worker_inv(ws, q));
                        assert(p.workers@[q].done);
                    }
                    assert(p.commit_runnable());
                }
            }
            assert(p.written@ == ordered_bytes(ws, total));
        },
        Some(e) => {
            let k = e->Encode_seq;
            let w0 = choose|v: int|
                0 <= v < ws.len() && #[trigger] p.failed_with(ws, v, e->Encode_seq, e->Encode_cause);
            let c0 = p.workers@[w0].consumed - 1;
            assert(p.worker_inv(ws, w0));
            assert(ws[w0][c0].seq == k && !unit_ok(ws[w0][c0]));
            assert(k < total);
            lemma_unit_at(ws, w0, c0);
            assert(next <= k) by {
                if next > k {
                    assert(c0 < p.emitted@[w0]);
                    assert(handed_count(p.workers@[w0]) == c0);
                }
            }
            assert(next == k) by {
                if next < k {
                    lemma_stuck_at_failure(p, ws);
                    let w1 = choose|w: int|
                        0 <= w < ws.len() && (#[trigger] p.workers@[w]).failed
                            && ws[w][p.workers@[w].consumed - 1].seq == p.lin.next;
                    assert(ws[w1][p.workers@[w1].consumed - 1].seq >= k);
                }
            }
            assert(p.written@ == ordered_bytes(ws, k as int));
        },
    }
}

/// Run a whole sink pipeline over the given per-worker input streams.
///
/// `schedule` is an arbitrary interleaving choice: entry `t < inputs.len()`
/// gives one quantum to encode worker `t`, any other entry to the commit
/// task. After the schedule is exhausted the pipeline is driven to
/// quiescence. The contract never mentions the schedule: the bytes handed
/// to the sink and the surfaced error are determined by the inputs alone,
/// whatever the interleaving — on success the sequence-ordered
/// concatenation of every unit's bytes, on failure exactly the bytes of
/// the units before the least failing sequence, with that failure
/// surfaced. On a clean run every task terminates, every completion
/// handshake fires, and the buffers are drained.
pub fn run_sink(inputs: &Vec<Vec<Unit>>, capacity: usize, schedule: &Vec<usize>) -> (p: Pipeline)
    requires
        wf_inputs(iview(*inputs)),
        capacity >= 1,
    ensures
        p.inv(iview(*inputs)),
        p.quiescent(iview(*inputs)),
        sink_run_post(iview(*inputs), p.written@, p.error),
        p.error is None ==> p.finished && p.sink_outcome.fired && forall|w: int|
            0 <= w < iview(*inputs).len() ==> (#[trigger] p.workers@[w]).done
                && p.workers@[w].outcome.fired && p.lin.qview(w).len() == 0,
{
    let ghost ws = iview(*inputs);
    let n = inputs.len();
    let mut p = Pipeline::new(inputs, capacity);
    let mut si: usize = 0;
    while si < schedule.len()
        invariant
            p.inv(ws),
            ws == iview(*inputs),
            n == inputs@.len(),
            p.num_workers() == n as int,
            si <= schedule@.len(),
        decreases schedule@.len() - si,
    {
        let t = schedule[si];
        if t < n {
            p.step_worker(t, inputs);
        } else {
            p.step_commit(inputs);
        }
        si = si + 1;
    }
    loop
        invariant
            p.inv(ws),
            ws == iview(*inputs),
            n == inputs@.len(),
            p.num_workers() == n as int,
        ensures
            p.inv(ws),
            p.quiescent(ws),
        decreases pipe_measure(p, ws),
    {
        proof {
            lemma_measure_nonneg(p, ws, ws.len() as int);
        }
        let ghost sweep0 = p;
        let mut progressed = false;
        let mut w: usize = 0;
        while w < n
            invariant
                p.inv(ws),
                ws == iview(*inputs),
                n == inputs@.len(),
                p.num_workers() == n as int,
                w <= n,
                pipe_measure(p, ws) <= pipe_measure(sweep0, ws),
                progressed ==> pipe_measure(p, ws) < pipe_measure(sweep0, ws),
                !progressed ==> p == sweep0 && forall|v: int|
                    0 <= v < w ==> !sweep0.worker_runnable(ws, v),
            decreases n - w,
        {
            if p.step_worker(w, inputs) {
                progressed = true;
            }
            w = w + 1;
        }
        if p.step_commit(inputs) {
            progressed = true;
        }
        if !progressed {
            proof {
                assert(p.quiescent(ws));
            }
            break;
        }
        proof {
            lemma_measure_nonneg(p, ws, ws.len() as int);
        }
    }
    proof {
        lemma_quiescent_final(p, ws);
    }
    p
}

/// Order preservation and exactly-once emission are deterministic: any two
/// finished runs over the same well-formed input — whatever the worker
/// scheduling — hand the same bytes to the sink and surface the same
/// error.
pub proof fn lemma_run_deterministic(
    ws: Seq<Seq<Unit>>,
    written1: Seq<u8>,
    error1: Option<SinkError>,
    written2: Seq<u8>,
    error2: Option<SinkError>,
)
    requires
        wf_inputs(ws),
        sink_run_post(ws, written1, error1),
        sink_run_post(ws, written2, error2),
    ensures
        written1 == written2,
        error1 == error2,
{
    match (error1, error2) {
        (None, None) => {},
        (Some(e1), Some(e2)) => {
            let k1 = e1->Encode_seq;
            let k2 = e2->Encode_seq;
            if k1 < k2 {
                assert(unit_ok(unit_at(ws, k1 as int)));
            }
            if k2 < k1 {
                assert(unit_ok(unit_at(ws, k2 as int)));
            }
            assert(k1 == k2);
            assert(unit_at(ws, k1 as int).encoded == Result::<Vec<u8>, EncodeError>::Err(
                e1->Encode_cause,
            ));
            assert(unit_at(ws, k2 as int).encoded == Result::<Vec<u8>, EncodeError>::Err(
                e2->Encode_cause,
            ));
        },
        (None, Some(e2)) => {
            assert(unit_ok(unit_at(ws, e2->Encode_seq as int)));
        },
        (Some(e1), None) => {
            assert(unit_ok(unit_at(ws, e1->Encode_seq as int)));
        },
    }
}

/// The number of admission tokens the sink currently holds: one per
/// encoded-but-not-yet-handed-over chunk (counting workers below `k`).
pub open spec fn tokens_below(p: Pipeline, k: int) -> int
    decreases k,
{
    if k <= 0 {
        0
    } else {
        tokens_below(p, k - 1) + if p.workers@[k - 1].pending is Some {
            1int
        } else {
            0int
        }
    }
}

/// The number of chunks buffered inside the linearizer (counting producers
/// below `k`).
pub open spec fn buffered_below(p: Pipeline, k: int) -> int
    decreases k,
{
    if k <= 0 {
        0
    } else {
        buffered_below(p, k - 1) + p.lin.qview(k - 1).len()
    }
}

/// Backpressure bound: however slow the commit task is, the sink never
/// holds more than one admission token per worker, and the linearizer
/// never buffers more than `capacity` chunks per worker — upstream
/// admission stalls instead of memory growing without bound.
pub proof fn lemma_backpressure_bound(p: Pipeline, ws: Seq<Seq<Unit>>)
    requires
        p.inv(ws),
    ensures
        tokens_below(p, p.num_workers()) <= p.num_workers(),
        buffered_below(p, p.num_workers()) <= p.num_workers() * p.lin.capacity,
{
    lemma_bounds_below(p, ws, p.num_workers());
}

proof fn lemma_bounds_below(p: Pipeline, ws: Seq<Seq<Unit>>, k: int)
    requires
        p.inv(ws),
        0 <= k <= p.num_workers(),
    ensures
        tokens_below(p, k) <= k,
        buffered_below(p, k) <= k * p.lin.capacity,
    decreases k,
{
    if k > 0 {
        lemma_bounds_below(p, ws, k - 1);
        assert(p.worker_inv(ws, k - 1));
        assert(p.lin.qview(k - 1).len() <= p.lin.capacity);
        assert((k - 1) * p.lin.capacity + p.lin.capacity == k * p.lin.capacity) by (nonlinear_arith);
    }
}

} // verus!
