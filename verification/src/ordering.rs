//! The ordering stage: listener threads note each message's timestamp on
//! arrival, and hand over the message's deliveries after processing it. The
//! stage releases deliveries strictly in non-decreasing timestamp order: a
//! batch whose timestamp is not yet the smallest outstanding one waits in a
//! side table until everything earlier has been released.

use vstd::prelude::*;

use crate::listener::events_model;

verus! {

/// Position of the leftmost minimum of a non-empty timestamp list.
pub open spec fn min_idx(q: Seq<u64>) -> int
    recommends
        q.len() > 0,
    decreases q.len(),
{
    if q.len() <= 1 {
        0
    } else {
        let m = min_idx(q.drop_first()) + 1;
        if q[0] <= q[m] {
            0int
        } else {
            m
        }
    }
}

/// `min_idx` points at a minimum and everything before it is strictly
/// larger (it is the leftmost minimum).
pub proof fn lemma_min_idx_char(q: Seq<u64>)
    requires
        q.len() > 0,
    ensures
        0 <= min_idx(q) < q.len(),
        forall|j: int| 0 <= j < q.len() ==> q[min_idx(q)] <= #[trigger] q[j],
        forall|j: int| 0 <= j < min_idx(q) ==> #[trigger] q[j] > q[min_idx(q)],
    decreases q.len(),
{
    if q.len() > 1 {
        lemma_min_idx_char(q.drop_first());
        let m = min_idx(q.drop_first()) + 1;
        assert(forall|j: int| 1 <= j < q.len() ==> #[trigger] q[j] == q.drop_first()[j - 1]);
        if q[0] <= q[m] {
            assert forall|j: int| 0 <= j < q.len() implies q[min_idx(q)] <= #[trigger] q[j] by {
                if j >= 1 {
                    assert(q.drop_first()[m - 1] <= q.drop_first()[j - 1]);
                }
            }
        }
    }
}

/// Position of the buffered batch for `t`, if any.
pub open spec fn batch_idx(p: Seq<(u64, Seq<(Seq<char>, Seq<u8>)>)>, t: u64) -> Option<int>
    decreases p.len(),
{
    if p.len() == 0 {
        None
    } else if p[0].0 == t {
        Some(0int)
    } else {
        match batch_idx(p.drop_first(), t) {
            Some(i) => Some(i + 1),
            None => None,
        }
    }
}

/// `batch_idx` finds exactly the first buffered batch for `t`.
pub proof fn lemma_batch_idx_char(p: Seq<(u64, Seq<(Seq<char>, Seq<u8>)>)>, t: u64)
    ensures
        match batch_idx(p, t) {
            Some(i) => 0 <= i < p.len() && p[i].0 == t && (forall|j: int|
                0 <= j < i ==> (#[trigger] p[j]).0 != t),
            None => forall|j: int| 0 <= j < p.len() ==> (#[trigger] p[j]).0 != t,
        },
    decreases p.len(),
{
    if p.len() > 0 && p[0].0 != t {
        lemma_batch_idx_char(p.drop_first(), t);
        match batch_idx(p.drop_first(), t) {
            Some(i) => {
                assert(p.drop_first()[i] == p[i + 1]);
                assert forall|j: int| 0 <= j < i + 1 implies (#[trigger] p[j]).0 != t by {
                    if j > 0 {
                        assert(p[j] == p.drop_first()[j - 1]);
                    }
                }
            },
            None => {
                assert forall|j: int| 0 <= j < p.len() implies (#[trigger] p[j]).0 != t by {
                    if j > 0 {
                        assert(p[j] == p.drop_first()[j - 1]);
                    }
                }
            },
        }
    }
}

/// The cascade: as long as the smallest outstanding timestamp has a buffered
/// batch, release that batch and retire the timestamp.
pub open spec fn spec_cascade(q: Seq<u64>, p: Seq<(u64, Seq<(Seq<char>, Seq<u8>)>)>) -> (
    Seq<(u64, Seq<(Seq<char>, Seq<u8>)>)>,
    Seq<u64>,
    Seq<(u64, Seq<(Seq<char>, Seq<u8>)>)>,
)
    decreases q.len(),
    via spec_cascade_decreases
{
    if q.len() == 0 {
        (Seq::empty(), q, p)
    } else {
        let m = q[min_idx(q)];
        match batch_idx(p, m) {
            Some(i) => {
                let rec = spec_cascade(q.remove(min_idx(q)), p.remove(i));
                (seq![(m, p[i].1)] + rec.0, rec.1, rec.2)
            },
            None => (Seq::empty(), q, p),
        }
    }
}

#[via_fn]
proof fn spec_cascade_decreases(q: Seq<u64>, p: Seq<(u64, Seq<(Seq<char>, Seq<u8>)>)>) {
    if q.len() > 0 {
        lemma_min_idx_char(q);
    }
}

/// Buffering a batch: a batch for a fresh timestamp is appended; a second
/// batch for a timestamp already waiting replaces the first.
pub open spec fn spec_buffer(
    p: Seq<(u64, Seq<(Seq<char>, Seq<u8>)>)>,
    t: u64,
    ev: Seq<(Seq<char>, Seq<u8>)>,
) -> Seq<(u64, Seq<(Seq<char>, Seq<u8>)>)> {
    match batch_idx(p, t) {
        Some(i) => p.update(i, (t, ev)),
        None => p.push((t, ev)),
    }
}

/// What handing a batch to the stage does: if its timestamp is the smallest
/// outstanding one, it is released at once and the cascade follows; else it
/// waits in the side table, and the cascade runs from there.
pub open spec fn spec_handle(
    q: Seq<u64>,
    p: Seq<(u64, Seq<(Seq<char>, Seq<u8>)>)>,
    t: u64,
    ev: Seq<(Seq<char>, Seq<u8>)>,
) -> (
    Seq<(u64, Seq<(Seq<char>, Seq<u8>)>)>,
    Seq<u64>,
    Seq<(u64, Seq<(Seq<char>, Seq<u8>)>)>,
) {
    if q.len() > 0 && q[min_idx(q)] == t {
        let rec = spec_cascade(q.remove(min_idx(q)), p);
        (seq![(t, ev)] + rec.0, rec.1, rec.2)
    } else {
        spec_cascade(q, spec_buffer(p, t, ev))
    }
}

/// Batch lists as the specifications see them.
pub open spec fn batches_model(v: Seq<(u64, Vec<(String, Vec<u8>)>)>) -> Seq<
    (u64, Seq<(Seq<char>, Seq<u8>)>),
> {
    v.map_values(|e: (u64, Vec<(String, Vec<u8>)>)| (e.0, events_model(e.1@)))
}

/// No timestamp has two buffered batches.
pub open spec fn stage_inv(p: Seq<(u64, Seq<(Seq<char>, Seq<u8>)>)>) -> bool {
    forall|i: int, j: int| 0 <= i < j < p.len() ==> (#[trigger] p[i]).0 != (#[trigger] p[j]).0
}

/// Ordering law for the cascade: released batches come out sorted by
/// timestamp, none later than anything still outstanding, all drawn from
/// the outstanding timestamps, and distinctness survives.
pub proof fn lemma_cascade_props(q: Seq<u64>, p: Seq<(u64, Seq<(Seq<char>, Seq<u8>)>)>)
    requires
        stage_inv(p),
    ensures
        ({
            let (em, q2, p2) = spec_cascade(q, p);
            &&& forall|i: int, j: int|
                0 <= i <= j < em.len() ==> (#[trigger] em[i]).0 <= (#[trigger] em[j]).0
            &&& forall|i: int, l: int|
                0 <= i < em.len() && 0 <= l < q2.len() ==> (#[trigger] em[i]).0 <= #[trigger] q2[l]
            &&& forall|i: int| 0 <= i < em.len() ==> q.contains((#[trigger] em[i]).0)
            &&& forall|l: int| 0 <= l < q2.len() ==> q.contains(#[trigger] q2[l])
            &&& stage_inv(p2)
        }),
    decreases q.len(),
{
    if q.len() > 0 {
        lemma_min_idx_char(q);
        let mi = min_idx(q);
        let m = q[mi];
        lemma_batch_idx_char(p, m);
        match batch_idx(p, m) {
            Some(bi) => {
                let q1 = q.remove(mi);
                let p1 = p.remove(bi);
                assert(forall|l: int|
                    0 <= l < q1.len() ==> #[trigger] q1[l] == q[if l < mi {
                        l
                    } else {
                        l + 1
                    }]);
                assert(forall|l: int|
                    0 <= l < p1.len() ==> #[trigger] p1[l] == p[if l < bi {
                        l
                    } else {
                        l + 1
                    }]);
                lemma_cascade_props(q1, p1);
                let rec = spec_cascade(q1, p1);
                let em = seq![(m, p[bi].1)] + rec.0;
                assert(em[0].0 == m);
                assert(forall|i: int| 1 <= i < em.len() ==> #[trigger] em[i] == rec.0[i - 1]);
                assert forall|i: int| 0 <= i < em.len() implies q.contains(
                    (#[trigger] em[i]).0,
                ) by {
                    if i == 0 {
                        assert(q[mi] == m);
                    } else {
                        let l = choose|l: int| 0 <= l < q1.len() && q1[l] == rec.0[i - 1].0;
                    }
                }
                assert forall|i: int, j: int| 0 <= i <= j < em.len() implies (#[trigger] em[i]).0
                    <= (#[trigger] em[j]).0 by {
                    if i == 0 && j > 0 {
                        let l = choose|l: int| 0 <= l < q1.len() && q1[l] == rec.0[j - 1].0;
                    }
                }
                assert forall|i: int, l: int|
                    0 <= i < em.len() && 0 <= l < rec.1.len() implies (#[trigger] em[i]).0
                    <= #[trigger] rec.1[l] by {
                    if i == 0 {
                        let x = choose|x: int| 0 <= x < q1.len() && q1[x] == rec.1[l];
                    }
                }
                assert forall|l: int| 0 <= l < rec.1.len() implies q.contains(
                    #[trigger] rec.1[l],
                ) by {
                    let x = choose|x: int| 0 <= x < q1.len() && q1[x] == rec.1[l];
                }
            },
            None => {},
        }
    }
}

/// The ordering stage's state: the outstanding timestamps (noted on message
/// arrival, retired on release) and the batches waiting for their turn.
#[derive(Debug)]
pub struct QueueHandler {
    queue: Vec<u64>,
    pending: Vec<(u64, Vec<(String, Vec<u8>)>)>,
}

impl QueueHandler {
    pub closed spec fn queue_model(&self) -> Seq<u64> {
        self.queue@
    }

    pub closed spec fn pending_model(&self) -> Seq<(u64, Seq<(Seq<char>, Seq<u8>)>)> {
        batches_model(self.pending@)
    }

    pub open spec fn inv(&self) -> bool {
        stage_inv(self.pending_model())
    }

    /// A stage with nothing outstanding.
    pub fn new() -> (r: Self)
        ensures
            r.inv(),
            r.queue_model() =~= Seq::<u64>::empty(),
            r.pending_model() =~= Seq::<(u64, Seq<(Seq<char>, Seq<u8>)>)>::empty(),
    {
        QueueHandler { queue: Vec::new(), pending: Vec::new() }
    }

    /// Note a message's timestamp the moment it arrives, before any listener
    /// work; its deliveries must later be handed in under the same timestamp.
    pub fn note_arrival(&mut self, timestamp: u64)
        requires
            old(self).inv(),
        ensures
            final(self).inv(),
            final(self).queue_model() == old(self).queue_model().push(timestamp),
            final(self).pending_model() == old(self).pending_model(),
    {
        self.queue.push(timestamp);
    }

    /// Position of the leftmost smallest outstanding timestamp.
    #[verifier::loop_isolation(false)]
    fn min_index(&self) -> (r: usize)
        requires
            self.queue_model().len() > 0,
        ensures
            r == min_idx(self.queue_model()),
            r < self.queue_model().len(),
    {
        let n = self.queue.len();
        let mut best: usize = 0;
        let mut k: usize = 1;
        while k < n
            invariant
                0 <= best < k <= n,
                n == self.queue@.len(),
                forall|j: int| 0 <= j < k ==> self.queue@[best as int] <= #[trigger] self.queue@[j],
                forall|j: int| 0 <= j < best ==> #[trigger] self.queue@[j] > self.queue@[best as int],
            decreases n - k,
        {
            if self.queue[k] < self.queue[best] {
                best = k;
            }
            k += 1;
        }
        proof {
            lemma_min_idx_char(self.queue@);
            let mi = min_idx(self.queue@);
            if best < mi {
                assert(self.queue@[best as int] > self.queue@[mi]);
            } else if best > mi {
                assert(self.queue@[mi] > self.queue@[best as int]);
            }
        }
        best
    }

    /// Position of the buffered batch for `t`, if any.
    #[verifier::loop_isolation(false)]
    fn find_pending(&self, t: u64) -> (r: Option<usize>)
        ensures
            match r {
                Some(i) => batch_idx(self.pending_model(), t) == Some(i as int),
                None => batch_idx(self.pending_model(), t) is None,
            },
    {
        let n = self.pending.len();
        let mut i: usize = 0;
        while i < n
            invariant
                0 <= i <= n,
                n == self.pending@.len(),
                forall|j: int| 0 <= j < i ==> (#[trigger] self.pending@[j]).0 != t,
            decreases n - i,
        {
            if self.pending[i].0 == t {
                proof {
                    lemma_batch_idx_char(self.pending_model(), t);
                    assert(self.pending_model()[i as int].0 == t);
                    match batch_idx(self.pending_model(), t) {
                        Some(x) => {
                            if x < i {
                                assert(self.pending_model()[x].0 == t);
                                assert(self.pending@[x].0 == t);
                            }
                        },
                        None => {},
                    }
                }
                return Some(i);
            }
            i += 1;
        }
        proof {
            lemma_batch_idx_char(self.pending_model(), t);
            match batch_idx(self.pending_model(), t) {
                Some(x) => {
                    assert(self.pending@[x].0 == t);
                },
                None => {},
            }
        }
        None
    }

    /// Take delivery of one message's batch, as `spec_handle` describes: the
    /// returned batches are to be sent out now, in order. They come out
    /// sorted by timestamp, none later than anything still outstanding:
    /// global delivery order equals arrival-timestamp order.
    #[verifier::loop_isolation(false)]
    #[verifier::rlimit(60)]
    pub fn handle(&mut self, timestamp: u64, events: Vec<(String, Vec<u8>)>) -> (r: Vec<
        (u64, Vec<(String, Vec<u8>)>),
    >)
        requires
            old(self).inv(),
            old(self).queue_model().contains(timestamp),
        ensures
            final(self).inv(),
            ({
                let (em, q2, p2) = spec_handle(
                    old(self).queue_model(),
                    old(self).pending_model(),
                    timestamp,
                    events_model(events@),
                );
                &&& batches_model(r@) == em
                &&& final(self).queue_model() == q2
                &&& final(self).pending_model() == p2
            }),
            forall|i: int, j: int|
                0 <= i <= j < r@.len() ==> (#[trigger] r@[i]).0 <= (#[trigger] r@[j]).0,
            forall|i: int, l: int|
                0 <= i < r@.len() && 0 <= l < final(self).queue_model().len() ==> (
                #[trigger] r@[i]).0 <= #[trigger] final(self).queue_model()[l],
            forall|i: int| 0 <= i < r@.len() ==> old(self).queue_model().contains((#[trigger] r@[i]).0),
    {
        let ghost q0 = self.queue_model();
        let ghost p0 = self.pending_model();
        let ghost ev_model = events_model(events@);
        let mut out: Vec<(u64, Vec<(String, Vec<u8>)>)> = Vec::new();
        let mi = self.min_index();
        proof {
            lemma_min_idx_char(q0);
        }
        if self.queue[mi] == timestamp {
            self.queue.remove(mi);
            out.push((timestamp, events));
            proof {
                assert(self.queue@ == q0.remove(min_idx(q0)));
                assert(batches_model(out@) =~~= seq![(timestamp, ev_model)]);
            }
        } else {
            proof {
                lemma_batch_idx_char(p0, timestamp);
            }
            match self.find_pending(timestamp) {
                Some(i) => {
                    self.pending.set(i, (timestamp, events));
                    proof {
                        assert(self.pending_model() =~~= spec_buffer(p0, timestamp, ev_model));
                    }
                },
                None => {
                    self.pending.push((timestamp, events));
                    proof {
                        assert(self.pending_model() =~~= spec_buffer(p0, timestamp, ev_model));
                    }
                },
            }
            proof {
                assert(stage_inv(self.pending_model())) by {
                    let p1 = self.pending_model();
                    match batch_idx(p0, timestamp) {
                        Some(x) => {
                            assert(forall|i: int|
                                0 <= i < p1.len() && i != x ==> #[trigger] p1[i] == p0[i]);
                            assert(p1[x].0 == timestamp && p0[x].0 == timestamp);
                        },
                        None => {
                            assert(forall|i: int|
                                0 <= i < p0.len() ==> #[trigger] p1[i] == p0[i]);
                        },
                    }
                }
                assert(batches_model(out@) =~~= Seq::<(u64, Seq<(Seq<char>, Seq<u8>)>)>::empty());
            }
        }
        let ghost qc = self.queue_model();
        let ghost pc = self.pending_model();
        let ghost out_base = out@.len() as int;
        let ghost out0 = out@;
        proof {
            lemma_cascade_props(qc, pc);
            assert(spec_cascade(qc, pc).0 =~= batches_model(out@).skip(out_base)
                + spec_cascade(self.queue_model(), self.pending_model()).0);
        }
        loop
            invariant
                stage_inv(self.pending_model()),
                0 <= out_base <= out@.len(),
                out@.take(out_base) == out0,
                spec_cascade(qc, pc).0 == batches_model(out@).skip(out_base) + spec_cascade(
                    self.queue_model(),
                    self.pending_model(),
                ).0,
                spec_cascade(qc, pc).1 == spec_cascade(
                    self.queue_model(),
                    self.pending_model(),
                ).1,
                spec_cascade(qc, pc).2 == spec_cascade(
                    self.queue_model(),
                    self.pending_model(),
                ).2,
            decreases self.queue_model().len(),
        {
            if self.queue.len() == 0 {
                break ;
            }
            let mi2 = self.min_index();
            let m = self.queue[mi2];
            proof {
                lemma_min_idx_char(self.queue_model());
            }
            let bi = match self.find_pending(m) {
                Some(bi) => bi,
                None => {
                    break ;
                },
            };
            let ghost qb = self.queue_model();
            let ghost pb = self.pending_model();
            let ghost bix = batch_idx(pb, m)->Some_0;
            proof {
                lemma_batch_idx_char(pb, m);
            }
            self.queue.remove(mi2);
            let batch = self.pending.remove(bi);
            let ghost out_prev = out@;
            out.push((m, batch.1));
            proof {
                assert(out@.take(out_base) =~= out_prev.take(out_base));
                assert(self.queue@ == qb.remove(min_idx(qb)));
                assert(self.pending_model() =~~= pb.remove(bix));
                assert(batches_model(out@) =~~= batches_model(out_prev).push((m, pb[bix].1)));
                assert(stage_inv(self.pending_model())) by {
                    let p1 = self.pending_model();
                    assert(forall|i: int|
                        0 <= i < p1.len() ==> #[trigger] p1[i] == pb[if i < bix {
                            i
                        } else {
                            i + 1
                        }]);
                }
                assert(spec_cascade(qb, pb).0 == seq![(m, pb[bix].1)] + spec_cascade(
                    self.queue_model(),
                    self.pending_model(),
                ).0);
                assert(batches_model(out@).skip(out_base) =~= batches_model(out_prev).skip(
                    out_base,
                ).push((m, pb[bix].1)));
                assert(batches_model(out_prev).skip(out_base).push((m, pb[bix].1))
                    + spec_cascade(self.queue_model(), self.pending_model()).0
                    =~= batches_model(out_prev).skip(out_base) + spec_cascade(qb, pb).0);
            }
        }
        proof {
            assert(spec_cascade(self.queue_model(), self.pending_model()).0 =~= Seq::<
                (u64, Seq<(Seq<char>, Seq<u8>)>),
            >::empty());
            assert(spec_cascade(self.queue_model(), self.pending_model()).1
                == self.queue_model());
            assert(spec_cascade(self.queue_model(), self.pending_model()).2
                == self.pending_model());
            assert(spec_cascade(qc, pc).0 =~= batches_model(out@).skip(out_base));
            if out_base == 1 {
                assert(out@[0] == out0[0]);
                assert(batches_model(out@)[0] == (timestamp, ev_model));
                assert(batches_model(out@) =~= seq![(timestamp, ev_model)] + batches_model(
                    out@,
                ).skip(1));
            } else {
                assert(batches_model(out@) =~= batches_model(out@).skip(0));
            }
            lemma_cascade_props(qc, pc);
            let (em, q2, p2) = spec_handle(q0, p0, timestamp, ev_model);
            assert(batches_model(out@) =~= em);
            assert forall|i: int, j: int| 0 <= i <= j < out@.len() implies (#[trigger] out@[i]).0
                <= (#[trigger] out@[j]).0 by {
                assert(batches_model(out@)[i].0 == out@[i].0);
                assert(batches_model(out@)[j].0 == out@[j].0);
                if out_base == 1 && i == 0 && j > 0 {
                    let c0 = spec_cascade(qc, pc).0;
                    assert(c0[j - 1] == batches_model(out@)[j]);
                    assert(qc.contains(c0[j - 1].0));
                    let l = choose|l: int| 0 <= l < qc.len() && qc[l] == c0[j - 1].0;
                    assert(qc[l] == q0[if l < min_idx(q0) {
                        l
                    } else {
                        l + 1
                    }]);
                }
            }
            assert forall|i: int, l: int|
                0 <= i < out@.len() && 0 <= l < self.queue_model().len() implies (
            #[trigger] out@[i]).0 <= #[trigger] self.queue_model()[l] by {
                let c0 = spec_cascade(qc, pc).0;
                if out_base == 1 && i == 0 {
                    assert(qc.contains(self.queue_model()[l]));
                    let x = choose|x: int| 0 <= x < qc.len() && qc[x] == self.queue_model()[l];
                    assert(qc[x] == q0[if x < min_idx(q0) {
                        x
                    } else {
                        x + 1
                    }]);
                } else {
                    assert(batches_model(out@)[i] == c0[i - out_base]);
                }
            }
            assert forall|i: int| 0 <= i < out@.len() implies q0.contains(
                (#[trigger] out@[i]).0,
            ) by {
                let c0 = spec_cascade(qc, pc).0;
                if out_base == 1 && i == 0 {
                    assert(q0[min_idx(q0)] == timestamp);
                } else {
                    assert(batches_model(out@)[i] == c0[i - out_base]);
                    assert(qc.contains(c0[i - out_base].0));
                    let x = choose|x: int| 0 <= x < qc.len() && qc[x] == c0[i - out_base].0;
                    if out_base == 1 {
                        assert(qc[x] == q0[if x < min_idx(q0) {
                            x
                        } else {
                            x + 1
                        }]);
                    }
                }
            }
        }
        out
    }
}

/// Ordering law for one delivery: whatever a single `spec_handle` step
/// releases is sorted, drawn from the outstanding timestamps, and no later
/// than anything left outstanding.
pub proof fn lemma_handle_props(
    q: Seq<u64>,
    p: Seq<(u64, Seq<(Seq<char>, Seq<u8>)>)>,
    t: u64,
    ev: Seq<(Seq<char>, Seq<u8>)>,
)
    requires
        stage_inv(p),
    ensures
        ({
            let (em, q2, p2) = spec_handle(q, p, t, ev);
            &&& forall|i: int, j: int|
                0 <= i <= j < em.len() ==> (#[trigger] em[i]).0 <= (#[trigger] em[j]).0
            &&& forall|i: int, l: int|
                0 <= i < em.len() && 0 <= l < q2.len() ==> (#[trigger] em[i]).0 <= #[trigger] q2[l]
            &&& forall|i: int| 0 <= i < em.len() ==> q.contains((#[trigger] em[i]).0)
            &&& forall|l: int| 0 <= l < q2.len() ==> q.contains(#[trigger] q2[l])
            &&& stage_inv(p2)
        }),
{
    if q.len() > 0 && q[min_idx(q)] == t {
        lemma_min_idx_char(q);
        let mi = min_idx(q);
        let q1 = q.remove(mi);
        assert(forall|l: int|
            0 <= l < q1.len() ==> #[trigger] q1[l] == q[if l < mi {
                l
            } else {
                l + 1
            }]);
        lemma_cascade_props(q1, p);
        let rec = spec_cascade(q1, p);
        let em = seq![(t, ev)] + rec.0;
        assert(em[0].0 == t);
        assert(forall|i: int| 1 <= i < em.len() ==> #[trigger] em[i] == rec.0[i - 1]);
        assert forall|i: int| 0 <= i < em.len() implies q.contains((#[trigger] em[i]).0) by {
            if i == 0 {
                assert(q[mi] == t);
            } else {
                let l = choose|l: int| 0 <= l < q1.len() && q1[l] == rec.0[i - 1].0;
            }
        }
        assert forall|i: int, j: int| 0 <= i <= j < em.len() implies (#[trigger] em[i]).0 <= (
        #[trigger] em[j]).0 by {
            if i == 0 && j > 0 {
                let l = choose|l: int| 0 <= l < q1.len() && q1[l] == rec.0[j - 1].0;
            }
        }
        assert forall|i: int, l: int|
            0 <= i < em.len() && 0 <= l < rec.1.len() implies (#[trigger] em[i]).0
            <= #[trigger] rec.1[l] by {
            if i == 0 {
                let x = choose|x: int| 0 <= x < q1.len() && q1[x] == rec.1[l];
            }
        }
        assert forall|l: int| 0 <= l < rec.1.len() implies q.contains(#[trigger] rec.1[l]) by {
            let x = choose|x: int| 0 <= x < q1.len() && q1[x] == rec.1[l];
        }
    } else {
        let pb = spec_buffer(p, t, ev);
        assert(stage_inv(pb)) by {
            lemma_batch_idx_char(p, t);
            match batch_idx(p, t) {
                Some(x) => {
                    assert(forall|i: int| 0 <= i < pb.len() && i != x ==> #[trigger] pb[i] == p[i]);
                    assert(pb[x].0 == t && p[x].0 == t);
                },
                None => {
                    assert(forall|i: int| 0 <= i < p.len() ==> #[trigger] pb[i] == p[i]);
                },
            }
        }
        lemma_cascade_props(q, pb);
    }
}

/// The ordering stage's global law: over two deliveries in a row, nothing
/// released by the second comes earlier than anything released by the
/// first. Global delivery order therefore equals arrival-timestamp order.
pub proof fn lemma_releases_stay_ordered(
    q: Seq<u64>,
    p: Seq<(u64, Seq<(Seq<char>, Seq<u8>)>)>,
    t1: u64,
    ev1: Seq<(Seq<char>, Seq<u8>)>,
    t2: u64,
    ev2: Seq<(Seq<char>, Seq<u8>)>,
)
    requires
        stage_inv(p),
    ensures
        ({
            let (em1, q1, p1) = spec_handle(q, p, t1, ev1);
            let (em2, q2, p2) = spec_handle(q1, p1, t2, ev2);
            forall|i: int, j: int|
                0 <= i < em1.len() && 0 <= j < em2.len() ==> (#[trigger] em1[i]).0 <= (
                #[trigger] em2[j]).0
        }),
{
    let (em1, q1, p1) = spec_handle(q, p, t1, ev1);
    let (em2, q2, p2) = spec_handle(q1, p1, t2, ev2);
    lemma_handle_props(q, p, t1, ev1);
    lemma_handle_props(q1, p1, t2, ev2);
    assert forall|i: int, j: int|
        0 <= i < em1.len() && 0 <= j < em2.len() implies (#[trigger] em1[i]).0 <= (
    #[trigger] em2[j]).0 by {
        assert(q1.contains(em2[j].0));
        let l = choose|l: int| 0 <= l < q1.len() && q1[l] == em2[j].0;
        assert(em1[i].0 <= q1[l]);
    }
}

} // verus!
