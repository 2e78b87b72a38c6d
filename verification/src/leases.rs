//! Acknowledging, returning and extending leased jobs.
use crate::config::{MAX_LEASE_MS, MIN_LEASE_MS};
use crate::queue::{lease_token_ok, token_ok, Lease, QueueProjection, QueueView};
use crate::text::text_eq;
use vstd::prelude::*;

verus! {

/// What is done with a leased job.
#[derive(Debug, Clone, Copy, PartialEq, Eq, Structural)]
pub enum LeaseOp {
    /// It is done.
    Ack,
    /// It is returned, to be handed out again after a delay.
    Nack { delay: i64 },
    /// It is kept until a new deadline.
    Extend { deadline: i64 },
}

/// A time so many milliseconds later, or the last there is.
pub open spec fn later(now: i64, ms: int) -> i64 {
    if now + ms > i64::MAX {
        i64::MAX
    } else {
        (now + ms) as i64
    }
}

/// A time so many milliseconds later, or the last there is.
pub fn time_after(now: i64, ms: u64) -> (r: i64)
    ensures
        r == later(now, ms as int),
{
    if (now as i128) + (ms as i128) > i64::MAX as i128 {
        i64::MAX
    } else {
        ((now as i128) + (ms as i128)) as i64
    }
}

/// The length of a lease, within its limits.
pub open spec fn clamped_lease(ms: u64) -> u64 {
    if ms < MIN_LEASE_MS {
        MIN_LEASE_MS
    } else if ms > MAX_LEASE_MS {
        MAX_LEASE_MS
    } else {
        ms
    }
}

/// The length of a lease, within its limits.
pub fn clamp_lease(ms: u64) -> (r: u64)
    ensures
        r == clamped_lease(ms),
{
    if ms < MIN_LEASE_MS {
        MIN_LEASE_MS
    } else if ms > MAX_LEASE_MS {
        MAX_LEASE_MS
    } else {
        ms
    }
}

impl QueueView {
    /// A node may do something with a job: it holds it, and the token it gives, if
    /// any, is the current one.
    pub open spec fn may_touch(
        self,
        node: Seq<char>,
        lease_ids: Seq<Option<u64>>,
        i: int,
        seq: u64,
    ) -> bool {
        &&& self.leases.contains_key(seq)
        &&& self.leases[seq].node@ == node
        &&& token_ok(lease_ids, i, self.leases[seq].lease_id)
    }

    /// The queue after something was done with a leased job.
    pub open spec fn touched(self, op: LeaseOp, seq: u64, now: i64) -> QueueView {
        match op {
            LeaseOp::Ack => QueueView {
                leases: self.leases.remove(seq),
                deliveries: self.deliveries.remove(seq),
                ..self
            },
            LeaseOp::Nack { delay } => if delay > 0 {
                QueueView {
                    leases: self.leases.remove(seq),
                    delayed: self.delayed.insert((later(now, delay as int), seq)),
                    ..self
                }
            } else {
                QueueView {
                    leases: self.leases.remove(seq),
                    reclaim: self.reclaim.insert(seq),
                    ..self
                }
            },
            LeaseOp::Extend { deadline } => QueueView {
                leases: self.leases.insert(
                    seq,
                    Lease { deadline_ms: deadline, ..self.leases[seq] },
                ),
                ..self
            },
        }
    }
}

/// The outcome of a request on leased jobs.
pub ghost struct Touched {
    pub queue: QueueView,
    /// The jobs something was done with, and their leases.
    pub done: Seq<(u64, u64)>,
    /// The jobs the node may not touch.
    pub skipped: Seq<u64>,
}

/// A request on leased jobs, one after the other.
pub open spec fn touch_all(
    q: QueueView,
    op: LeaseOp,
    node: Seq<char>,
    seqs: Seq<u64>,
    lease_ids: Seq<Option<u64>>,
    now: i64,
) -> Touched
    decreases seqs.len(),
{
    if seqs.len() == 0 {
        Touched { queue: q, done: Seq::empty(), skipped: Seq::empty() }
    } else {
        let t = touch_all(q, op, node, seqs.drop_last(), lease_ids, now);
        let seq = seqs.last();
        if t.queue.may_touch(node, lease_ids, seqs.len() - 1, seq) {
            Touched {
                queue: t.queue.touched(op, seq, now),
                done: t.done.push((seq, t.queue.leases[seq].lease_id)),
                ..t
            }
        } else {
            Touched { skipped: t.skipped.push(seq), ..t }
        }
    }
}

impl QueueProjection {
    /// Does something with leased jobs, one after the other. A job that the node
    /// does not hold, or not under the token it gives, is skipped.
    pub fn touch(
        &mut self,
        op: LeaseOp,
        node: &str,
        seqs: &[u64],
        lease_ids: &[Option<u64>],
        now: i64,
    ) -> (r: (Vec<(u64, u64)>, Vec<u64>))
        requires
            old(self).wf(),
        ensures
            final(self).wf(),
            ({
                let t = touch_all(old(self)@, op, node@, seqs@, lease_ids@, now);
                &&& final(self)@ == t.queue
                &&& r.0@ == t.done
                &&& r.1@ == t.skipped
            }),
    {
        let ghost q0 = self@;
        let mut done: Vec<(u64, u64)> = Vec::new();
        let mut skipped: Vec<u64> = Vec::new();
        let mut i: usize = 0;
        assert(seqs@.take(0) =~= Seq::<u64>::empty());
        while i < seqs.len()
            invariant
                self.wf(),
                i <= seqs@.len(),
                ({
                    let t = touch_all(q0, op, node@, seqs@.take(i as int), lease_ids@, now);
                    &&& self@ == t.queue
                    &&& done@ == t.done
                    &&& skipped@ == t.skipped
                }),
            decreases seqs@.len() - i,
        {
            let seq: u64 = seqs[i];
            proof {
                assert(seqs@.take(i + 1).drop_last() =~= seqs@.take(i as int));
                assert(seqs@.take(i + 1).last() == seq);
            }
            let held: Option<u64> = match self.leases.get(seq) {
                Some(l) => {
                    if text_eq(l.node.as_str(), node) && lease_token_ok(lease_ids, i, l.lease_id) {
                        Some(l.lease_id)
                    } else {
                        None
                    }
                },
                None => None,
            };
            let ghost before = self@;
            match held {
                Some(id) => {
                    match self.leases.remove(seq) {
                        Some(l) => match op {
                            LeaseOp::Ack => {
                                let _ = self.deliveries.remove(seq);
                            },
                            LeaseOp::Nack { delay } => {
                                if delay > 0 {
                                    let ready: i64 = time_after(now, delay as u64);
                                    self.push_delayed(ready, seq);
                                } else {
                                    self.push_reclaim(seq);
                                }
                            },
                            LeaseOp::Extend { deadline } => {
                                self.leases.insert(
                                    seq,
                                    Lease {
                                        node: l.node,
                                        lease_id: l.lease_id,
                                        deadline_ms: deadline,
                                        by_work_conn: l.by_work_conn,
                                    },
                                );
                                assert(self@.leases =~= before.touched(op, seq, now).leases);
                            },
                        },
                        None => {},
                    }
                    assert(self@ == before.touched(op, seq, now));
                    done.push((seq, id));
                },
                None => {
                    skipped.push(seq);
                },
            }
            i += 1;
        }
        assert(seqs@.take(i as int) =~= seqs@);
        (done, skipped)
    }

    /// How many leases of a connection hold at `now`.
    pub fn count_work_conn(&self, conn: u64, now: i64) -> (r: u64)
        requires
            self.wf(),
        ensures
            r == self@.leases.dom().filter(
                |s: u64| self@.leases[s].by_work_conn == Some(conn) && self@.leases[s].holds(now),
            ).len(),
    {
        let ghost p = |s: u64|
            self@.leases[s].by_work_conn == Some(conn) && self@.leases[s].holds(now);
        let ghost ks = crate::seqs::keys_of(self.leases.pairs());
        let mut n: u64 = 0;
        let mut i: usize = 0;
        while i < self.leases.len()
            invariant
                self.wf(),
                p == (|s: u64|
                    self@.leases[s].by_work_conn == Some(conn) && self@.leases[s].holds(now)),
                ks == crate::seqs::keys_of(self.leases.pairs()),
                i <= self.leases.pairs().len(),
                n <= i,
                n == crate::seqs::count_where(ks.take(i as int), p),
            decreases self.leases.pairs().len() - i,
        {
            let e = self.leases.at(i);
            proof {
                self.leases.pair_in_map(i as int);
                assert(ks.take(i + 1).drop_last() =~= ks.take(i as int));
                assert(ks.take(i + 1).last() == e.0);
            }
            let mine = match e.1.by_work_conn {
                Some(c) => c == conn,
                None => false,
            };
            if mine && now <= e.1.deadline_ms {
                n += 1;
            }
            i += 1;
        }
        proof {
            assert(ks.take(i as int) =~= ks);
            self.leases.keys_are_domain();
            crate::seqs::count_is_size(ks, p);
        }
        n
    }

    /// The jobs a connection holds, ascending.
    pub fn work_conn_jobs(&self, conn: u64) -> (r: Vec<u64>)
        requires
            self.wf(),
        ensures
            crate::seqs::rising(r@),
            r@.to_set() == self@.conn_jobs(conn),
    {
        let mut out: Vec<u64> = Vec::new();
        let ghost ks = crate::seqs::keys_of(self.leases.pairs());
        let mut i: usize = 0;
        proof {
            self.leases.keys_are_domain();
        }
        while i < self.leases.len()
            invariant
                self.wf(),
                ks == crate::seqs::keys_of(self.leases.pairs()),
                crate::seqs::rising(ks),
                i <= self.leases.pairs().len(),
                crate::seqs::rising(out@),
                i < ks.len() ==> forall|j: int|
                    0 <= j < out@.len() ==> #[trigger] out@[j] < ks[i as int],
                forall|s: u64| #[trigger]
                    out@.contains(s) <==> self@.conn_jobs(conn).contains(s) && exists|k: int|
                        0 <= k < i && ks[k] == s,
            decreases self.leases.pairs().len() - i,
        {
            let e = self.leases.at(i);
            let ghost o = out@;
            proof {
                self.leases.pair_in_map(i as int);
                assert(ks[i as int] == e.0);
            }
            let mine = match e.1.by_work_conn {
                Some(c) => c == conn,
                None => false,
            };
            if mine {
                out.push(e.0);
            }
            proof {
                if i + 1 < ks.len() {
                    assert(ks[i as int] < ks[i + 1]);
                }
                assert forall|s: u64| #[trigger] out@.contains(s) <==> self@.conn_jobs(
                    conn,
                ).contains(s) && exists|k: int| 0 <= k < i + 1 && ks[k] == s by {
                    if out@.contains(s) {
                        let m = choose|m: int| 0 <= m < out@.len() && out@[m] == s;
                        if m < o.len() {
                            assert(o[m] == s);
                            assert(o.contains(s));
                            let k = choose|k: int| 0 <= k < i && ks[k] == s;
                            assert(ks[k] == s && k < i + 1);
                        } else {
                            assert(ks[i as int] == s);
                        }
                    }
                    if self@.conn_jobs(conn).contains(s) && exists|k: int|
                        0 <= k < i + 1 && ks[k] == s {
                        let k = choose|k: int| 0 <= k < i + 1 && ks[k] == s;
                        if k < i {
                            assert(o.contains(s));
                            let m = choose|m: int| 0 <= m < o.len() && o[m] == s;
                            assert(out@[m] == s);
                        } else {
                            assert(out@[o.len() as int] == s);
                        }
                    }
                }
            }
            i += 1;
        }
        proof {
            assert forall|s: u64| out@.to_set().contains(s) <==> self@.conn_jobs(conn).contains(
                s,
            ) by {
                if self@.conn_jobs(conn).contains(s) {
                    let k = self.leases.key_in_list(s);
                    assert(ks[k] == s);
                }
            }
            assert(out@.to_set() =~= self@.conn_jobs(conn));
        }
        out
    }

    /// Puts the jobs named up for reclaim, whoever holds them, and says who did.
    pub fn release(&mut self, seqs: &Vec<u64>) -> (r: Vec<(u64, String, u64)>)
        requires
            old(self).wf(),
            crate::seqs::rising(seqs@),
            forall|i: int|
                0 <= i < seqs@.len() ==> old(self)@.leases.contains_key(#[trigger] seqs@[i]),
        ensures
            final(self).wf(),
            final(self)@ == (QueueView {
                leases: old(self)@.leases.remove_keys(seqs@.to_set()),
                reclaim: old(self)@.reclaim.union(seqs@.to_set()),
                ..old(self)@
            }),
            r@.len() == seqs@.len(),
            forall|i: int|
                0 <= i < r@.len() ==> (#[trigger] r@[i]).0 == seqs@[i] && r@[i].1 == old(
                    self,
                )@.leases[seqs@[i]].node && r@[i].2 == old(self)@.leases[seqs@[i]].lease_id,
    {
        let ghost q0 = self@;
        let mut out: Vec<(u64, String, u64)> = Vec::new();
        let mut i: usize = 0;
        assert(seqs@.take(0).to_set() =~= Set::<u64>::empty());
        while i < seqs.len()
            invariant
                self.wf(),
                crate::seqs::rising(seqs@),
                i <= seqs@.len(),
                forall|j: int|
                    0 <= j < seqs@.len() ==> q0.leases.contains_key(#[trigger] seqs@[j]),
                self@.leases =~= q0.leases.remove_keys(seqs@.take(i as int).to_set()),
                self@.reclaim =~= q0.reclaim.union(seqs@.take(i as int).to_set()),
                self@ == (QueueView { leases: self@.leases, reclaim: self@.reclaim, ..q0 }),
                out@.len() == i,
                forall|j: int|
                    0 <= j < i ==> (#[trigger] out@[j]).0 == seqs@[j] && out@[j].1
                        == q0.leases[seqs@[j]].node && out@[j].2 == q0.leases[seqs@[j]].lease_id,
            decreases seqs@.len() - i,
        {
            let seq: u64 = seqs[i];
            proof {
                let a = seqs@.take(i as int);
                let b = seqs@.take(i + 1);
                assert(b =~= a.push(seq));
                assert forall|x: u64| b.contains(x) <==> a.contains(x) || x == seq by {
                    if a.contains(x) {
                        let m = choose|m: int| 0 <= m < a.len() && a[m] == x;
                        assert(b[m] == x);
                    }
                    assert(b[i as int] == seq);
                }
                assert(b.to_set() =~= a.to_set().insert(seq));
                assert(!a.contains(seq)) by {
                    if a.contains(seq) {
                        let m = choose|m: int| 0 <= m < a.len() && a[m] == seq;
                        assert(seqs@[m] < seqs@[i as int]);
                    }
                }
            }
            match self.leases.remove(seq) {
                Some(l) => {
                    out.push((seq, l.node, l.lease_id));
                },
                None => {},
            }
            self.push_reclaim(seq);
            i += 1;
        }
        assert(seqs@.take(i as int) =~= seqs@);
        out
    }
}

impl QueueView {
    /// The jobs a connection holds.
    pub open spec fn conn_jobs(self, conn: u64) -> Set<u64> {
        self.leases.dom().filter(|s: u64| self.leases[s].by_work_conn == Some(conn))
    }

    /// The queue with the jobs of a connection put up for reclaim.
    pub open spec fn conn_released(self, conn: u64) -> QueueView {
        QueueView {
            leases: self.leases.remove_keys(self.conn_jobs(conn)),
            reclaim: self.reclaim.union(self.conn_jobs(conn)),
            ..self
        }
    }
}

/// A request under a token that is no longer current changes nothing: the job
/// stays with its holder.
pub proof fn stale_token_is_refused(
    q: QueueView,
    op: LeaseOp,
    node: Seq<char>,
    seq: u64,
    token: u64,
    now: i64,
)
    requires
        q.leases.contains_key(seq),
        q.leases[seq].lease_id != token,
    ensures
        ({
            let t = touch_all(q, op, node, seq![seq], seq![Some(token)], now);
            &&& t.queue == q
            &&& t.done.len() == 0
            &&& t.skipped == seq![seq]
        }),
{
    let s = seq![seq];
    assert(s.drop_last() =~= Seq::<u64>::empty());
    let t0 = touch_all(q, op, node, s.drop_last(), seq![Some(token)], now);
    assert(t0.queue == q);
    assert(t0.skipped.push(seq) =~= seq![seq]);
}

/// A job that is returned without delay can be handed out again at once.
pub proof fn returned_job_is_claimable(q: QueueView, live: Set<u64>, seq: u64, now: i64)
    requires
        live.contains(seq),
    ensures
        crate::queue::claimable(q.touched(LeaseOp::Nack { delay: 0 }, seq, now), live, seq),
        q.touched(LeaseOp::Nack { delay: 0 }, seq, now).reclaim.contains(seq),
{
}

/// A job that is returned with a delay is put up for reclaim once the delay is
/// over, and not before.
pub proof fn delayed_job_waits(q: QueueView, seq: u64, delay: i64, now: i64, at: i64)
    requires
        delay > 0,
        !q.reclaim.contains(seq),
        forall|t: i64| !#[trigger] q.delayed.contains((t, seq)),
    ensures
        ({
            let u = q.touched(LeaseOp::Nack { delay }, seq, now).swept(at);
            u.reclaim.contains(seq) <==> at >= later(now, delay as int)
        }),
{
    let w = q.touched(LeaseOp::Nack { delay }, seq, now);
    let r = later(now, delay as int);
    assert(w.delayed.contains((r, seq)));
    assert forall|t: i64| #[trigger] w.delayed.contains((t, seq)) implies t == r by {
        if t != r {
            assert(q.delayed.count((t, seq)) == w.delayed.count((t, seq)));
            assert(q.delayed.contains((t, seq)));
        }
    }
}

} // verus!
