//! What can be asked of the engine's state.
use crate::engine::{Engine, EngineView};
use crate::engine_laws::{change_keeps_quiet, counting_rests};
use crate::queue::{count_entries, count_entries_is_size};
use crate::seqs::{count_is_size, count_where, keys_of};
use crate::topic_laws::retention_keeps;
use crate::topic_state::{read_ts, TopicState, TopicView, TS_NEVER};
use crate::types::{Error, ErrorCode, TopicConfig, TopicType};
use crate::eviction::{after, sat_sub};
use vstd::prelude::*;

verus! {

/// The counters of a queue.
#[derive(Debug, Clone, Copy, PartialEq, Eq, Structural)]
pub struct QueueState {
    /// How many jobs can be claimed.
    pub ready: u64,
    /// How many jobs are held under a lease.
    pub in_flight: u64,
    /// How many jobs went to the dead-letter topic.
    pub dead_lettered: u64,
}

/// The state of a topic.
#[derive(Debug)]
pub struct BoxStateResponse {
    pub topic_type: TopicType,
    pub head_seq: u64,
    pub earliest_seq: u64,
    pub next_seq: u64,
    pub count: u64,
    pub bytes: u64,
    pub config: TopicConfig,
    pub last_write_ts: Option<i64>,
    pub last_read_ts: Option<i64>,
    pub queue: Option<QueueState>,
}

impl TopicView {
    /// The jobs whose lease holds and whose record is there.
    pub open spec fn held(self, now: i64) -> Set<u64> {
        self.queue->0.leases.dom().filter(
            |s: u64| self.queue->0.leases[s].holds(now) && self.has_live(s),
        )
    }

    /// The jobs under a lease whose record is there.
    pub open spec fn leased(self) -> Set<u64> {
        self.queue->0.leases.dom().filter(|s: u64| self.has_live(s))
    }

    /// How many jobs wait out a delay.
    pub open spec fn waiting(self, now: i64) -> nat {
        self.queue->0.delayed.filter(|d: (i64, u64)| d.0 > now && self.has_live(d.1)).len()
    }

    /// How many jobs can be claimed: the records that can be read, without those
    /// under a lease and those that wait out a delay.
    pub open spec fn ready(self, now: i64) -> u64 {
        sat_sub(sat_sub(self.live, self.leased().len() as u64), self.waiting(now) as u64)
    }

    /// The counters of the queue.
    pub open spec fn counters(self, now: i64) -> QueueState {
        QueueState {
            ready: self.ready(now),
            in_flight: self.held(now).len() as u64,
            dead_lettered: self.queue->0.dead_lettered,
        }
    }

    /// A queue when it is counted: retention is enforced, and expired leases are
    /// given back.
    pub open spec fn counted(self, now: i64) -> TopicView {
        TopicView {
            queue: Some(self.queue->0.swept(now)),
            ..self.retained(now)
        }
    }
}

impl TopicState {
    /// How many jobs can be claimed, and how many are held.
    pub fn ready_in_flight(&self, now: i64) -> (r: (u64, u64))
        requires
            self.wf(),
            self@.queue is Some,
        ensures
            r.0 == self@.ready(now),
            r.1 == self@.held(now).len(),
    {
        let ghost t = self@;
        let q = match &self.queue {
            Some(q) => q,
            None => {
                return (0, 0);
            },
        };
        let ghost qv = t.queue->0;
        let ghost p1 = |s: u64| qv.leases[s].holds(now) && t.has_live(s);
        let ghost p2 = |s: u64| t.has_live(s);
        let ghost p3 = |d: (i64, u64)| d.0 > now && t.has_live(d.1);
        let ghost ks = keys_of(q.leases.pairs());
        let mut held: u64 = 0;
        let mut leased: u64 = 0;
        let mut i: usize = 0;
        while i < q.leases.len()
            invariant
                self.wf(),
                q.wf(),
                q@ == qv,
                t == self@,
                p1 == (|s: u64| qv.leases[s].holds(now) && t.has_live(s)),
                p2 == (|s: u64| t.has_live(s)),
                ks == keys_of(q.leases.pairs()),
                i <= q.leases.pairs().len(),
                held <= i,
                leased <= i,
                held == count_where(ks.take(i as int), p1),
                leased == count_where(ks.take(i as int), p2),
            decreases q.leases.pairs().len() - i,
        {
            let e = q.leases.at(i);
            proof {
                q.leases.pair_in_map(i as int);
                assert(ks.take(i + 1).drop_last() =~= ks.take(i as int));
                assert(ks.take(i + 1).last() == e.0);
            }
            let live = match self.index.get(e.0) {
                Some(rec) => !rec.deleted,
                None => false,
            };
            if live {
                leased += 1;
                if now <= e.1.deadline_ms {
                    held += 1;
                }
            }
            i += 1;
        }
        let mut waiting: u64 = 0;
        let mut j: usize = 0;
        let ghost ds = q.delayed@;
        while j < q.delayed.len()
            invariant
                self.wf(),
                t == self@,
                ds == q.delayed@,
                p3 == (|d: (i64, u64)| d.0 > now && t.has_live(d.1)),
                j <= ds.len(),
                waiting <= j,
                waiting == count_entries(ds.take(j as int), p3),
            decreases ds.len() - j,
        {
            let d = q.delayed[j];
            proof {
                assert(ds.take(j + 1).drop_last() =~= ds.take(j as int));
                assert(ds.take(j + 1).last() == d);
            }
            let live = match self.index.get(d.1) {
                Some(rec) => !rec.deleted,
                None => false,
            };
            if d.0 > now && live {
                waiting += 1;
            }
            j += 1;
        }
        proof {
            assert(ks.take(i as int) =~= ks);
            assert(ds.take(j as int) =~= ds);
            q.leases.keys_are_domain();
            count_is_size(ks, p1);
            count_is_size(ks, p2);
            count_entries_is_size(ds, p3);
            assert(qv.leases.dom().filter(p1) =~= t.held(now));
            assert(qv.leases.dom().filter(p2) =~= t.leased());
            assert(qv.delayed.filter(p3) == t.queue->0.delayed.filter(
                |d: (i64, u64)| d.0 > now && t.has_live(d.1),
            ));
        }
        (self.live_count.saturating_sub(leased).saturating_sub(waiting), held)
    }

    /// Counts the jobs of a queue.
    pub fn queue_counters(&mut self, now: i64) -> (r: QueueState)
        requires
            old(self).wf(),
            old(self)@.queue is Some,
        ensures
            final(self).wf(),
            final(self)@ == old(self)@.counted(now),
            r == old(self)@.counted(now).counters(now),
    {
        proof {
            retention_keeps(self@, now);
        }
        let _ = self.enforce_retention(now);
        self.sweep(now);
        let (ready, in_flight) = self.ready_in_flight(now);
        let dead_lettered: u64 = match &self.queue {
            Some(q) => q.dead_lettered,
            None => 0,
        };
        QueueState { ready, in_flight, dead_lettered }
    }

    /// Gives the jobs of expired leases and elapsed delays back.
    pub fn sweep(&mut self, now: i64)
        requires
            old(self).wf(),
            old(self)@.queue is Some,
        ensures
            final(self).wf(),
            final(self)@ == (TopicView { queue: Some(old(self)@.queue->0.swept(now)), ..old(self)@ }),
    {
        let mut queue: Option<crate::queue::QueueProjection> = None;
        std::mem::swap(&mut self.queue, &mut queue);
        match queue {
            Some(q) => {
                let mut q = q;
                q.sweep_expired(now);
                self.queue = Some(q);
            },
            None => {},
        }
    }
}

/// A time, unless it never happened.
pub open spec fn happened(ts: i64) -> Option<i64> {
    if ts == TS_NEVER {
        None
    } else {
        Some(ts)
    }
}

/// The state of a topic as it is described: `t` when it was asked for, `u` once its jobs
/// are counted.
pub open spec fn describes(r: BoxStateResponse, t: TopicView, u: TopicView, now: i64) -> bool {
    &&& r.topic_type == t.config.topic_type
    &&& r.head_seq == t.head
    &&& r.earliest_seq == t.earliest()
    &&& r.next_seq == after(t.head)
    &&& r.count == u.live
    &&& r.bytes == u.bytes
    &&& r.config == t.config
    &&& r.last_write_ts == happened(t.last_write)
    &&& r.last_read_ts == happened(t.last_read)
    &&& r.queue == (if t.queue is Some {
        Some(u.counters(now))
    } else {
        None
    })
}

impl EngineView {
    /// A topic when its state is asked for.
    pub open spec fn seen_topic(self, name: Seq<char>, touch: bool, now: i64) -> TopicView {
        let t = self.topics[name].retained(now);
        if touch {
            TopicView { last_read: now, last_consumed: now, ..t }
        } else {
            t
        }
    }
}

impl Engine {
    /// The state of a topic. With `touch` the topic counts as read.
    pub fn box_state(&mut self, name: &str, touch: bool, now: i64) -> (r: Result<
        BoxStateResponse,
        Error,
    >)
        requires
            old(self).wf(),
        ensures
            final(self).wf(),
            old(self)@.quiet() ==> final(self)@.quiet(),
            !old(self)@.topics.contains_key(name@) ==> {
                &&& r is Err
                &&& r->Err_0.code == ErrorCode::TopicNotFound
                &&& r->Err_0.detail is Plain
                &&& final(self)@ == old(self)@
            },
            old(self)@.topics.contains_key(name@) ==> ({
                let t = old(self)@.seen_topic(name@, touch, now);
                let u = if t.queue is Some {
                    t.counted(now)
                } else {
                    t
                };
                &&& final(self)@ == old(self)@.with_topic(u)
                &&& r is Ok
                &&& describes(r->Ok_0, t, u, now)
            }),
    {
        let ghost v = self@;
        let mut t = match self.take_topic(name) {
            Some(t) => t,
            None => {
                return Err(Error::new(ErrorCode::TopicNotFound));
            },
        };
        proof {
            retention_keeps(t@, now);
        }
        let _ = t.enforce_retention(now);
        if touch {
            t.last_read_ms = now;
            t.last_consumed_ms = now;
        }
        let head_seq: u64 = t.head_seq();
        let earliest_seq: u64 = t.earliest_seq();
        let queue = if t.is_queue() {
            Some(t.queue_counters(now))
        } else {
            None
        };
        let response = BoxStateResponse {
            topic_type: t.config.topic_type,
            head_seq,
            earliest_seq,
            next_seq: head_seq.saturating_add(1),
            count: t.count(),
            bytes: t.bytes(),
            config: t.config.copy(),
            last_write_ts: read_ts(t.last_write_ms),
            last_read_ts: read_ts(t.last_read_ms),
            queue,
        };
        self.put_topic(t);
        proof {
            assert(self@.topics =~= v.topics.insert(name@, t@));
            if v.quiet() {
                let seen = v.seen_topic(name@, touch, now);
                if seen.queue is Some {
                    counting_rests(seen, now);
                }
                change_keeps_quiet(v, t@);
            }
        }
        Ok(response)
    }
}

} // verus!
