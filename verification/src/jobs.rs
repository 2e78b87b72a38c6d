//! Queues: claiming jobs, and what becomes of them.
use crate::append::{staged_append_can_finish, PendingAppend};
use crate::config::{MAX_CLAIM, MAX_NACK_DELAY_MS, MAX_NODE_BYTES};
use crate::deal::{clamped_max, cohort_deal, lease_events, jobs_for, Claimer, Dealt, LeasedJob};
use crate::engine::{Engine, EngineView};
use crate::engine_laws::{acknowledged_jobs_are_done, change_keeps_quiet, counting_rests,
    dead_lettering_keeps_quiet, put_keeps_quiet, without_jobs_keeps_quiet};
use crate::eviction::sat_sub;
use crate::leases::{clamp_lease, clamped_lease, later, time_after, touch_all, LeaseOp, Touched};
use crate::payload::{decimal, decimal_text, empty_object, empty_object_text, with_member,
    with_text_member};
use crate::queue::{check_lease_ids_len, check_seqs_len, QueueProjection, QueueView};
use crate::state::QueueState;
use crate::topic_index::{bytes_in, StoredRecord};
use crate::topic_laws::{delete_seqs_keeps, retention_keeps};
use crate::topic_state::{cap64, TopicState, TopicView};
use crate::types::{byte_len, copy_json, copy_text, default_config, Durability, Error, ErrorCode,
    ErrorDetail, Json, TopicConfig};
use crate::wal::{log_time, stamp, WalRecord};
use crate::write::{copy_seqs, payload_bytes, payload_size};
use vstd::prelude::*;
use vstd::string::StringExecFns;

verus! {

/// A payload fetched from a segment: the job, its data and its meta.
pub type Fetched = (u64, Json, Option<Json>);

/// The outcome of a claim.
#[derive(Debug)]
pub struct ClaimOutcome {
    /// The jobs of each claimer.
    pub jobs: Vec<Vec<LeasedJob>>,
    /// The jobs that were handed out too often.
    pub dead: Vec<u64>,
    /// The leases to be logged.
    pub frames: Vec<WalRecord>,
}

/// An acknowledgement that waits for the log.
#[derive(Debug)]
pub struct PendingAck {
    pub name: String,
    /// The jobs that are done, and their leases.
    pub done: Vec<(u64, u64)>,
    pub skipped: Vec<u64>,
    /// Whether each deletion must be logged before it counts.
    pub durable: bool,
    /// The leases to be logged.
    pub frames: Vec<WalRecord>,
}

/// The answer to an acknowledgement.
#[derive(Debug)]
pub struct AckResponse {
    pub acked: u64,
    pub skipped: Vec<u64>,
    pub ready: u64,
    pub in_flight: u64,
}

/// The answer to a return of jobs.
#[derive(Debug)]
pub struct NackResponse {
    pub nacked: u64,
    pub skipped: Vec<u64>,
    pub ready: u64,
    pub in_flight: u64,
    /// The leases to be logged.
    pub frames: Vec<WalRecord>,
}

/// The answer to an extension of leases.
#[derive(Debug)]
pub struct ExtendResponse {
    pub extended: u64,
    pub skipped: Vec<u64>,
    /// The new deadline of each job.
    pub deadlines: Vec<(u64, i64)>,
    /// The leases to be logged.
    pub frames: Vec<WalRecord>,
}

impl TopicView {
    /// The topic with its queue in a new state.
    pub open spec fn with_queue(self, q: QueueView) -> TopicView {
        TopicView { queue: Some(q), ..self }
    }

    /// A queue when jobs are claimed: retention is enforced, and expired leases are
    /// given back.
    pub open spec fn claimed_from(self, now: i64) -> TopicView {
        self.retained(now).with_queue(self.queue->0.swept(now))
    }

    /// Whether the leases of a queue are logged.
    pub open spec fn logs_leases(self) -> bool {
        self.config.leases_durable && self.config.class() != Durability::Memory
    }
}

/// The deadline of a claim.
pub open spec fn claim_deadline(lease_ms: Option<u64>, config: TopicConfig, now: i64) -> i64 {
    later(
        now,
        clamped_lease(
            match lease_ms {
                Some(ms) => ms,
                None => config.lease_ms,
            },
        ) as int,
    )
}

impl EngineView {
    /// What a request on a queue is refused for.
    pub open spec fn queue_refusal(self, name: Seq<char>) -> Option<ErrorCode> {
        if !self.topics.contains_key(name) {
            Some(ErrorCode::TopicNotFound)
        } else if self.topics[name].queue is None {
            Some(ErrorCode::NotAQueue)
        } else {
            None
        }
    }

    /// A topic with its queue in a new state.
    pub open spec fn with_jobs(self, name: Seq<char>, q: QueueView) -> EngineView {
        self.with_topic(self.topics[name].with_queue(q))
    }
}

/// The frame for an event of a lease.
pub open spec fn lease_frame(
    f: WalRecord,
    topic_id: u64,
    event: u8,
    seq: u64,
    node: Seq<char>,
    lease_id: u64,
    deadline: i64,
    deliveries: u64,
    now: i64,
) -> bool {
    match f {
        WalRecord::Lease { topic_id: id, seq: s, event: e, holder: n, lease_id: l, deadline: d, deliveries: k, ts } => {
            &&& id == topic_id
            &&& s == seq
            &&& e == event
            &&& n@ == node
            &&& l == lease_id
            &&& d == stamp(deadline)
            &&& k == deliveries
            &&& ts == stamp(now)
        },
        _ => false,
    }
}

fn lease_record(
    topic_id: u64,
    event: u8,
    seq: u64,
    node: &str,
    lease_id: u64,
    deadline: i64,
    deliveries: u64,
    now: i64,
) -> (r: WalRecord)
    ensures
        lease_frame(r, topic_id, event, seq, node@, lease_id, deadline, deliveries, now),
{
    WalRecord::Lease {
        topic_id,
        seq,
        event,
        holder: node.to_owned(),
        lease_id,
        deadline: log_time(deadline),
        deliveries,
        ts: log_time(now),
    }
}

/// The frames for one event on a list of leases of a node.
pub open spec fn lease_frames(
    frames: Seq<WalRecord>,
    topic_id: u64,
    event: u8,
    done: Seq<(u64, u64)>,
    node: Seq<char>,
    deadline: i64,
    now: i64,
) -> bool {
    &&& frames.len() == done.len()
    &&& forall|i: int|
        0 <= i < done.len() ==> lease_frame(
            #[trigger] frames[i],
            topic_id,
            event,
            done[i].0,
            node,
            done[i].1,
            deadline,
            0,
            now,
        )
}

fn lease_records(
    topic_id: u64,
    event: u8,
    done: &Vec<(u64, u64)>,
    node: &str,
    deadline: i64,
    now: i64,
) -> (r: Vec<WalRecord>)
    ensures
        lease_frames(r@, topic_id, event, done@, node@, deadline, now),
{
    let mut out: Vec<WalRecord> = Vec::new();
    let mut i: usize = 0;
    while i < done.len()
        invariant
            i <= done@.len(),
            out@.len() == i,
            forall|j: int|
                0 <= j < i ==> lease_frame(
                    #[trigger] out@[j],
                    topic_id,
                    event,
                    done@[j].0,
                    node@,
                    done@[j].1,
                    deadline,
                    0,
                    now,
                ),
        decreases done@.len() - i,
    {
        out.push(lease_record(topic_id, event, done[i].0, node, done[i].1, deadline, 0, now));
        i += 1;
    }
    out
}

/// The frames for the leases of a claim.
pub open spec fn claim_frames(
    frames: Seq<WalRecord>,
    t: TopicView,
    claimers: Seq<Claimer>,
    d: Dealt,
    deadline: i64,
    now: i64,
) -> bool {
    &&& frames.len() == d.handed.len()
    &&& forall|i: int|
        0 <= i < frames.len() ==> lease_frame(
            #[trigger] frames[i],
            t.topic_id,
            0,
            d.handed[i].seq,
            claimers[d.handed[i].claimer].node@,
            d.handed[i].lease_id,
            deadline,
            d.handed[i].deliveries,
            now,
        )
}

/// The jobs of a queue are dealt out to a cohort, and the leases to be logged are named.
pub open spec fn claim_begun(
    v: EngineView,
    name: Seq<char>,
    claimers: Seq<Claimer>,
    lease_ms: Option<u64>,
    now: i64,
    r: ClaimOutcome,
    v2: EngineView,
) -> bool {
    let t = v.topics[name].claimed_from(now);
    let deadline = claim_deadline(lease_ms, t.config, now);
    let d = cohort_deal(t, claimers, deadline);
    &&& v2 == v.with_topic(t.with_queue(d.queue))
    &&& r.jobs@.len() == claimers.len()
    &&& forall|c: int|
        0 <= c < claimers.len() ==> (#[trigger] r.jobs@[c])@ == jobs_for(t, d.handed, c, deadline)
    &&& r.dead@ == d.dead
    &&& if t.logs_leases() {
        claim_frames(r.frames@, t, claimers, d, deadline, now)
    } else {
        r.frames@.len() == 0
    }
}

impl Engine {
    /// Takes a queue out of the registry, to be put back.
    fn take_queue(&mut self, name: &str) -> (r: Result<TopicState, Error>)
        requires
            old(self).wf(),
        ensures
            final(self).wf(),
            match r {
                Ok(t) => {
                    &&& old(self)@.queue_refusal(name@) is None
                    &&& t.wf()
                    &&& t@ == old(self)@.topics[name@]
                    &&& t@.name == name@
                    &&& t@.queue is Some
                    &&& final(self)@ == (EngineView {
                        topics: old(self)@.topics.remove(name@),
                        ..old(self)@
                    })
                },
                Err(e) => {
                    &&& old(self)@.queue_refusal(name@) == Some(e.code)
                    &&& e.detail is Plain
                    &&& final(self)@ == old(self)@
                },
            },
    {
        match self.topics.get(name) {
            Some(t) => {
                if !t.is_queue() {
                    return Err(Error::new(ErrorCode::NotAQueue));
                }
            },
            None => {
                return Err(Error::new(ErrorCode::TopicNotFound));
            },
        }
        match self.take_topic(name) {
            Some(t) => Ok(t),
            None => Err(Error::new(ErrorCode::TopicNotFound)),
        }
    }

    /// Deals the jobs of a queue out to a cohort of claimers. Jobs that were handed
    /// out too often are named, to be moved to the dead-letter topic.
    pub fn begin_claim(
        &mut self,
        name: &str,
        claimers: &Vec<Claimer>,
        lease_ms: Option<u64>,
        now: i64,
    ) -> (r: Result<ClaimOutcome, Error>)
        requires
            old(self).wf(),
            old(self)@.queue_refusal(name@) is None ==> old(
                self,
            )@.topics[name@].queue->0.next_lease_id + claimers@.len() * MAX_CLAIM <= u64::MAX,
        ensures
            final(self).wf(),
            match old(self)@.queue_refusal(name@) {
                Some(c) => {
                    &&& r is Err
                    &&& r->Err_0.code == c
                    &&& r->Err_0.detail is Plain
                    &&& final(self)@ == old(self)@
                },
                None => r is Ok && claim_begun(
                    old(self)@,
                    name@,
                    claimers@,
                    lease_ms,
                    now,
                    r->Ok_0,
                    final(self)@,
                ),
            },
    {
        let ghost v = self@;
        let mut t = match self.take_queue(name) {
            Ok(t) => t,
            Err(e) => {
                return Err(e);
            },
        };
        proof {
            retention_keeps(t@, now);
        }
        let _ = t.enforce_retention(now);
        let ms: u64 = match lease_ms {
            Some(ms) => ms,
            None => t.config.lease_ms,
        };
        let deadline: i64 = time_after(now, clamp_lease(ms));
        t.sweep(now);
        let ghost t1 = t@;
        assert(t1 == v.topics[name@].claimed_from(now));
        let (jobs, dead, events) = t.deal_jobs(claimers, deadline);
        let ghost d = cohort_deal(t1, claimers@, deadline);
        let mut frames: Vec<WalRecord> = Vec::new();
        if t.config.leases_durable && t.config.uses_persistent_record_store() {
            let mut i: usize = 0;
            while i < events.len()
                invariant
                    i <= events@.len(),
                    events@ == lease_events(d.handed),
                    t@.topic_id == t1.topic_id,
                    forall|k: int|
                        0 <= k < d.handed.len() ==> 0 <= (#[trigger] d.handed[k]).claimer
                            < claimers@.len(),
                    frames@.len() == i,
                    forall|k: int|
                        0 <= k < i ==> lease_frame(
                            #[trigger] frames@[k],
                            t1.topic_id,
                            0,
                            d.handed[k].seq,
                            claimers@[d.handed[k].claimer].node@,
                            d.handed[k].lease_id,
                            deadline,
                            d.handed[k].deliveries,
                            now,
                        ),
                decreases events@.len() - i,
            {
                let e = events[i];
                proof {
                    let h = d.handed[i as int];
                    assert(claimers@.len() == claimers.len());
                    assert((h.claimer as usize) as int == h.claimer);
                    assert(e == (h.claimer as usize, h.seq, h.lease_id, h.deliveries));
                }
                frames.push(
                    lease_record(
                        t.topic_id,
                        0,
                        e.1,
                        claimers[e.0].node.as_str(),
                        e.2,
                        deadline,
                        e.3,
                        now,
                    ),
                );
                i += 1;
            }
        }
        self.put_topic(t);
        proof {
            assert(self@.topics =~= v.topics.insert(name@, t@));
        }
        Ok(ClaimOutcome { jobs, dead, frames })
    }
}

/// The member that says which queue a dead-lettered job came from.
pub open spec fn from_key() -> Seq<char> {
    "$dead_letter_from"@
}

/// The member that says how often a dead-lettered job was handed out.
pub open spec fn deliveries_key() -> Seq<char> {
    "$dead_letter_deliveries"@
}

/// The member that says which job a dead-lettered record was.
pub open spec fn src_seq_key() -> Seq<char> {
    "$dead_letter_src_seq"@
}

/// The meta of a dead-lettered job: its own, where it is an object, with where it
/// came from.
pub open spec fn marked(meta: Option<Json>, from: Seq<char>, max: u64, seq: u64) -> (
    Seq<char>,
    usize,
) {
    let m0 = if meta is Some && meta->0.keys is Some {
        meta->0.text@
    } else {
        empty_object()
    };
    let m1 = with_member(m0, from_key(), from).0;
    let m2 = with_member(m1, deliveries_key(), decimal(max as nat)).0;
    with_member(m2, src_seq_key(), decimal(seq as nat))
}

/// Makes the meta of a dead-lettered job.
pub fn mark_dead_letter(meta: &Option<Json>, from: &str, max: u64, seq: u64) -> (r: Json)
    ensures
        r.text@ == marked(*meta, from@, max, seq).0,
        r.keys == Some(marked(*meta, from@, max, seq).1),
{
    let empty = Json { text: empty_object_text().to_owned(), keys: Some(0) };
    let m0 = match meta {
        Some(m) => if m.keys.is_some() {
            m.copy()
        } else {
            empty
        },
        None => empty,
    };
    let m1 = with_text_member(&m0, "$dead_letter_from", from);
    let m2 = with_text_member(&m1, "$dead_letter_deliveries", decimal_text(max).as_str());
    with_text_member(&m2, "$dead_letter_src_seq", decimal_text(seq).as_str())
}

/// The place of the payload that was fetched for a job.
pub open spec fn fetched_at(fetched: Seq<Fetched>, seq: u64) -> int
    decreases fetched.len(),
{
    if fetched.len() == 0 {
        -1
    } else {
        let i = fetched_at(fetched.drop_last(), seq);
        if i >= 0 {
            i
        } else if fetched.last().0 == seq {
            fetched.len() - 1
        } else {
            -1
        }
    }
}

/// The payload of a job: from memory, else the one that was fetched.
pub open spec fn payload_of(t: TopicView, fetched: Seq<Fetched>, seq: u64) -> (
    Option<Json>,
    Option<Json>,
) {
    let i = fetched_at(fetched, seq);
    if t.rec(seq).payload_resident {
        (t.rec(seq).data, t.rec(seq).meta)
    } else if i >= 0 {
        (Some(fetched[i].1), fetched[i].2)
    } else {
        (None, None)
    }
}

/// A record is the copy of a job for the dead-letter topic.
pub open spec fn is_copy(
    c: StoredRecord,
    t: TopicView,
    fetched: Seq<Fetched>,
    seq: u64,
    max: u64,
    now: i64,
) -> bool {
    let p = payload_of(t, fetched, seq);
    &&& c.ts == now
    &&& c.node == t.rec(seq).node
    &&& c.tag == t.rec(seq).tag
    &&& c.data is Some
    &&& p.0 is Some ==> c.data == p.0
    &&& p.0 is None ==> c.data->0.is_null()
    &&& c.meta is Some
    &&& c.meta->0.text@ == marked(p.1, t.name, max, seq).0
    &&& c.meta->0.keys == Some(marked(p.1, t.name, max, seq).1)
    &&& c.bytes == cap64(payload_size(c.data->0, c.meta))
    &&& !c.deleted
    &&& c.payload_resident
    &&& c.hops == 0
}

/// The jobs of a list whose record is there, in order.
pub open spec fn live_jobs(t: TopicView, seqs: Seq<u64>) -> Seq<u64>
    decreases seqs.len(),
{
    if seqs.len() == 0 {
        Seq::empty()
    } else {
        let earlier = live_jobs(t, seqs.drop_last());
        if t.has_live(seqs.last()) {
            earlier.push(seqs.last())
        } else {
            earlier
        }
    }
}

/// Records are the copies of jobs for the dead-letter topic.
pub open spec fn are_copies(
    recs: Seq<StoredRecord>,
    t: TopicView,
    fetched: Seq<Fetched>,
    seqs: Seq<u64>,
    max: u64,
    now: i64,
) -> bool {
    let live = live_jobs(t, seqs);
    &&& recs.len() == live.len()
    &&& forall|i: int|
        0 <= i < recs.len() ==> is_copy(#[trigger] recs[i], t, fetched, live[i], max, now)
}

/// Where the payload of a job is among those fetched.
pub fn find_fetched(fetched: &Vec<Fetched>, seq: u64) -> (r: Option<usize>)
    ensures
        match r {
            Some(i) => i == fetched_at(fetched@, seq) && i < fetched@.len(),
            None => fetched_at(fetched@, seq) < 0,
        },
{
    let mut i: usize = 0;
    let mut found: Option<usize> = None;
    assert(fetched@.take(0) =~= Seq::<Fetched>::empty());
    while i < fetched.len()
        invariant
            i <= fetched@.len(),
            match found {
                Some(k) => k == fetched_at(fetched@.take(i as int), seq) && k < i,
                None => fetched_at(fetched@.take(i as int), seq) < 0,
            },
        decreases fetched@.len() - i,
    {
        proof {
            assert(fetched@.take(i + 1).drop_last() =~= fetched@.take(i as int));
            assert(fetched@.take(i + 1).last() == fetched@[i as int]);
        }
        if found.is_none() && fetched[i].0 == seq {
            found = Some(i);
        }
        i += 1;
    }
    assert(fetched@.take(i as int) =~= fetched@);
    found
}

impl TopicState {
    /// Makes the copies of jobs for the dead-letter topic. Payloads that live in
    /// segments are given in `fetched`.
    pub fn dead_letter_records(
        &self,
        seqs: &Vec<u64>,
        fetched: &Vec<Fetched>,
        max_deliveries: u64,
        now: i64,
    ) -> (r: Vec<StoredRecord>)
        requires
            self.wf(),
        ensures
            are_copies(r@, self@, fetched@, seqs@, max_deliveries, now),
    {
        let ghost t = self@;
        let mut out: Vec<StoredRecord> = Vec::new();
        let mut i: usize = 0;
        assert(seqs@.take(0) =~= Seq::<u64>::empty());
        while i < seqs.len()
            invariant
                self.wf(),
                t == self@,
                i <= seqs@.len(),
                are_copies(out@, t, fetched@, seqs@.take(i as int), max_deliveries, now),
            decreases seqs@.len() - i,
        {
            let seq: u64 = seqs[i];
            let ghost o = out@;
            proof {
                assert(seqs@.take(i + 1).drop_last() =~= seqs@.take(i as int));
                assert(seqs@.take(i + 1).last() == seq);
            }
            match self.index.get(seq) {
                Some(rec) => {
                    if !rec.deleted {
                        let (data, meta) = if rec.payload_resident {
                            (copy_json(&rec.data), copy_json(&rec.meta))
                        } else {
                            match find_fetched(fetched, seq) {
                                Some(k) => (
                                    Some(fetched[k].1.copy()),
                                    copy_json(&fetched[k].2),
                                ),
                                None => (None, None),
                            }
                        };
                        let data = match data {
                            Some(d) => d,
                            None => Json::null(),
                        };
                        let m = Some(
                            mark_dead_letter(&meta, self.name.as_str(), max_deliveries, seq),
                        );
                        let bytes: u64 = payload_bytes(&data, &m);
                        out.push(
                            StoredRecord {
                                ts: now,
                                node: copy_text(&rec.node),
                                tag: copy_text(&rec.tag),
                                data: Some(data),
                                meta: m,
                                bytes,
                                deleted: false,
                                payload_resident: true,
                                hops: 0,
                            },
                        );
                        proof {
                            let live = live_jobs(t, seqs@.take(i as int));
                            let live2 = live_jobs(t, seqs@.take(i + 1));
                            assert(live2 == live.push(seq));
                            assert forall|k: int| 0 <= k < out@.len() implies is_copy(
                                #[trigger] out@[k],
                                t,
                                fetched@,
                                live2[k],
                                max_deliveries,
                                now,
                            ) by {
                                if k < o.len() {
                                    assert(out@[k] == o[k]);
                                }
                            }
                        }
                    }
                },
                None => {},
            }
            i += 1;
        }
        assert(seqs@.take(i as int) =~= seqs@);
        out
    }

    /// Puts jobs up for reclaim.
    pub fn requeue(&mut self, seqs: &Vec<u64>)
        requires
            old(self).wf(),
            old(self)@.queue is Some,
        ensures
            final(self).wf(),
            final(self)@ == old(self)@.with_queue(
                QueueView {
                    reclaim: old(self)@.queue->0.reclaim.union(seqs@.to_set()),
                    ..old(self)@.queue->0
                },
            ),
    {
        let ghost t = self@;
        let ghost q0 = t.queue->0;
        let mut queue: Option<QueueProjection> = None;
        std::mem::swap(&mut self.queue, &mut queue);
        match queue {
            Some(q) => {
                let mut q = q;
                let mut i: usize = 0;
                assert(seqs@.take(0).to_set() =~= Set::<u64>::empty());
                while i < seqs.len()
                    invariant
                        i <= seqs@.len(),
                        q.wf(),
                        q@.reclaim =~= q0.reclaim.union(seqs@.take(i as int).to_set()),
                        q@ == (QueueView { reclaim: q@.reclaim, ..q0 }),
                    decreases seqs@.len() - i,
                {
                    proof {
                        let a = seqs@.take(i as int);
                        let b = seqs@.take(i + 1);
                        assert forall|x: u64| b.contains(x) <==> a.contains(x) || x
                            == seqs@[i as int] by {
                            if a.contains(x) {
                                let m = choose|m: int| 0 <= m < a.len() && a[m] == x;
                                assert(b[m] == x);
                            }
                            if b.contains(x) {
                                let m = choose|m: int| 0 <= m < b.len() && b[m] == x;
                                if m < i {
                                    assert(a[m] == x);
                                }
                            }
                            assert(b[i as int] == seqs@[i as int]);
                        }
                    }
                    q.push_reclaim(seqs[i]);
                    i += 1;
                }
                assert(seqs@.take(i as int) =~= seqs@);
                self.queue = Some(q);
            },
            None => {},
        }
    }

    /// Takes jobs back that were counted as dead-lettered.
    fn requeue_diverted(&mut self, seqs: &Vec<u64>)
        requires
            old(self).wf(),
            old(self)@.queue is Some,
        ensures
            final(self).wf(),
            final(self)@ == old(self)@.diverted_back(seqs@),
    {
        self.requeue(seqs);
        let n: u64 = seqs.len() as u64;
        let mut queue: Option<QueueProjection> = None;
        std::mem::swap(&mut self.queue, &mut queue);
        match queue {
            Some(q) => {
                let mut q = q;
                q.dead_lettered = q.dead_lettered.saturating_sub(n);
                self.queue = Some(q);
            },
            None => {},
        }
    }
}

impl TopicView {
    /// The queue with jobs taken back that were counted as dead-lettered.
    pub open spec fn diverted_back(self, seqs: Seq<u64>) -> TopicView {
        self.with_queue(
            QueueView {
                reclaim: self.queue->0.reclaim.union(seqs.to_set()),
                dead_lettered: sat_sub(self.queue->0.dead_lettered, seqs.len() as u64),
                ..self.queue->0
            },
        )
    }
}

impl EngineView {
    /// A queue without one of its jobs, whose bytes no longer count.
    pub open spec fn without_job(self, name: Seq<char>, seq: u64) -> EngineView {
        let t = self.topics[name];
        let s = set![seq];
        let freed = crate::eviction::sat_add(
            t.loss(s).bytes_freed,
            t.without(s).reclaim_bytes(),
        );
        EngineView {
            total: sat_sub(self.total, freed),
            ..self.with_topic(t.after_delete_seqs(s))
        }
    }

    /// A queue without jobs, one after the other, except those whose deletion was
    /// refused: they are up for reclaim.
    pub open spec fn without_jobs(
        self,
        name: Seq<char>,
        seqs: Seq<u64>,
        refused: Set<u64>,
    ) -> EngineView
        decreases seqs.len(),
    {
        if seqs.len() == 0 {
            self
        } else {
            let v = self.without_jobs(name, seqs.drop_last(), refused);
            let s = seqs.last();
            if refused.contains(s) {
                let q = v.topics[name].queue->0;
                v.with_jobs(name, QueueView { reclaim: q.reclaim.insert(s), ..q })
            } else {
                v.without_job(name, s)
            }
        }
    }

    /// The engine with the dead-letter topic in place, where it can be created.
    pub open spec fn with_dead_letter(self, dl: Seq<char>, now: i64) -> EngineView {
        if !self.topics.contains_key(dl) && self.put_refusal(dl, default_config()) is None {
            self.with_put(dl, default_config(), now)
        } else {
            self
        }
    }

    /// The dead-letter topic takes copies: it is there, and there are sequence numbers,
    /// bytes and counts left for them.
    pub open spec fn takes_dead_letters(self, dl: Seq<char>, copies: Seq<StoredRecord>) -> bool {
        &&& self.topics.contains_key(dl)
        &&& copies.len() > 0 ==> self.topics[dl].room(copies.len(), bytes_in(copies) + 1)
    }

    /// Copies of jobs are staged in the dead-letter topic. The jobs go back to the
    /// queue where that topic cannot be created or does not take them.
    pub open spec fn dead_letters_begun(
        self,
        name: Seq<char>,
        dl: Seq<char>,
        seqs: Seq<u64>,
        copies: Seq<StoredRecord>,
        now: i64,
    ) -> EngineView {
        let v = self.with_dead_letter(dl, now);
        if !v.takes_dead_letters(dl, copies) {
            v.with_topic(v.topics[name].diverted_back(seqs))
        } else if copies.len() > 0 {
            v.with_topic(v.topics[dl].staged(copies).ticketed())
        } else {
            v
        }
    }

    /// The engine once it is known whether copies of jobs could be logged: where they
    /// can be read the jobs are deleted, except those whose deletion was refused;
    /// else the jobs go back to the queue.
    pub open spec fn dead_letters_done(
        self,
        p: PendingDeadLetter,
        committed: bool,
        refused: Set<u64>,
        now: i64,
    ) -> EngineView {
        match p.append {
            Some(a) => {
                let v = self.append_done(a, committed, now);
                if committed && self.holds_append(a) {
                    v.without_jobs(p.name@, p.seqs@, refused)
                } else {
                    v.with_topic(v.topics[p.name@].diverted_back(p.seqs@))
                }
            },
            None => self.without_jobs(p.name@, p.seqs@, refused),
        }
    }

    /// Jobs move to the dead-letter topic, without a log. They go back to the queue
    /// where that topic cannot be created or does not take them.
    pub open spec fn moves_dead_letters(
        self,
        name: Seq<char>,
        dl: Seq<char>,
        seqs: Seq<u64>,
        copies: Seq<StoredRecord>,
        now: i64,
    ) -> EngineView {
        let v = self.with_dead_letter(dl, now);
        if !v.takes_dead_letters(dl, copies) {
            v.with_topic(v.topics[name].diverted_back(seqs))
        } else if copies.len() > 0 {
            v.with_topic(v.topics[dl].landed(copies, now)).without_jobs(name, seqs, Set::empty())
        } else {
            v.without_jobs(name, seqs, Set::empty())
        }
    }
}

/// Jobs on their way to the dead-letter topic.
#[derive(Debug)]
pub struct PendingDeadLetter {
    pub name: String,
    pub seqs: Vec<u64>,
    /// The copies that wait for the log, if there are any.
    pub append: Option<PendingAppend>,
}

fn holds_seq(v: &Vec<u64>, x: u64) -> (r: bool)
    ensures
        r == v@.contains(x),
{
    let mut i: usize = 0;
    while i < v.len()
        invariant
            i <= v@.len(),
            forall|j: int| 0 <= j < i ==> #[trigger] v@[j] != x,
        decreases v@.len() - i,
    {
        if v[i] == x {
            return true;
        }
        i += 1;
    }
    false
}

fn sum_sizes(records: &Vec<StoredRecord>) -> (r: u64)
    ensures
        r == cap64(bytes_in(records@)),
{
    let mut sum: u64 = 0;
    let mut i: usize = 0;
    assert(records@.take(0) =~= Seq::<StoredRecord>::empty());
    while i < records.len()
        invariant
            i <= records@.len(),
            sum == cap64(bytes_in(records@.take(i as int))),
        decreases records@.len() - i,
    {
        proof {
            assert(records@.take(i + 1).drop_last() =~= records@.take(i as int));
            assert(records@.take(i + 1).last() == records@[i as int]);
        }
        sum = sum.saturating_add(records[i].bytes);
        i += 1;
    }
    assert(records@.take(i as int) =~= records@);
    sum
}

impl Engine {
    /// Deletes one job of a queue.
    fn delete_one_seq(&mut self, name: &str, seq: u64)
        requires
            old(self).wf(),
            old(self)@.topics.contains_key(name@),
        ensures
            final(self).wf(),
            final(self)@ == old(self)@.without_job(name@, seq),
    {
        let ghost v = self@;
        match self.take_topic(name) {
            Some(t) => {
                let mut t = t;
                let mut one: Vec<u64> = Vec::new();
                one.push(seq);
                proof {
                    assert(one@.to_set() =~= set![seq]) by {
                        assert(one@ =~= seq![seq]);
                        assert(one@[0] == seq);
                    }
                    delete_seqs_keeps(t@, set![seq]);
                }
                let (stats, _) = t.delete_seqs_stats(one.as_slice());
                self.put_topic(t);
                self.release_total_bytes(stats.bytes_freed);
                proof {
                    assert(self@.topics =~= v.topics.insert(name@, t@));
                }
            },
            None => {},
        }
    }

    /// Deletes jobs of a queue, except those whose deletion was refused: they are
    /// put up for reclaim.
    fn delete_jobs(&mut self, name: &str, seqs: &Vec<u64>, refused: &Vec<u64>)
        requires
            old(self).wf(),
            old(self)@.queue_refusal(name@) is None,
        ensures
            final(self).wf(),
            final(self)@ == old(self)@.without_jobs(name@, seqs@, refused@.to_set()),
            final(self)@.queue_refusal(name@) is None,
    {
        let ghost v = self@;
        let mut i: usize = 0;
        assert(seqs@.take(0) =~= Seq::<u64>::empty());
        while i < seqs.len()
            invariant
                self.wf(),
                i <= seqs@.len(),
                self@ == v.without_jobs(name@, seqs@.take(i as int), refused@.to_set()),
                self@.queue_refusal(name@) is None,
            decreases seqs@.len() - i,
        {
            let seq: u64 = seqs[i];
            proof {
                assert(seqs@.take(i + 1).drop_last() =~= seqs@.take(i as int));
                assert(seqs@.take(i + 1).last() == seq);
                self.wf_ok();
            }
            let ghost w = self@;
            if holds_seq(refused, seq) {
                match self.take_topic(name) {
                    Some(t) => {
                        let mut t = t;
                        let mut one: Vec<u64> = Vec::new();
                        one.push(seq);
                        t.requeue(&one);
                        self.put_topic(t);
                        proof {
                            let q = w.topics[name@].queue->0;
                            assert(one@ =~= seq![seq]);
                            assert(one@[0] == seq);
                            assert(q.reclaim.union(one@.to_set()) =~= q.reclaim.insert(seq));
                            assert(self@.topics =~= w.topics.insert(name@, t@));
                        }
                    },
                    None => {},
                }
            } else {
                self.delete_one_seq(name, seq);
            }
            i += 1;
        }
        assert(seqs@.take(i as int) =~= seqs@);
    }

    /// Stages copies of jobs that were handed out too often in the dead-letter topic,
    /// which is created where it is missing. Nothing is left to do where the jobs
    /// went back to the queue.
    pub fn begin_dead_letter(
        &mut self,
        name: &str,
        dl: &str,
        seqs: &Vec<u64>,
        fetched: &Vec<Fetched>,
        max_deliveries: u64,
        now: i64,
    ) -> (r: Option<PendingDeadLetter>)
        requires
            old(self).wf(),
            old(self)@.queue_refusal(name@) is None,
            old(self)@.next_topic_id < u64::MAX,
        ensures
            final(self).wf(),
            final(self)@.queue_refusal(name@) is None,
            exists|copies: Seq<StoredRecord>| #[trigger]
                are_copies(
                    copies,
                    old(self)@.topics[name@],
                    fetched@,
                    seqs@,
                    max_deliveries,
                    now,
                ) && {
                    let v = old(self)@.with_dead_letter(dl@, now);
                    &&& final(self)@ == old(self)@.dead_letters_begun(
                        name@,
                        dl@,
                        seqs@,
                        copies,
                        now,
                    )
                    &&& r is Some <==> v.takes_dead_letters(dl@, copies)
                    &&& r is Some ==> {
                        &&& r->0.name@ == name@
                        &&& r->0.seqs@ == seqs@
                        &&& r->0.append is Some <==> copies.len() > 0
                        &&& copies.len() > 0 ==> r->0.append->0.stages(v.topics[dl@], copies)
                    }
                },
    {
        let ghost v0 = self@;
        if !self.topics.contains_key(dl) {
            let _ = self.put_box(dl, TopicConfig::default(), now);
        }
        let ghost v = self@;
        proof {
            self.wf_ok();
            assert(v == v0.with_dead_letter(dl@, now));
            assert(v.topics[name@] == v0.topics[name@]);
        }
        let copies = match self.topics.get(name) {
            Some(t) => t.dead_letter_records(seqs, fetched, max_deliveries, now),
            None => Vec::new(),
        };
        let ghost cs = copies@;
        assert(are_copies(cs, v0.topics[name@], fetched@, seqs@, max_deliveries, now));
        let n: u64 = copies.len() as u64;
        let bytes: u64 = sum_sizes(&copies);
        let ok = match self.topics.get(dl) {
            Some(d) => {
                let tail: u64 = d.index.base_seq + d.index.records.len() as u64;
                n == 0 || (n <= u64::MAX - tail && n <= u64::MAX - d.count() && bytes < u64::MAX
                    - d.bytes())
            },
            None => false,
        };
        if !ok {
            match self.take_topic(name) {
                Some(t) => {
                    let mut t = t;
                    t.requeue_diverted(seqs);
                    self.put_topic(t);
                    proof {
                        assert(self@.topics =~= v.topics.insert(name@, t@));
                    }
                },
                None => {},
            }
            return None;
        }
        let mut append: Option<PendingAppend> = None;
        if n > 0 {
            match self.take_topic(dl) {
                Some(d) => {
                    let mut d = d;
                    append = Some(d.begin_append(copies));
                    self.put_topic(d);
                    proof {
                        assert(self@.topics =~= v.topics.insert(dl@, d@));
                    }
                },
                None => {},
            }
        }
        Some(PendingDeadLetter { name: name.to_owned(), seqs: copy_seqs(seqs), append })
    }

    /// Makes copies of jobs readable once they are logged, and deletes the jobs; or
    /// takes the copies back, and puts the jobs up for reclaim. `refused` names the
    /// jobs whose deletion could not be logged.
    pub fn finish_dead_letter(
        &mut self,
        p: PendingDeadLetter,
        committed: bool,
        refused: &Vec<u64>,
        now: i64,
    )
        requires
            old(self).wf(),
            old(self)@.queue_refusal(p.name@) is None,
            p.append is Some ==> old(self)@.append_ready(p.append->0)
                && p.append->0.staged.fits(),
        ensures
            final(self).wf(),
            final(self)@.queue_refusal(p.name@) is None,
            final(self)@ == old(self)@.dead_letters_done(p, committed, refused@.to_set(), now),
    {
        proof {
            self.wf_ok();
        }
        let landed = match &p.append {
            Some(a) => self.finish_append(a, committed, now),
            None => true,
        };
        let ghost w = self@;
        proof {
            self.wf_ok();
            assert(w.queue_refusal(p.name@) is None);
        }
        if landed {
            self.delete_jobs(p.name.as_str(), &p.seqs, refused);
        } else {
            match self.take_topic(p.name.as_str()) {
                Some(t) => {
                    let mut t = t;
                    t.requeue_diverted(&p.seqs);
                    self.put_topic(t);
                    proof {
                        assert(self@.topics =~= w.topics.insert(p.name@, t@));
                    }
                },
                None => {},
            }
        }
    }

    /// Moves jobs that were handed out too often to the dead-letter topic, without a
    /// log.
    pub fn dead_letter_jobs(
        &mut self,
        name: &str,
        dl: &str,
        seqs: &Vec<u64>,
        fetched: &Vec<Fetched>,
        max_deliveries: u64,
        now: i64,
    )
        requires
            old(self).wf(),
            old(self)@.quiet(),
            old(self)@.queue_refusal(name@) is None,
            old(self)@.next_topic_id < u64::MAX,
        ensures
            final(self).wf(),
            final(self)@.quiet(),
            final(self)@.queue_refusal(name@) is None,
            exists|copies: Seq<StoredRecord>| #[trigger]
                are_copies(
                    copies,
                    old(self)@.topics[name@],
                    fetched@,
                    seqs@,
                    max_deliveries,
                    now,
                ) && final(self)@ == old(self)@.moves_dead_letters(
                    name@,
                    dl@,
                    seqs@,
                    copies,
                    now,
                ),
    {
        let ghost v0 = self@;
        let none: Vec<u64> = Vec::new();
        proof {
            self.wf_ok();
            assert(none@.to_set() =~= Set::<u64>::empty());
        }
        let begun = self.begin_dead_letter(name, dl, seqs, fetched, max_deliveries, now);
        let ghost v = v0.with_dead_letter(dl@, now);
        let ghost cs = choose|cs: Seq<StoredRecord>| #[trigger]
            are_copies(cs, v0.topics[name@], fetched@, seqs@, max_deliveries, now) && {
                &&& self@ == v0.dead_letters_begun(name@, dl@, seqs@, cs, now)
                &&& begun is Some <==> v.takes_dead_letters(dl@, cs)
                &&& begun is Some ==> {
                    &&& begun->0.name@ == name@
                    &&& begun->0.seqs@ == seqs@
                    &&& begun->0.append is Some <==> cs.len() > 0
                    &&& cs.len() > 0 ==> begun->0.append->0.stages(v.topics[dl@], cs)
                }
            };
        match begun {
            Some(p) => {
                proof {
                    if cs.len() > 0 {
                        if !v0.topics.contains_key(dl@) {
                            put_keeps_quiet(v0, dl@, default_config(), now);
                        }
                        staged_append_can_finish(v, v.topics[dl@], cs, p.append->0, now);
                    }
                }
                self.finish_dead_letter(p, true, &none, now);
            },
            None => {},
        }
        assert(self@ == v0.moves_dead_letters(name@, dl@, seqs@, cs, now));
        proof {
            dead_lettering_keeps_quiet(v0, name@, dl@, seqs@, cs, now);
        }
    }
}

/// A job is another with the payload that was fetched for it, where its own is not at
/// hand; where none was fetched, its data is `null`.
pub open spec fn filled_job(a: LeasedJob, b: LeasedJob, fetched: Seq<Fetched>) -> bool {
    let i = fetched_at(fetched, a.seq);
    &&& b == (LeasedJob { data: b.data, meta: b.meta, ..a })
    &&& b.data is Some
    &&& if a.data is Some {
        b.data == a.data && b.meta == a.meta
    } else if i >= 0 {
        b.data->0 == fetched[i].1 && b.meta == fetched[i].2
    } else {
        b.data->0.is_null() && b.meta == a.meta
    }
}

/// Puts in the payloads of jobs that were fetched from segments.
pub fn fill_jobs(jobs: Vec<LeasedJob>, fetched: &Vec<Fetched>) -> (r: Vec<LeasedJob>)
    ensures
        r@.len() == jobs@.len(),
        forall|i: int| 0 <= i < r@.len() ==> filled_job(jobs@[i], #[trigger] r@[i], fetched@),
{
    let ghost all = jobs@;
    let mut jobs = jobs;
    let mut i: usize = 0;
    while i < jobs.len()
        invariant
            i <= all.len(),
            jobs@.len() == all.len(),
            forall|k: int| 0 <= k < i ==> filled_job(all[k], #[trigger] jobs@[k], fetched@),
            forall|k: int| i <= k < all.len() ==> #[trigger] jobs@[k] == all[k],
        decreases all.len() - i,
    {
        let j = &jobs[i];
        if j.data.is_none() {
            let (data, meta) = match find_fetched(fetched, j.seq) {
                Some(k) => {
                    let f = &fetched[k];
                    (f.1.copy(), copy_json(&f.2))
                },
                None => (Json::null(), copy_json(&j.meta)),
            };
            let out = LeasedJob {
                seq: j.seq,
                lease_id: j.lease_id,
                deadline: j.deadline,
                ts: j.ts,
                tag: copy_text(&j.tag),
                deliveries: j.deliveries,
                data: Some(data),
                meta,
            };
            jobs.set(i, out);
        }
        i += 1;
    }
    jobs
}

/// The lower-case hexadecimal digits of a number.
pub open spec fn hexadecimal(n: nat) -> Seq<char>
    decreases n,
{
    if n < 16 {
        seq![hex_digit(n)]
    } else {
        hexadecimal(n / 16).push(hex_digit(n % 16))
    }
}

/// The hexadecimal digit of a number below sixteen.
pub open spec fn hex_digit(n: nat) -> char {
    if n < 10 {
        crate::payload::digit(n)
    } else if n == 10 {
        'a'
    } else if n == 11 {
        'b'
    } else if n == 12 {
        'c'
    } else if n == 13 {
        'd'
    } else if n == 14 {
        'e'
    } else {
        'f'
    }
}

fn hex_digit_text(n: u64) -> (r: String)
    requires
        n < 16,
    ensures
        r@ == seq![hex_digit(n as nat)],
{
    if n < 10 {
        return decimal_text(n);
    }
    proof {
        reveal_strlit("a");
        reveal_strlit("b");
        reveal_strlit("c");
        reveal_strlit("d");
        reveal_strlit("e");
        reveal_strlit("f");
    }
    let s = if n == 10 {
        "a"
    } else if n == 11 {
        "b"
    } else if n == 12 {
        "c"
    } else if n == 13 {
        "d"
    } else if n == 14 {
        "e"
    } else {
        "f"
    };
    assert(s@ =~= seq![hex_digit(n as nat)]);
    s.to_owned()
}

fn hex_text(n: u64) -> (r: String)
    ensures
        r@ == hexadecimal(n as nat),
    decreases n,
{
    if n < 16 {
        hex_digit_text(n)
    } else {
        let mut s = hex_text(n / 16);
        let d = hex_digit_text(n % 16);
        s.append(d.as_str());
        assert(s@ =~= hexadecimal((n / 16) as nat).push(hex_digit((n % 16) as nat)));
        s
    }
}

/// The token that stands for a lease: `lease_` and its number in hexadecimal.
pub open spec fn lease_token(lease_id: u64) -> Seq<char> {
    "lease_"@ + hexadecimal(lease_id as nat)
}

/// Writes the token that stands for a lease.
pub fn lease_token_text(lease_id: u64) -> (r: String)
    ensures
        r@ == lease_token(lease_id),
{
    let mut s = "lease_".to_owned();
    s.append(hex_text(lease_id).as_str());
    s
}

/// A job as a client gets it.
#[derive(Debug)]
pub struct ClaimedJob {
    pub seq: u64,
    pub lease_id: String,
    pub deadline: i64,
    pub ts: i64,
    pub tag: Option<String>,
    pub deliveries: u64,
    pub data: Option<Json>,
    pub meta: Option<Json>,
}

/// The answer to a claim.
#[derive(Debug)]
pub struct ClaimResponse {
    pub claimed: Vec<ClaimedJob>,
    pub count: u64,
    pub ready: u64,
    /// The leases to be logged.
    pub frames: Vec<WalRecord>,
}

/// A job is shown to a client.
pub open spec fn shows(c: ClaimedJob, j: LeasedJob) -> bool {
    &&& c.seq == j.seq
    &&& c.lease_id@ == lease_token(j.lease_id)
    &&& c.deadline == j.deadline
    &&& c.ts == j.ts
    &&& c.tag == j.tag
    &&& c.deliveries == j.deliveries
    &&& c.data == j.data
    &&& c.meta == j.meta
}

impl EngineView {
    /// The engine once the jobs of a claim are dealt out.
    pub open spec fn dealt(
        self,
        name: Seq<char>,
        claimers: Seq<Claimer>,
        lease_ms: Option<u64>,
        now: i64,
    ) -> EngineView {
        let t = self.topics[name].claimed_from(now);
        let deadline = claim_deadline(lease_ms, t.config, now);
        self.with_topic(t.with_queue(cohort_deal(t, claimers, deadline).queue))
    }
}

/// Dealing out jobs leaves every topic at rest.
pub proof fn dealing_keeps_quiet(
    v: EngineView,
    name: Seq<char>,
    claimers: Seq<Claimer>,
    lease_ms: Option<u64>,
    now: i64,
)
    requires
        v.ok(),
        v.quiet(),
        v.topics.contains_key(name),
    ensures
        v.dealt(name, claimers, lease_ms, now).quiet(),
{
    let t = v.topics[name];
    let w = v.dealt(name, claimers, lease_ms, now);
    retention_keeps(t, now);
    assert forall|n: Seq<char>| #[trigger] w.topics.contains_key(n) implies w.topics[n].idle() by {
        if n != name {
            assert(v.topics.contains_key(n));
        }
    }
}

impl Engine {
    /// A claim without a log: deals the jobs of a queue out to a cohort, moves those
    /// that were handed out too often to the dead-letter topic, and says how many
    /// are left.
    pub fn claim_cohort(
        &mut self,
        name: &str,
        claimers: &Vec<Claimer>,
        lease_ms: Option<u64>,
        now: i64,
    ) -> (r: Result<(ClaimOutcome, u64), Error>)
        requires
            old(self).wf(),
            old(self)@.quiet(),
            old(self)@.next_topic_id < u64::MAX,
            old(self)@.queue_refusal(name@) is None ==> old(
                self,
            )@.topics[name@].queue->0.next_lease_id + claimers@.len() * MAX_CLAIM <= u64::MAX,
        ensures
            final(self).wf(),
            final(self)@.quiet(),
            match old(self)@.queue_refusal(name@) {
                Some(c) => {
                    &&& r is Err
                    &&& r->Err_0.code == c
                    &&& r->Err_0.detail is Plain
                    &&& final(self)@ == old(self)@
                },
                None => {
                    let t = old(self)@.topics[name@].claimed_from(now);
                    let deadline = claim_deadline(lease_ms, t.config, now);
                    let d = cohort_deal(t, claimers@, deadline);
                    let v1 = old(self)@.dealt(name@, claimers@, lease_ms, now);
                    &&& r is Ok
                    &&& r->Ok_0.0.jobs@.len() == claimers@.len()
                    &&& forall|c: int|
                        0 <= c < claimers@.len() ==> (#[trigger] r->Ok_0.0.jobs@[c])@ == jobs_for(
                            t,
                            d.handed,
                            c,
                            deadline,
                        )
                    &&& r->Ok_0.0.dead@ == d.dead
                    &&& if t.logs_leases() {
                        claim_frames(r->Ok_0.0.frames@, t, claimers@, d, deadline, now)
                    } else {
                        r->Ok_0.0.frames@.len() == 0
                    }
                    &&& if d.dead.len() == 0 || t.config.dead_letter is None {
                        final(self)@ == v1
                    } else {
                        exists|copies: Seq<StoredRecord>| #[trigger]
                            are_copies(
                                copies,
                                v1.topics[name@],
                                Seq::<Fetched>::empty(),
                                d.dead,
                                t.config.max_deliveries,
                                now,
                            ) && final(self)@ == v1.moves_dead_letters(
                                name@,
                                t.config.dead_letter->0@,
                                d.dead,
                                copies,
                                now,
                            )
                    }
                    &&& r->Ok_0.1 == final(self)@.topics[name@].ready(now)
                },
            },
    {
        let ghost v0 = self@;
        proof {
            self.wf_ok();
        }
        let out = match self.begin_claim(name, claimers, lease_ms, now) {
            Ok(o) => o,
            Err(e) => {
                return Err(e);
            },
        };
        let ghost v1 = self@;
        let ghost t = v0.topics[name@].claimed_from(now);
        assert(v1 == v0.dealt(name@, claimers@, lease_ms, now));
        proof {
            self.wf_ok();
        }
        assert(v1.topics[name@].config == t.config);
        let (dl, max) = match self.topics.get(name) {
            Some(t) => (copy_text(&t.config.dead_letter), t.config.max_deliveries),
            None => (None, 0),
        };
        let nothing: Vec<Fetched> = Vec::new();
        proof {
            assert(nothing@ =~= Seq::<Fetched>::empty());
            dealing_keeps_quiet(v0, name@, claimers@, lease_ms, now);
        }
        match &dl {
            Some(target) => {
                if out.dead.len() > 0 {
                    self.dead_letter_jobs(
                        name,
                        target.as_str(),
                        &out.dead,
                        &nothing,
                        max,
                        now,
                    );
                    proof {
                        let cs = choose|cs: Seq<StoredRecord>| #[trigger]
                            are_copies(
                                cs,
                                v1.topics[name@],
                                nothing@,
                                out.dead@,
                                max,
                                now,
                            ) && self@ == v1.moves_dead_letters(
                                name@,
                                target@,
                                out.dead@,
                                cs,
                                now,
                            );
                        assert(are_copies(
                            cs,
                            v1.topics[name@],
                            Seq::<Fetched>::empty(),
                            out.dead@,
                            t.config.max_deliveries,
                            now,
                        ));
                    }
                }
            },
            None => {},
        }
        assert(self@.queue_refusal(name@) is None);
        let ready: u64 = match self.topics.get(name) {
            Some(t) => t.ready_in_flight(now).0,
            None => 0,
        };
        Ok((out, ready))
    }
}

impl Engine {
    /// A claim of a single node, without a log.
    pub fn claim(
        &mut self,
        name: &str,
        node: &str,
        max: u32,
        lease_ms: Option<u64>,
        now: i64,
    ) -> (r: Result<ClaimResponse, Error>)
        requires
            old(self).wf(),
            old(self)@.quiet(),
            old(self)@.next_topic_id < u64::MAX,
            old(self)@.queue_refusal(name@) is None ==> old(
                self,
            )@.topics[name@].queue->0.next_lease_id + MAX_CLAIM <= u64::MAX,
        ensures
            final(self).wf(),
            final(self)@.quiet(),
            ({
                let bad = node@.len() == 0 || vstd::utf8::encode_utf8(node@).len()
                    > MAX_NODE_BYTES;
                if bad {
                    &&& r is Err
                    &&& r->Err_0.code == ErrorCode::InvalidRequest
                    &&& r->Err_0.detail is Plain
                    &&& final(self)@ == old(self)@
                } else if old(self)@.queue_refusal(name@) is Some {
                    &&& r is Err
                    &&& Some(r->Err_0.code) == old(self)@.queue_refusal(name@)
                    &&& r->Err_0.detail is Plain
                    &&& final(self)@ == old(self)@
                } else {
                    let t = old(self)@.topics[name@].claimed_from(now);
                    let deadline = claim_deadline(lease_ms, t.config, now);
                    &&& r is Ok
                    &&& exists|c: Claimer|
                        #![trigger sole_claim(old(self)@, name@, c, lease_ms, now, final(self)@)]
                        c.node@ == node@ && c.max == clamped_max(max) && c.work_conn
                            == None::<u64> && sole_claim(
                            old(self)@,
                            name@,
                            c,
                            lease_ms,
                            now,
                            final(self)@,
                        ) && shows_all(
                            r->Ok_0.claimed@,
                            jobs_for(t, cohort_deal(t, seq![c], deadline).handed, 0, deadline),
                        ) && (if t.logs_leases() {
                            claim_frames(
                                r->Ok_0.frames@,
                                t,
                                seq![c],
                                cohort_deal(t, seq![c], deadline),
                                deadline,
                                now,
                            )
                        } else {
                            r->Ok_0.frames@.len() == 0
                        })
                    &&& r->Ok_0.count == r->Ok_0.claimed@.len()
                    &&& r->Ok_0.ready == final(self)@.topics[name@].ready(now)
                }
            }),
    {
        if node.unicode_len() == 0 || byte_len(node) > MAX_NODE_BYTES {
            return Err(Error::new(ErrorCode::InvalidRequest));
        }
        let m: u32 = if max < 1 {
            1
        } else if max > MAX_CLAIM {
            MAX_CLAIM
        } else {
            max
        };
        let mut claimers: Vec<Claimer> = Vec::new();
        claimers.push(Claimer { node: node.to_owned(), max: m, work_conn: None });
        let ghost c = claimers@[0];
        assert(claimers@ =~= seq![c]);
        let ghost v0 = self@;
        let (out, ready) = match self.claim_cohort(name, &claimers, lease_ms, now) {
            Ok(o) => o,
            Err(e) => {
                return Err(e);
            },
        };
        assert(sole_claim(v0, name@, c, lease_ms, now, self@));
        let mut jobs = out.jobs;
        let mut claimed: Vec<ClaimedJob> = Vec::new();
        let ghost js = jobs@[0]@;
        match jobs.pop() {
            Some(list) => {
                assert(list@ == js);
                let mut i: usize = 0;
                while i < list.len()
                    invariant
                        i <= list@.len(),
                        list@ == js,
                        claimed@.len() == i,
                        forall|k: int| 0 <= k < i ==> shows(#[trigger] claimed@[k], js[k]),
                    decreases list@.len() - i,
                {
                    let j = &list[i];
                    claimed.push(
                        ClaimedJob {
                            seq: j.seq,
                            lease_id: lease_token_text(j.lease_id),
                            deadline: j.deadline,
                            ts: j.ts,
                            tag: copy_text(&j.tag),
                            deliveries: j.deliveries,
                            data: copy_json(&j.data),
                            meta: copy_json(&j.meta),
                        },
                    );
                    i += 1;
                }
            },
            None => {},
        }
        let count: u64 = claimed.len() as u64;
        Ok(ClaimResponse { claimed, count, ready, frames: out.frames })
    }
}

/// Jobs are shown to a client, in order.
pub open spec fn shows_all(claimed: Seq<ClaimedJob>, jobs: Seq<LeasedJob>) -> bool {
    &&& claimed.len() == jobs.len()
    &&& forall|i: int| 0 <= i < claimed.len() ==> shows(#[trigger] claimed[i], jobs[i])
}

/// The engine before and after the claim of a single claimer.
pub open spec fn sole_claim(
    v: EngineView,
    name: Seq<char>,
    c: Claimer,
    lease_ms: Option<u64>,
    now: i64,
    v2: EngineView,
) -> bool {
    let t = v.topics[name].claimed_from(now);
    let d = cohort_deal(t, seq![c], claim_deadline(lease_ms, t.config, now));
    let v1 = v.dealt(name, seq![c], lease_ms, now);
    if d.dead.len() == 0 || t.config.dead_letter is None {
        v2 == v1
    } else {
        exists|copies: Seq<StoredRecord>| #[trigger]
            are_copies(
                copies,
                v1.topics[name],
                Seq::<Fetched>::empty(),
                d.dead,
                t.config.max_deliveries,
                now,
            ) && v2 == v1.moves_dead_letters(
                name,
                t.config.dead_letter->0@,
                d.dead,
                copies,
                now,
            )
    }
}

/// What a request on leased jobs is refused for.
pub open spec fn touch_refusal(
    v: EngineView,
    name: Seq<char>,
    node: Seq<char>,
    seqs: Seq<u64>,
    lease_ids: Seq<Option<u64>>,
) -> Option<ErrorCode> {
    if node.len() == 0 {
        Some(ErrorCode::InvalidRequest)
    } else if seqs.len() > MAX_CLAIM {
        Some(ErrorCode::BatchTooLarge)
    } else if lease_ids.len() != 0 && lease_ids.len() != seqs.len() {
        Some(ErrorCode::InvalidRequest)
    } else {
        v.queue_refusal(name)
    }
}

/// What is said of a request on leased jobs that is refused.
pub open spec fn touch_detail(node: Seq<char>, seqs: Seq<u64>) -> ErrorDetail {
    if node.len() > 0 && seqs.len() > MAX_CLAIM {
        ErrorDetail::Batch { given: seqs.len() as u64, max: MAX_CLAIM as u64 }
    } else {
        ErrorDetail::Plain
    }
}

/// The outcome of a request on the leased jobs of a topic.
pub open spec fn touch_jobs(
    t: TopicView,
    op: LeaseOp,
    node: Seq<char>,
    seqs: Seq<u64>,
    lease_ids: Seq<Option<u64>>,
    now: i64,
) -> Touched {
    touch_all(t.queue->0.swept(now), op, node, seqs, lease_ids, now)
}

impl Engine {
    /// Does something with leased jobs. Handed back are the jobs something was done
    /// with, those that were skipped, the frames to be logged, and whether deletions
    /// must be logged before they count.
    fn touch_leases(
        &mut self,
        op: LeaseOp,
        event: u8,
        deadline: i64,
        name: &str,
        node: &str,
        seqs: &[u64],
        lease_ids: &[Option<u64>],
        now: i64,
    ) -> (r: Result<(Vec<(u64, u64)>, Vec<u64>, Vec<WalRecord>, bool), Error>)
        requires
            old(self).wf(),
        ensures
            final(self).wf(),
            match touch_refusal(old(self)@, name@, node@, seqs@, lease_ids@) {
                Some(c) => r is Err && r->Err_0.code == c && r->Err_0.detail == touch_detail(
                    node@,
                    seqs@,
                ) && final(self)@ == old(self)@,
                None => {
                    let t = old(self)@.topics[name@];
                    let x = touch_jobs(t, op, node@, seqs@, lease_ids@, now);
                    &&& r is Ok
                    &&& final(self)@ == old(self)@.with_jobs(name@, x.queue)
                    &&& r->Ok_0.0@ == x.done
                    &&& r->Ok_0.1@ == x.skipped
                    &&& if t.logs_leases() {
                        lease_frames(
                            r->Ok_0.2@,
                            t.topic_id,
                            event,
                            x.done,
                            node@,
                            deadline,
                            now,
                        )
                    } else {
                        r->Ok_0.2@.len() == 0
                    }
                    &&& r->Ok_0.3 == (t.config.class() == Durability::Fsync)
                },
            },
    {
        if node.unicode_len() == 0 {
            return Err(Error::new(ErrorCode::InvalidRequest));
        }
        match check_seqs_len(seqs) {
            Ok(_) => {},
            Err(e) => {
                return Err(e);
            },
        }
        match check_lease_ids_len(seqs, lease_ids) {
            Ok(_) => {},
            Err(e) => {
                return Err(e);
            },
        }
        let ghost v = self@;
        let mut t = match self.take_queue(name) {
            Ok(t) => t,
            Err(e) => {
                return Err(e);
            },
        };
        t.sweep(now);
        let mut queue: Option<QueueProjection> = None;
        std::mem::swap(&mut t.queue, &mut queue);
        let mut q = match queue {
            Some(q) => q,
            None => QueueProjection::new(1),
        };
        let (done, skipped) = q.touch(op, node, seqs, lease_ids, now);
        t.queue = Some(q);
        let frames = if t.config.leases_durable && t.config.uses_persistent_record_store() {
            lease_records(t.topic_id, event, &done, node, deadline, now)
        } else {
            Vec::new()
        };
        let durable = match t.config.durability_class() {
            Durability::Fsync => true,
            _ => false,
        };
        self.put_topic(t);
        proof {
            assert(self@.topics =~= v.topics.insert(name@, t@));
        }
        Ok((done, skipped, frames, durable))
    }

    /// Counts the jobs of a queue.
    fn count_queue(&mut self, name: &str, now: i64) -> (r: QueueState)
        requires
            old(self).wf(),
            old(self)@.queue_refusal(name@) is None,
        ensures
            final(self).wf(),
            final(self)@ == old(self)@.with_topic(old(self)@.topics[name@].counted(now)),
            r == old(self)@.topics[name@].counted(now).counters(now),
    {
        let ghost v = self@;
        match self.take_topic(name) {
            Some(t) => {
                let mut t = t;
                let c = t.queue_counters(now);
                self.put_topic(t);
                proof {
                    assert(self@.topics =~= v.topics.insert(name@, t@));
                }
                c
            },
            None => QueueState { ready: 0, in_flight: 0, dead_lettered: 0 },
        }
    }

    /// The first step of an acknowledgement: gives up the leases, and names the jobs
    /// to be deleted.
    pub fn begin_ack(
        &mut self,
        name: &str,
        node: &str,
        seqs: &[u64],
        lease_ids: &[Option<u64>],
        now: i64,
    ) -> (r: Result<PendingAck, Error>)
        requires
            old(self).wf(),
        ensures
            final(self).wf(),
            match touch_refusal(old(self)@, name@, node@, seqs@, lease_ids@) {
                Some(c) => r is Err && r->Err_0.code == c && r->Err_0.detail == touch_detail(
                    node@,
                    seqs@,
                ) && final(self)@ == old(self)@,
                None => r is Ok && acks_begun(
                    old(self)@,
                    name@,
                    node@,
                    seqs@,
                    lease_ids@,
                    now,
                    r->Ok_0,
                    final(self)@,
                ),
            },
    {
        match self.touch_leases(LeaseOp::Ack, 3, 0, name, node, seqs, lease_ids, now) {
            Ok((done, skipped, frames, durable)) => Ok(
                PendingAck { name: name.to_owned(), done, skipped, durable, frames },
            ),
            Err(e) => Err(e),
        }
    }

    /// The second step of an acknowledgement. The deletions of the first `logged`
    /// jobs are logged, and these jobs are deleted. Where that is not all of them,
    /// the others are put up for reclaim, and the request fails.
    pub fn finish_ack(&mut self, p: PendingAck, logged: usize, now: i64) -> (r: Result<
        AckResponse,
        Error,
    >)
        requires
            old(self).wf(),
            old(self)@.queue_refusal(p.name@) is None,
            logged <= p.done@.len(),
        ensures
            final(self).wf(),
            ({
                let seqs = done_seqs(p.done@);
                let refused = seqs.skip(logged as int).to_set();
                let v = old(self)@.without_jobs(
                    p.name@,
                    seqs.take(logged as int),
                    Set::empty(),
                );
                if logged < p.done@.len() {
                    &&& r is Err
                    &&& r->Err_0.code == ErrorCode::Internal
                    &&& r->Err_0.detail is Plain
                    &&& final(self)@ == v.with_jobs(
                        p.name@,
                        QueueView {
                            reclaim: v.topics[p.name@].queue->0.reclaim.union(refused),
                            ..v.topics[p.name@].queue->0
                        },
                    )
                } else {
                    let t = v.topics[p.name@].counted(now);
                    &&& r is Ok
                    &&& final(self)@ == v.with_topic(t)
                    &&& r->Ok_0.acked == p.done@.len()
                    &&& r->Ok_0.skipped@ == p.skipped@
                    &&& r->Ok_0.ready == t.counters(now).ready
                    &&& r->Ok_0.in_flight == t.counters(now).in_flight
                }
            }),
    {
        let ghost all = done_seqs(p.done@);
        let mut first: Vec<u64> = Vec::new();
        let mut rest: Vec<u64> = Vec::new();
        let mut i: usize = 0;
        while i < p.done.len()
            invariant
                i <= p.done@.len(),
                logged <= p.done@.len(),
                all == done_seqs(p.done@),
                i <= logged ==> first@ == all.take(i as int) && rest@.len() == 0,
                i > logged ==> first@ == all.take(logged as int) && rest@ == all.subrange(
                    logged as int,
                    i as int,
                ),
            decreases p.done@.len() - i,
        {
            if i < logged {
                first.push(p.done[i].0);
                assert(first@ =~= all.take(i + 1));
            } else {
                rest.push(p.done[i].0);
                assert(rest@ =~= all.subrange(logged as int, i + 1));
            }
            i += 1;
        }
        let none: Vec<u64> = Vec::new();
        proof {
            assert(none@.to_set() =~= Set::<u64>::empty());
            assert(rest@ =~= all.skip(logged as int));
        }
        self.delete_jobs(p.name.as_str(), &first, &none);
        let ghost v = self@;
        if logged < p.done.len() {
            match self.take_topic(p.name.as_str()) {
                Some(t) => {
                    let mut t = t;
                    t.requeue(&rest);
                    self.put_topic(t);
                    proof {
                        assert(self@.topics =~= v.topics.insert(p.name@, t@));
                    }
                },
                None => {},
            }
            return Err(Error::new(ErrorCode::Internal));
        }
        let c = self.count_queue(p.name.as_str(), now);
        Ok(
            AckResponse {
                acked: p.done.len() as u64,
                skipped: p.skipped,
                ready: c.ready,
                in_flight: c.in_flight,
            },
        )
    }

    /// An acknowledgement without a log: the jobs a node holds, under the tokens it
    /// gives, are done and deleted.
    pub fn ack_fenced(
        &mut self,
        name: &str,
        node: &str,
        seqs: &[u64],
        lease_ids: &[Option<u64>],
        now: i64,
    ) -> (r: Result<AckResponse, Error>)
        requires
            old(self).wf(),
        ensures
            final(self).wf(),
            old(self)@.quiet() ==> final(self)@.quiet(),
            match touch_refusal(old(self)@, name@, node@, seqs@, lease_ids@) {
                Some(c) => r is Err && r->Err_0.code == c && r->Err_0.detail == touch_detail(
                    node@,
                    seqs@,
                ) && final(self)@ == old(self)@,
                None => {
                    let x = touch_jobs(
                        old(self)@.topics[name@],
                        LeaseOp::Ack,
                        node@,
                        seqs@,
                        lease_ids@,
                        now,
                    );
                    let v = old(self)@.with_jobs(name@, x.queue).without_jobs(
                        name@,
                        done_seqs(x.done),
                        Set::empty(),
                    );
                    let t = v.topics[name@].counted(now);
                    &&& r is Ok
                    &&& final(self)@ == v.with_topic(t)
                    &&& r->Ok_0.acked == x.done.len()
                    &&& r->Ok_0.skipped@ == x.skipped
                    &&& r->Ok_0.ready == t.counters(now).ready
                    &&& r->Ok_0.in_flight == t.counters(now).in_flight
                },
            },
    {
        let ghost v = self@;
        proof {
            self.wf_ok();
        }
        let ghost x = touch_jobs(v.topics[name@], LeaseOp::Ack, node@, seqs@, lease_ids@, now);
        match self.begin_ack(name, node, seqs, lease_ids, now) {
            Ok(p) => {
                let n: usize = p.done.len();
                proof {
                    let all = done_seqs(p.done@);
                    assert(all.take(n as int) =~= all);
                }
                let r = self.finish_ack(p, n, now);
                proof {
                    if v.quiet() {
                        let t = v.topics[name@].with_queue(x.queue);
                        let w = v.with_jobs(name@, x.queue);
                        change_keeps_quiet(v, t);
                        without_jobs_keeps_quiet(w, name@, done_seqs(x.done));
                        let u = w.without_jobs(name@, done_seqs(x.done), Set::empty());
                        acknowledged_jobs_are_done(w, name@, done_seqs(x.done));
                        counting_rests(u.topics[name@], now);
                        change_keeps_quiet(u, u.topics[name@].counted(now));
                    }
                }
                r
            },
            Err(e) => Err(e),
        }
    }

    /// As [`ack_fenced`](Self::ack_fenced), without tokens.
    pub fn ack(&mut self, name: &str, node: &str, seqs: &[u64], now: i64) -> (r: Result<
        AckResponse,
        Error,
    >)
        requires
            old(self).wf(),
        ensures
            final(self).wf(),
            old(self)@.quiet() ==> final(self)@.quiet(),
            match touch_refusal(old(self)@, name@, node@, seqs@, Seq::empty()) {
                Some(c) => r is Err && r->Err_0.code == c && r->Err_0.detail == touch_detail(
                    node@,
                    seqs@,
                ) && final(self)@ == old(self)@,
                None => {
                    let x = touch_jobs(
                        old(self)@.topics[name@],
                        LeaseOp::Ack,
                        node@,
                        seqs@,
                        Seq::empty(),
                        now,
                    );
                    let v = old(self)@.with_jobs(name@, x.queue).without_jobs(
                        name@,
                        done_seqs(x.done),
                        Set::empty(),
                    );
                    let t = v.topics[name@].counted(now);
                    &&& r is Ok
                    &&& final(self)@ == v.with_topic(t)
                    &&& r->Ok_0.acked == x.done.len()
                    &&& r->Ok_0.skipped@ == x.skipped
                    &&& r->Ok_0.ready == t.counters(now).ready
                    &&& r->Ok_0.in_flight == t.counters(now).in_flight
                },
            },
    {
        let none: Vec<Option<u64>> = Vec::new();
        assert(none@ =~= Seq::<Option<u64>>::empty());
        self.ack_fenced(name, node, seqs, none.as_slice(), now)
    }

    /// Returns leased jobs, to be handed out again, at once or after a delay.
    pub fn nack_fenced(
        &mut self,
        name: &str,
        node: &str,
        seqs: &[u64],
        delay_ms: u64,
        lease_ids: &[Option<u64>],
        now: i64,
    ) -> (r: Result<NackResponse, Error>)
        requires
            old(self).wf(),
        ensures
            final(self).wf(),
            old(self)@.quiet() ==> final(self)@.quiet(),
            match touch_refusal(old(self)@, name@, node@, seqs@, lease_ids@) {
                Some(c) => r is Err && r->Err_0.code == c && r->Err_0.detail == touch_detail(
                    node@,
                    seqs@,
                ) && final(self)@ == old(self)@,
                None => r is Ok && returned_to(
                    old(self)@,
                    name@,
                    node@,
                    seqs@,
                    lease_ids@,
                    delay_ms,
                    now,
                    r->Ok_0,
                    final(self)@,
                ),
            },
    {
        let ghost v = self@;
        proof {
            self.wf_ok();
        }
        let delay: i64 = if delay_ms > MAX_NACK_DELAY_MS {
            MAX_NACK_DELAY_MS as i64
        } else {
            delay_ms as i64
        };
        let op = LeaseOp::Nack { delay };
        match self.touch_leases(op, 1, 0, name, node, seqs, lease_ids, now) {
            Ok((done, skipped, frames, _)) => {
                let c = self.count_queue(name, now);
                proof {
                    let x = touch_jobs(v.topics[name@], op, node@, seqs@, lease_ids@, now);
                    let t = v.topics[name@].with_queue(x.queue).counted(now);
                    assert(self@.topics =~= v.topics.insert(name@, t));
                    if v.quiet() {
                        counting_rests(v.topics[name@].with_queue(x.queue), now);
                        change_keeps_quiet(v, t);
                    }
                }
                Ok(
                    NackResponse {
                        nacked: done.len() as u64,
                        skipped,
                        ready: c.ready,
                        in_flight: c.in_flight,
                        frames,
                    },
                )
            },
            Err(e) => Err(e),
        }
    }

    /// As [`nack_fenced`](Self::nack_fenced), without tokens.
    pub fn nack(&mut self, name: &str, node: &str, seqs: &[u64], delay_ms: u64, now: i64) -> (r: Result<
        NackResponse,
        Error,
    >)
        requires
            old(self).wf(),
        ensures
            final(self).wf(),
            old(self)@.quiet() ==> final(self)@.quiet(),
            match touch_refusal(old(self)@, name@, node@, seqs@, Seq::empty()) {
                Some(c) => r is Err && r->Err_0.code == c && r->Err_0.detail == touch_detail(
                    node@,
                    seqs@,
                ) && final(self)@ == old(self)@,
                None => r is Ok && returned_to(
                    old(self)@,
                    name@,
                    node@,
                    seqs@,
                    Seq::empty(),
                    delay_ms,
                    now,
                    r->Ok_0,
                    final(self)@,
                ),
            },
    {
        let none: Vec<Option<u64>> = Vec::new();
        assert(none@ =~= Seq::<Option<u64>>::empty());
        self.nack_fenced(name, node, seqs, delay_ms, none.as_slice(), now)
    }

    /// Keeps leased jobs for a new while from now on.
    pub fn extend_fenced(
        &mut self,
        name: &str,
        node: &str,
        seqs: &[u64],
        lease_ms: u64,
        lease_ids: &[Option<u64>],
        now: i64,
    ) -> (r: Result<ExtendResponse, Error>)
        requires
            old(self).wf(),
        ensures
            final(self).wf(),
            old(self)@.quiet() ==> final(self)@.quiet(),
            match touch_refusal(old(self)@, name@, node@, seqs@, lease_ids@) {
                Some(c) => r is Err && r->Err_0.code == c && r->Err_0.detail == touch_detail(
                    node@,
                    seqs@,
                ) && final(self)@ == old(self)@,
                None => r is Ok && extended_by(
                    old(self)@,
                    name@,
                    node@,
                    seqs@,
                    lease_ids@,
                    lease_ms,
                    now,
                    r->Ok_0,
                    final(self)@,
                ),
            },
    {
        let deadline: i64 = time_after(now, clamp_lease(lease_ms));
        match self.touch_leases(
            LeaseOp::Extend { deadline },
            2,
            deadline,
            name,
            node,
            seqs,
            lease_ids,
            now,
        ) {
            Ok((done, skipped, frames, _)) => {
                let mut deadlines: Vec<(u64, i64)> = Vec::new();
                let mut i: usize = 0;
                while i < done.len()
                    invariant
                        i <= done@.len(),
                        deadlines@.len() == i,
                        forall|k: int|
                            0 <= k < i ==> #[trigger] deadlines@[k] == (done@[k].0, deadline),
                    decreases done@.len() - i,
                {
                    deadlines.push((done[i].0, deadline));
                    i += 1;
                }
                proof {
                    assert(deadlines@ =~= done@.map_values(|p: (u64, u64)| (p.0, deadline)));
                }
                Ok(ExtendResponse { extended: done.len() as u64, skipped, deadlines, frames })
            },
            Err(e) => Err(e),
        }
    }

    /// As [`extend_fenced`](Self::extend_fenced), without tokens.
    pub fn extend(&mut self, name: &str, node: &str, seqs: &[u64], lease_ms: u64, now: i64) -> (r: Result<
        ExtendResponse,
        Error,
    >)
        requires
            old(self).wf(),
        ensures
            final(self).wf(),
            old(self)@.quiet() ==> final(self)@.quiet(),
            match touch_refusal(old(self)@, name@, node@, seqs@, Seq::empty()) {
                Some(c) => r is Err && r->Err_0.code == c && r->Err_0.detail == touch_detail(
                    node@,
                    seqs@,
                ) && final(self)@ == old(self)@,
                None => r is Ok && extended_by(
                    old(self)@,
                    name@,
                    node@,
                    seqs@,
                    Seq::empty(),
                    lease_ms,
                    now,
                    r->Ok_0,
                    final(self)@,
                ),
            },
    {
        let none: Vec<Option<u64>> = Vec::new();
        assert(none@ =~= Seq::<Option<u64>>::empty());
        self.extend_fenced(name, node, seqs, lease_ms, none.as_slice(), now)
    }

    /// How many jobs a connection holds, as far as the number fits.
    pub fn work_conn_in_flight(&self, name: &str, conn: u64, now: i64) -> (r: u32)
        requires
            self.wf(),
        ensures
            ({
                let n = self@.topics[name@].queue->0.leases.dom().filter(
                    |s: u64|
                        self@.topics[name@].queue->0.leases[s].by_work_conn == Some(conn)
                            && self@.topics[name@].queue->0.leases[s].holds(now),
                ).len();
                if self@.queue_refusal(name@) is Some {
                    r == 0
                } else if n > u32::MAX {
                    r == u32::MAX
                } else {
                    r == n
                }
            }),
    {
        match self.topics.get(name) {
            Some(t) => match &t.queue {
                Some(q) => {
                    let n: u64 = q.count_work_conn(conn, now);
                    if n > u32::MAX as u64 {
                        u32::MAX
                    } else {
                        n as u32
                    }
                },
                None => 0,
            },
            None => 0,
        }
    }

    /// Puts the jobs that a connection holds up for reclaim, and says what has to be
    /// logged. A topic that is no queue has none.
    pub fn release_work_conn(&mut self, name: &str, conn: u64, now: i64) -> (r: Vec<WalRecord>)
        requires
            old(self).wf(),
        ensures
            final(self).wf(),
            old(self)@.quiet() ==> final(self)@.quiet(),
            if old(self)@.queue_refusal(name@) is Some {
                r@.len() == 0 && final(self)@ == old(self)@
            } else {
                let t = old(self)@.topics[name@];
                let q = t.queue->0;
                &&& final(self)@ == old(self)@.with_jobs(name@, q.conn_released(conn))
                &&& !t.logs_leases() ==> r@.len() == 0
                &&& t.logs_leases() ==> r@.len() == q.conn_jobs(conn).len() && forall|s: u64|
                    q.conn_jobs(conn).contains(s) ==> exists|i: int|
                        0 <= i < r@.len() && lease_frame(
                            #[trigger] r@[i],
                            t.topic_id,
                            1,
                            s,
                            q.leases[s].node@,
                            q.leases[s].lease_id,
                            0,
                            0,
                            now,
                        )
            },
    {
        let ghost v = self@;
        let mut t = match self.take_queue(name) {
            Ok(t) => t,
            Err(_) => {
                return Vec::new();
            },
        };
        let ghost q0 = t@.queue->0;
        let mut queue: Option<QueueProjection> = None;
        std::mem::swap(&mut t.queue, &mut queue);
        let mut q = match queue {
            Some(q) => q,
            None => QueueProjection::new(1),
        };
        let seqs = q.work_conn_jobs(conn);
        proof {
            assert forall|i: int| 0 <= i < seqs@.len() implies q@.leases.contains_key(
                #[trigger] seqs@[i],
            ) by {
                assert(seqs@.to_set().contains(seqs@[i])) by {
                    assert(seqs@.contains(seqs@[i]));
                }
            }
        }
        let released = q.release(&seqs);
        t.queue = Some(q);
        let mut frames: Vec<WalRecord> = Vec::new();
        if t.config.leases_durable && t.config.uses_persistent_record_store() {
            let mut i: usize = 0;
            while i < released.len()
                invariant
                    i <= released@.len(),
                    frames@.len() == i,
                    forall|k: int|
                        0 <= k < i ==> lease_frame(
                            #[trigger] frames@[k],
                            t@.topic_id,
                            1,
                            released@[k].0,
                            released@[k].1@,
                            released@[k].2,
                            0,
                            0,
                            now,
                        ),
                decreases released@.len() - i,
            {
                frames.push(
                    lease_record(
                        t.topic_id,
                        1,
                        released[i].0,
                        released[i].1.as_str(),
                        released[i].2,
                        0,
                        0,
                        now,
                    ),
                );
                i += 1;
            }
            proof {
                crate::seqs::rising_len(seqs@);
                assert forall|s: u64| q0.conn_jobs(conn).contains(s) implies exists|i: int|
                    0 <= i < frames@.len() && lease_frame(
                        #[trigger] frames@[i],
                        t@.topic_id,
                        1,
                        s,
                        q0.leases[s].node@,
                        q0.leases[s].lease_id,
                        0,
                        0,
                        now,
                    ) by {
                    assert(seqs@.contains(s));
                    let k = choose|k: int| 0 <= k < seqs@.len() && seqs@[k] == s;
                    assert(released@[k].0 == s);
                    assert(lease_frame(
                        frames@[k],
                        t@.topic_id,
                        1,
                        s,
                        q0.leases[s].node@,
                        q0.leases[s].lease_id,
                        0,
                        0,
                        now,
                    ));
                }
            }
        }
        self.put_topic(t);
        proof {
            assert(self@.topics =~= v.topics.insert(name@, t@));
        }
        frames
    }
}

/// The first step of an acknowledgement: the leases are given up, and the jobs to be
/// deleted are named.
pub open spec fn acks_begun(
    v: EngineView,
    name: Seq<char>,
    node: Seq<char>,
    seqs: Seq<u64>,
    lease_ids: Seq<Option<u64>>,
    now: i64,
    r: PendingAck,
    v2: EngineView,
) -> bool {
    let t = v.topics[name];
    let x = touch_jobs(t, LeaseOp::Ack, node, seqs, lease_ids, now);
    &&& v2 == v.with_jobs(name, x.queue)
    &&& r.name@ == name
    &&& r.done@ == x.done
    &&& r.skipped@ == x.skipped
    &&& r.durable == (t.config.class() == Durability::Fsync)
    &&& if t.logs_leases() {
        lease_frames(r.frames@, t.topic_id, 3, x.done, node, 0, now)
    } else {
        r.frames@.len() == 0
    }
}

/// Leased jobs are returned, and the jobs are counted.
pub open spec fn returned_to(
    v: EngineView,
    name: Seq<char>,
    node: Seq<char>,
    seqs: Seq<u64>,
    lease_ids: Seq<Option<u64>>,
    delay_ms: u64,
    now: i64,
    r: NackResponse,
    v2: EngineView,
) -> bool {
    let t0 = v.topics[name];
    let x = touch_jobs(t0, nack_op(delay_ms), node, seqs, lease_ids, now);
    let t = t0.with_queue(x.queue).counted(now);
    &&& v2 == v.with_topic(t)
    &&& r.nacked == x.done.len()
    &&& r.skipped@ == x.skipped
    &&& r.ready == t.counters(now).ready
    &&& r.in_flight == t.counters(now).in_flight
    &&& if t0.logs_leases() {
        lease_frames(r.frames@, t0.topic_id, 1, x.done, node, 0, now)
    } else {
        r.frames@.len() == 0
    }
}

/// Leased jobs are kept for a new while from now on.
pub open spec fn extended_by(
    v: EngineView,
    name: Seq<char>,
    node: Seq<char>,
    seqs: Seq<u64>,
    lease_ids: Seq<Option<u64>>,
    lease_ms: u64,
    now: i64,
    r: ExtendResponse,
    v2: EngineView,
) -> bool {
    let t = v.topics[name];
    let deadline = later(now, clamped_lease(lease_ms) as int);
    let x = touch_jobs(t, LeaseOp::Extend { deadline }, node, seqs, lease_ids, now);
    &&& v2 == v.with_jobs(name, x.queue)
    &&& r.extended == x.done.len()
    &&& r.skipped@ == x.skipped
    &&& r.deadlines@ == x.done.map_values(|p: (u64, u64)| (p.0, deadline))
    &&& if t.logs_leases() {
        lease_frames(r.frames@, t.topic_id, 2, x.done, node, deadline, now)
    } else {
        r.frames@.len() == 0
    }
}

/// The jobs of a list of jobs and leases.
pub open spec fn done_seqs(done: Seq<(u64, u64)>) -> Seq<u64> {
    done.map_values(|p: (u64, u64)| p.0)
}

/// What a return of jobs does with each.
pub open spec fn nack_op(delay_ms: u64) -> LeaseOp {
    LeaseOp::Nack {
        delay: if delay_ms > MAX_NACK_DELAY_MS {
            MAX_NACK_DELAY_MS as i64
        } else {
            delay_ms as i64
        },
    }
}

} // verus!
