//! That no job is ever stranded: whatever is done to a queue, a job that is there is
//! held by somebody, or can be handed out, at once or after its delay.
use crate::deal::{cohort_deal, deal, delivered, demands, given_up, next_job, next_place, turn_from,
    wanted, with_dead, with_lease, Claimer};
use crate::engine::EngineView;
use crate::engine_laws::{acknowledged_jobs_are_done, landed_rests, put_keeps_quiet,
    topic_keeps_quiet};
use crate::eviction::{max64, sat_add};
use crate::jobs::{claim_deadline, done_seqs, touch_jobs};
use crate::leases::{later, touch_all, LeaseOp};
use crate::queue::{claims_next, next_job_exists, returned, search_ends, search_left, untouched,
    Lease, QueueView};
use crate::topic_index::{bytes_in, StoredRecord};
use crate::topic_laws::{append_keeps, dead_stays_dead, deletion_keeps, retention_keeps};
use crate::topic_state::{fresh_topic, TopicView};
use crate::types::{default_config, Filter, TopicConfig, TopicType};
use vstd::prelude::*;

verus! {

/// Somebody holds a job, or it came back, to be handed out at once or after a delay.
pub open spec fn kept(q: QueueView, s: u64) -> bool {
    ||| q.leases.contains_key(s)
    ||| q.reclaim.contains(s)
    ||| exists|t: i64| #[trigger] q.delayed.contains((t, s))
}

/// A job was never handed out, or is kept.
pub open spec fn in_reach(q: QueueView, s: u64) -> bool {
    s < q.claim_cursor ==> kept(q, s)
}

impl TopicView {
    /// No job of a queue is stranded, and none is passed over before it can be read.
    pub open spec fn strands_nothing(self) -> bool {
        &&& self.queue is Some
        &&& self.queue->0.claim_cursor <= self.head + 1
        &&& forall|s: u64| #[trigger] self.has_live(s) ==> in_reach(self.queue->0, s)
    }
}

/// A queue that was just created strands nothing.
pub proof fn fresh_queue_strands_nothing(
    name: Seq<char>,
    topic_id: u64,
    config: TopicConfig,
    seq_base: u64,
    epoch: u64,
)
    requires
        config.topic_type == TopicType::Queue,
        1 <= seq_base,
    ensures
        fresh_topic(name, topic_id, config, seq_base, epoch).strands_nothing(),
{
}

/// Neither retention nor a deletion nor a write strands a job.
pub proof fn records_come_and_go(
    t: TopicView,
    before: Option<u64>,
    filter: Option<Filter>,
    bound_head: Option<u64>,
    records: Seq<StoredRecord>,
    now: i64,
)
    requires
        t.ok(),
        t.strands_nothing(),
        t.settled(),
        t.room(records.len(), bytes_in(records)),
        forall|i: int|
            0 <= i < records.len() ==> (#[trigger] records[i]).ok() && !records[i].deleted,
    ensures
        t.retained(now).strands_nothing(),
        t.after_delete(before, filter, bound_head, now).strands_nothing(),
        t.appended(records, now).strands_nothing(),
{
    retention_keeps(t, now);
    deletion_keeps(t, before, filter, bound_head, now);
    append_keeps(t, records, now);
    let r = t.retained(now);
    let d = t.after_delete(before, filter, bound_head, now);
    let a = t.appended(records, now);
    assert forall|s: u64| #[trigger] r.has_live(s) implies in_reach(r.queue->0, s) by {
        if !t.has_live(s) {
            dead_stays_dead(t, before, filter, bound_head, records, now, s);
        }
    }
    assert forall|s: u64| #[trigger] d.has_live(s) implies in_reach(d.queue->0, s) by {
        if !t.has_live(s) {
            dead_stays_dead(t, before, filter, bound_head, records, now, s);
        }
    }
    assert forall|s: u64| #[trigger] a.has_live(s) implies in_reach(a.queue->0, s) by {
        if !t.has_live(s) && s < t.tail() {
            dead_stays_dead(t, before, filter, bound_head, records, now, s);
        }
    }
}

proof fn retention_strands_nothing(t: TopicView, now: i64)
    requires
        t.ok(),
        t.strands_nothing(),
    ensures
        t.retained(now).strands_nothing(),
        t.retained(now).queue == t.queue,
{
    retention_keeps(t, now);
    let r = t.retained(now);
    assert forall|s: u64| #[trigger] r.has_live(s) implies in_reach(r.queue->0, s) by {
        if !t.has_live(s) {
            dead_stays_dead(t, None, None, None, Seq::empty(), now, s);
        }
    }
}

/// A sweep keeps what is kept.
proof fn sweep_keeps(q: QueueView, now: i64, s: u64)
    requires
        kept(q, s),
    ensures
        kept(q.swept(now), s),
{
    let w = q.swept(now);
    if q.leases.contains_key(s) {
        if q.leases[s].holds(now) {
            assert(w.leases.contains_key(s));
        } else {
            assert(q.expired(now).contains(s));
        }
    } else if q.reclaim.contains(s) {
        assert(w.reclaim.contains(s));
    } else {
        let t = choose|t: i64| #[trigger] q.delayed.contains((t, s));
        if t <= now {
            assert(q.matured(now).contains(s));
        } else {
            assert(w.delayed.contains((t, s)));
        }
    }
}

/// Counting a queue strands nothing.
pub proof fn counting_strands_nothing(t: TopicView, now: i64)
    requires
        t.ok(),
        t.strands_nothing(),
    ensures
        t.counted(now).strands_nothing(),
{
    retention_strands_nothing(t, now);
    let u = t.counted(now);
    assert forall|s: u64| #[trigger] u.has_live(s) implies in_reach(u.queue->0, s) by {
        assert(t.retained(now).has_live(s));
        if s < t.queue->0.claim_cursor {
            sweep_keeps(t.queue->0, now, s);
        }
    }
}

/// A request on leased jobs keeps what is kept, but for what is acknowledged.
proof fn touching_keeps(
    q: QueueView,
    op: LeaseOp,
    node: Seq<char>,
    seqs: Seq<u64>,
    lease_ids: Seq<Option<u64>>,
    now: i64,
    s: u64,
)
    ensures
        ({
            let x = touch_all(q, op, node, seqs, lease_ids, now);
            &&& x.queue.claim_cursor == q.claim_cursor
            &&& kept(q, s) ==> kept(x.queue, s) || op is Ack && done_seqs(x.done).contains(s)
        }),
    decreases seqs.len(),
{
    if seqs.len() > 0 {
        let rest = seqs.drop_last();
        touching_keeps(q, op, node, rest, lease_ids, now, s);
        let y = touch_all(q, op, node, rest, lease_ids, now);
        let x = touch_all(q, op, node, seqs, lease_ids, now);
        let seq = seqs.last();
        if y.queue.may_touch(node, lease_ids, seqs.len() - 1, seq) {
            assert(done_seqs(x.done) =~= done_seqs(y.done).push(seq));
            if done_seqs(y.done).contains(s) {
                let k = choose|k: int| 0 <= k < y.done.len() && done_seqs(y.done)[k] == s;
                assert(done_seqs(x.done)[k] == s);
            }
            if s == seq {
                assert(done_seqs(x.done)[y.done.len() as int] == s);
            }
            if kept(y.queue, s) {
                touch_keeps(y.queue, op, seq, now, s);
            }
        }
    }
}

proof fn touch_keeps(q: QueueView, op: LeaseOp, seq: u64, now: i64, s: u64)
    requires
        kept(q, s),
        q.leases.contains_key(seq),
    ensures
        kept(q.touched(op, seq, now), s) || op is Ack && s == seq,
{
    let r = q.touched(op, seq, now);
    if q.leases.contains_key(s) {
        match op {
            LeaseOp::Ack => {},
            LeaseOp::Nack { delay } => {
                if s == seq && delay > 0 {
                    assert(r.delayed.contains((later(now, delay as int), s)));
                }
            },
            LeaseOp::Extend { .. } => {},
        }
    } else if !q.reclaim.contains(s) {
        let t = choose|t: i64| #[trigger] q.delayed.contains((t, s));
        assert(r.delayed.contains((t, s)));
    }
}

/// Jobs that are kept stay so where nothing but leases or jobs up for reclaim are
/// added, or leases turned into jobs up for reclaim.
proof fn same_keeps(q: QueueView, r: QueueView, s: u64)
    requires
        in_reach(q, s),
        r.claim_cursor == q.claim_cursor,
        r.delayed == q.delayed,
        q.reclaim.contains(s) ==> r.reclaim.contains(s),
        q.leases.contains_key(s) ==> r.leases.contains_key(s) || r.reclaim.contains(s),
    ensures
        in_reach(r, s),
{
    if s < q.claim_cursor && !q.leases.contains_key(s) && !q.reclaim.contains(s) {
        let t = choose|t: i64| #[trigger] q.delayed.contains((t, s));
        assert(r.delayed.contains((t, s)));
    }
}

/// Returning or extending leased jobs, or giving back those of a connection, strands
/// nothing.
pub proof fn returned_jobs_are_not_stranded(
    t: TopicView,
    op: LeaseOp,
    node: Seq<char>,
    seqs: Seq<u64>,
    lease_ids: Seq<Option<u64>>,
    conn: u64,
    now: i64,
)
    requires
        t.ok(),
        t.strands_nothing(),
        !(op is Ack),
    ensures
        t.with_queue(touch_jobs(t, op, node, seqs, lease_ids, now).queue).strands_nothing(),
        t.with_queue(touch_jobs(t, op, node, seqs, lease_ids, now).queue).counted(
            now,
        ).strands_nothing(),
        t.with_queue(t.queue->0.conn_released(conn)).strands_nothing(),
{
    let q = t.queue->0;
    let x = touch_jobs(t, op, node, seqs, lease_ids, now).queue;
    let u = t.with_queue(x);
    touching_keeps(q.swept(now), op, node, seqs, lease_ids, now, 0);
    assert forall|s: u64| #[trigger] u.has_live(s) implies in_reach(x, s) by {
        assert(t.has_live(s));
        if s < q.claim_cursor {
            sweep_keeps(q, now, s);
            touching_keeps(q.swept(now), op, node, seqs, lease_ids, now, s);
        }
    }
    counting_strands_nothing(u, now);
    let c = t.with_queue(q.conn_released(conn));
    assert forall|s: u64| #[trigger] c.has_live(s) implies in_reach(c.queue->0, s) by {
        assert(t.has_live(s));
        same_keeps(q, c.queue->0, s);
    }
}

/// Acknowledging jobs strands nothing, even where the log takes only the first of the
/// deletions: the jobs are deleted as far as that goes, and the others are up for
/// reclaim.
pub proof fn acknowledged_jobs_are_not_stranded(
    v: EngineView,
    name: Seq<char>,
    node: Seq<char>,
    seqs: Seq<u64>,
    lease_ids: Seq<Option<u64>>,
    now: i64,
    logged: int,
)
    requires
        v.topics.contains_key(name),
        v.topics[name].name == name,
        v.topics[name].ok(),
        v.topics[name].strands_nothing(),
        0 <= logged <= touch_jobs(
            v.topics[name],
            LeaseOp::Ack,
            node,
            seqs,
            lease_ids,
            now,
        ).done.len(),
    ensures
        ({
            let x = touch_jobs(v.topics[name], LeaseOp::Ack, node, seqs, lease_ids, now);
            let all = done_seqs(x.done);
            let w = v.with_jobs(name, x.queue).without_jobs(name, all.take(logged), Set::empty());
            let t = w.topics[name];
            let q = QueueView {
                reclaim: t.queue->0.reclaim.union(all.skip(logged).to_set()),
                ..t.queue->0
            };
            &&& logged == all.len() ==> t.counted(now).strands_nothing()
            &&& t.with_queue(q).strands_nothing()
        }),
{
    let t0 = v.topics[name];
    let q0 = t0.queue->0;
    let x = touch_jobs(t0, LeaseOp::Ack, node, seqs, lease_ids, now);
    let all = done_seqs(x.done);
    let v1 = v.with_jobs(name, x.queue);
    acknowledged_jobs_are_done(v1, name, all.take(logged));
    let w = v1.without_jobs(name, all.take(logged), Set::empty());
    let t = w.topics[name];
    let q = QueueView {
        reclaim: t.queue->0.reclaim.union(all.skip(logged).to_set()),
        ..t.queue->0
    };
    let u = t.with_queue(q);
    touching_keeps(q0.swept(now), LeaseOp::Ack, node, seqs, lease_ids, now, 0);
    assert(all.take(logged) + all.skip(logged) =~= all);
    assert forall|s: u64| #[trigger] u.has_live(s) implies in_reach(q, s) by {
        assert(t.has_live(s));
        assert(t0.has_live(s));
        if s < q0.claim_cursor {
            sweep_keeps(q0, now, s);
            touching_keeps(q0.swept(now), LeaseOp::Ack, node, seqs, lease_ids, now, s);
            if kept(x.queue, s) {
                same_keeps(x.queue, q, s);
            } else {
                let k = choose|k: int| 0 <= k < all.len() && all[k] == s;
                if k < logged {
                    assert(all.take(logged)[k] == s);
                } else {
                    assert(all.skip(logged)[k - logged] == s);
                    assert(all.skip(logged).contains(s));
                }
            }
        }
    }
    if logged == all.len() {
        assert(all.skip(logged).to_set() =~= Set::<u64>::empty());
        assert(q.reclaim =~= t.queue->0.reclaim);
        assert(u == t);
        counting_strands_nothing(t, now);
    }
}

/// The next job to hand out leaves every other one in reach.
proof fn next_job_keeps(
    q: QueueView,
    live: Set<u64>,
    head: u64,
    job: Option<u64>,
    q1: QueueView,
    s: u64,
)
    requires
        claims_next(q, live, head, job, q1),
        live.contains(s),
        in_reach(q, s),
        head < u64::MAX,
    ensures
        in_reach(q1, s) || job == Some(s),
{
    if exists|x: u64| #[trigger] returned(q, live, x) {
        assert(returned(q, live, job->0));
        if q.reclaim.contains(s) && s < job->0 {
            assert(!returned(q, live, s));
        }
        if q.reclaim.contains(s) && s > job->0 {
            assert(q1.reclaim.contains(s));
        }
        if s < q.claim_cursor && !q.leases.contains_key(s) && !q.reclaim.contains(s) {
            let t = choose|t: i64| #[trigger] q.delayed.contains((t, s));
            assert(q1.delayed.contains((t, s)));
        }
    } else {
        if exists|x: u64| #[trigger] untouched(q, live, head, x) {
            assert(untouched(q, live, head, job->0));
        }
        assert(!returned(q, live, s));
        if s < q.claim_cursor {
            if !q.leases.contains_key(s) {
                assert(!q.reclaim.contains(s));
                let t = choose|t: i64| #[trigger] q.delayed.contains((t, s));
                assert(q1.delayed.contains((t, s)));
            }
        } else if s < q1.claim_cursor && job != Some(s) {
            assert(!untouched(q, live, head, s));
            assert(q1.leases.contains_key(s));
        }
    }
}

/// Dealing jobs out leaves each job in reach, but for those that were handed out too
/// often.
proof fn dealing_keeps(
    q: QueueView,
    live: Set<u64>,
    head: u64,
    claimers: Seq<Claimer>,
    remaining: Seq<u32>,
    rr: int,
    deadline: i64,
    max_deliveries: u64,
    divert: bool,
    s: u64,
)
    requires
        q.reclaim.finite(),
        head < u64::MAX,
        live.contains(s),
    ensures
        ({
            let d = deal(
                q,
                live,
                head,
                claimers,
                remaining,
                rr,
                deadline,
                max_deliveries,
                divert,
            );
            in_reach(q, s) ==> in_reach(d.queue, s) || d.dead.contains(s)
        }),
    decreases search_left(q, head),
{
    if wanted(remaining) {
        let e = next_job_exists(q, live, head);
        assert(claims_next(q, live, head, e.0, e.1));
        let (job, q1) = next_job(q, live, head);
        assert(claims_next(q, live, head, job, q1));
        if in_reach(q, s) {
            next_job_keeps(q, live, head, job, q1, s);
        }
        if job is Some {
            let seq = job->0;
            search_ends(q, live, head, seq, q1);
            let c = turn_from(remaining, rr, remaining.len());
            let m = sat_add(delivered(q1, seq), 1);
            if given_up(m, max_deliveries, divert) {
                let q2 = with_dead(q1, seq);
                dealing_keeps(
                    q2,
                    live,
                    head,
                    claimers,
                    remaining,
                    c,
                    deadline,
                    max_deliveries,
                    divert,
                    s,
                );
                if in_reach(q1, s) {
                    same_keeps(q1, q2, s);
                }
                let rest = deal(
                    q2,
                    live,
                    head,
                    claimers,
                    remaining,
                    c,
                    deadline,
                    max_deliveries,
                    divert,
                );
                let dead = seq![seq] + rest.dead;
                if rest.dead.contains(s) {
                    let k = choose|k: int| 0 <= k < rest.dead.len() && rest.dead[k] == s;
                    assert(dead[k + 1] == s);
                }
                if s == seq {
                    assert(dead[0] == s);
                }
            } else {
                let lease = Lease {
                    node: claimers[c].node,
                    lease_id: q1.next_lease_id,
                    deadline_ms: deadline,
                    by_work_conn: claimers[c].work_conn,
                };
                let q2 = with_lease(q1, seq, lease, m);
                dealing_keeps(
                    q2,
                    live,
                    head,
                    claimers,
                    remaining.update(c, (remaining[c] - 1) as u32),
                    next_place(remaining.len(), c),
                    deadline,
                    max_deliveries,
                    divert,
                    s,
                );
                if in_reach(q1, s) {
                    same_keeps(q1, q2, s);
                }
            }
        }
    }
}

/// Dealing jobs out passes over none that cannot be read yet.
proof fn dealt_cursor(
    q: QueueView,
    live: Set<u64>,
    head: u64,
    claimers: Seq<Claimer>,
    remaining: Seq<u32>,
    rr: int,
    deadline: i64,
    max_deliveries: u64,
    divert: bool,
)
    requires
        q.reclaim.finite(),
        head < u64::MAX,
    ensures
        deal(
            q,
            live,
            head,
            claimers,
            remaining,
            rr,
            deadline,
            max_deliveries,
            divert,
        ).queue.claim_cursor <= max64(q.claim_cursor, (head + 1) as u64),
    decreases search_left(q, head),
{
    if wanted(remaining) {
        let e = next_job_exists(q, live, head);
        assert(claims_next(q, live, head, e.0, e.1));
        let (job, q1) = next_job(q, live, head);
        assert(claims_next(q, live, head, job, q1));
        next_cursor_within(q, live, head, job, q1);
        if job is Some {
            let seq = job->0;
            search_ends(q, live, head, seq, q1);
            let c = turn_from(remaining, rr, remaining.len());
            let m = sat_add(delivered(q1, seq), 1);
            if given_up(m, max_deliveries, divert) {
                dealt_cursor(
                    with_dead(q1, seq),
                    live,
                    head,
                    claimers,
                    remaining,
                    c,
                    deadline,
                    max_deliveries,
                    divert,
                );
            } else {
                let lease = Lease {
                    node: claimers[c].node,
                    lease_id: q1.next_lease_id,
                    deadline_ms: deadline,
                    by_work_conn: claimers[c].work_conn,
                };
                dealt_cursor(
                    with_lease(q1, seq, lease, m),
                    live,
                    head,
                    claimers,
                    remaining.update(c, (remaining[c] - 1) as u32),
                    next_place(remaining.len(), c),
                    deadline,
                    max_deliveries,
                    divert,
                );
            }
        }
    }
}

proof fn next_cursor_within(
    q: QueueView,
    live: Set<u64>,
    head: u64,
    job: Option<u64>,
    q1: QueueView,
)
    requires
        claims_next(q, live, head, job, q1),
        head < u64::MAX,
    ensures
        q1.claim_cursor <= max64(q.claim_cursor, (head + 1) as u64),
{
    if exists|x: u64| #[trigger] returned(q, live, x) {
    } else if exists|x: u64| #[trigger] untouched(q, live, head, x) {
        assert(untouched(q, live, head, job->0));
    }
}

/// A claim strands nothing: once the jobs that were handed out too often are in the
/// dead-letter topic, or back in the queue, each job of the queue is in reach.
pub proof fn claims_strand_nothing(
    v: EngineView,
    name: Seq<char>,
    claimers: Seq<Claimer>,
    lease_ms: Option<u64>,
    dl: Seq<char>,
    copies: Seq<StoredRecord>,
    now: i64,
)
    requires
        v.ok(),
        v.quiet(),
        v.topics.contains_key(name),
        v.topics[name].strands_nothing(),
        v.topics[name].queue->0.reclaim.finite(),
        v.topics[name].queue->0.leases.dom().finite(),
        dl != name,
        forall|i: int|
            0 <= i < copies.len() ==> (#[trigger] copies[i]).ok() && !copies[i].deleted,
        v.dealt(name, claimers, lease_ms, now).ok(),
    ensures
        ({
            let t = v.topics[name].claimed_from(now);
            let d = cohort_deal(t, claimers, claim_deadline(lease_ms, t.config, now));
            let w = v.dealt(name, claimers, lease_ms, now);
            &&& d.dead.len() == 0 ==> w.topics[name].strands_nothing()
            &&& w.moves_dead_letters(name, dl, d.dead, copies, now).topics[name].strands_nothing()
        }),
{
    let t0 = v.topics[name];
    let t = t0.claimed_from(now);
    let d = cohort_deal(t, claimers, claim_deadline(lease_ms, t.config, now));
    let w = v.dealt(name, claimers, lease_ms, now);
    counting_strands_nothing(t0, now);
    retention_keeps(t0, now);
    assert(t == t0.counted(now));
    sweep_is_finite(t0.queue->0, now);
    let u = t.with_queue(d.queue);
    assert(w.topics[name] == u);
    dealt_queue(t, claimers, claim_deadline(lease_ms, t.config, now));
    crate::jobs::dealing_keeps_quiet(v, name, claimers, lease_ms, now);
    moved_jobs_are_not_stranded(w, name, dl, d.dead, copies, now);
}

/// A sweep puts finitely many jobs up for reclaim.
proof fn sweep_is_finite(q: QueueView, now: i64)
    requires
        q.reclaim.finite(),
        q.leases.dom().finite(),
    ensures
        q.swept(now).reclaim.finite(),
{
    broadcast use vstd::multiset::group_multiset_axioms;

    let f = |d: (i64, u64)| d.1;
    let all = q.delayed.dom();
    all.lemma_map_finite(f);
    assert forall|s: u64| q.matured(now).contains(s) implies all.map(f).contains(s) by {
        let t = choose|t: i64| t <= now && #[trigger] q.delayed.contains((t, s));
        assert(all.contains((t, s)));
        assert(f((t, s)) == s);
    }
    vstd::set_lib::lemma_set_subset_finite(all.map(f), q.matured(now));
}

/// After a deal each job is in reach, but for those that were handed out too often.
proof fn dealt_queue(t: TopicView, claimers: Seq<Claimer>, deadline: i64)
    requires
        t.ok(),
        t.strands_nothing(),
        t.queue->0.reclaim.finite(),
    ensures
        ({
            let d = cohort_deal(t, claimers, deadline);
            let u = t.with_queue(d.queue);
            &&& u.queue->0.claim_cursor <= u.head + 1
            &&& forall|s: u64| #[trigger]
                u.has_live(s) ==> in_reach(u.queue->0, s) || d.dead.contains(s)
        }),
{
    let d = cohort_deal(t, claimers, deadline);
    let u = t.with_queue(d.queue);
    assert forall|s: u64| #[trigger] u.has_live(s) implies in_reach(u.queue->0, s)
        || d.dead.contains(s) by {
        assert(t.has_live(s));
        dealing_keeps(
            t.queue->0,
            t.live_set(),
            t.head,
            claimers,
            demands(claimers),
            0,
            deadline,
            t.config.max_deliveries,
            t.config.dead_letter is Some,
            s,
        );
    }
    dealt_cursor(
        t.queue->0,
        t.live_set(),
        t.head,
        claimers,
        demands(claimers),
        0,
        deadline,
        t.config.max_deliveries,
        t.config.dead_letter is Some,
    );
}

/// Jobs that went to the dead-letter topic, or back to the queue, are not stranded.
proof fn moved_jobs_are_not_stranded(
    v: EngineView,
    name: Seq<char>,
    dl: Seq<char>,
    seqs: Seq<u64>,
    copies: Seq<StoredRecord>,
    now: i64,
)
    requires
        v.ok(),
        v.quiet(),
        v.topics.contains_key(name),
        v.topics[name].queue is Some,
        v.topics[name].queue->0.claim_cursor <= v.topics[name].head + 1,
        forall|s: u64| #[trigger]
            v.topics[name].has_live(s) ==> in_reach(v.topics[name].queue->0, s)
                || seqs.contains(s),
        dl != name,
        forall|i: int|
            0 <= i < copies.len() ==> (#[trigger] copies[i]).ok() && !copies[i].deleted,
    ensures
        v.moves_dead_letters(name, dl, seqs, copies, now).topics[name].strands_nothing(),
{
    let t = v.topics[name];
    let w = v.with_dead_letter(dl, now);
    if !v.topics.contains_key(dl) && v.put_refusal(dl, default_config()) is None {
        put_keeps_quiet(v, dl, default_config(), now);
    }
    assert(w.topics[name] == t);
    let m = v.moves_dead_letters(name, dl, seqs, copies, now);
    let u = m.topics[name];
    if !w.takes_dead_letters(dl, copies) {
        assert(u == t.diverted_back(seqs));
        assert forall|s: u64| #[trigger] u.has_live(s) implies in_reach(u.queue->0, s) by {
            assert(t.has_live(s));
            if !seqs.contains(s) {
                same_keeps(t.queue->0, u.queue->0, s);
            }
        }
    } else {
        if copies.len() > 0 {
            let d = w.topics[dl];
            landed_rests(d, copies, now);
            topic_keeps_quiet(w, d.landed(copies, now), w.total);
            acknowledged_jobs_are_done(w.with_topic(d.landed(copies, now)), name, seqs);
        } else {
            acknowledged_jobs_are_done(w, name, seqs);
        }
        assert forall|s: u64| #[trigger] u.has_live(s) implies in_reach(u.queue->0, s) by {
            assert(t.has_live(s));
        }
    }
}

} // verus!
