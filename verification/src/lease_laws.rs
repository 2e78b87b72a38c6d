//! What leases are for: what their holder may do, what comes of it, and what comes back of
//! them from the log.
use crate::deal::{Claimer, Dealt};
use crate::engine::EngineView;
use crate::engine_laws::one_job_is_done;
use crate::jobs::{acks_begun, are_copies, claim_frames, done_seqs, extended_by, is_copy,
    lease_frame, live_jobs, marked,
    nack_op, payload_of, returned_to, touch_detail, touch_jobs, touch_refusal, ExtendResponse, Fetched,
    NackResponse, PendingAck, PendingDeadLetter};
use crate::leases::{later, touch_all, LeaseOp};
use crate::payload::{decimal, with_member};
use crate::queue::QueueView;
use crate::queue_laws::{in_reach, kept};
use crate::topic_index::StoredRecord;
use crate::topic_state::TopicView;
use crate::types::{default_config, Durability, ErrorCode, ErrorDetail, Json, TopicConfig};
use crate::wal::WalRecord;
use vstd::prelude::*;

verus! {

/// Replaying the events of leases strands no job: where every live job below the claim
/// cursor is held, up for reclaim or delayed, it still is after an event of a claim, a
/// release or an extension; and after an acknowledgement whose record is gone. A claim is
/// logged behind those of all lower jobs that are there.
pub proof fn replayed_events_strand_nothing(
    t: TopicView,
    event: u8,
    seq: u64,
    node: String,
    lease_id: u64,
    deadline: i64,
    deliveries: u64,
)
    requires
        t.strands_nothing(),
        lease_id < u64::MAX,
        t.head < u64::MAX,
        event == 0 ==> seq <= t.head && forall|s: u64|
            t.queue->0.claim_cursor <= s < seq && #[trigger] t.has_live(s)
                ==> t.queue->0.leases.contains_key(s),
        event == 3 ==> !t.has_live(seq),
    ensures
        t.with_queue(
            t.queue->0.after_event(event, seq, node, lease_id, deadline, deliveries),
        ).strands_nothing(),
{
    let q = t.queue->0;
    let r = q.after_event(event, seq, node, lease_id, deadline, deliveries);
    let u = t.with_queue(r);
    assert forall|s: u64| #[trigger] u.has_live(s) implies in_reach(r, s) by {
        assert(t.has_live(s));
        assert(in_reach(q, s));
        if s < r.claim_cursor {
            assert(r.delayed == q.delayed);
            if s < q.claim_cursor {
                assert(kept(q, s));
                if q.leases.contains_key(s) {
                    assert(r.leases.contains_key(s) || r.reclaim.contains(s));
                } else if q.reclaim.contains(s) {
                    assert(r.reclaim.contains(s));
                } else {
                    let d = choose|d: i64| #[trigger] q.delayed.contains((d, s));
                    assert(r.delayed.contains((d, s)));
                }
            } else {
                assert(r.leases.contains_key(s));
            }
        }
    }
}

/// A job whose current lease was released according to the log is nobody's and up for
/// reclaim: it can be claimed.
pub proof fn a_released_job_can_be_claimed(
    q: QueueView,
    seq: u64,
    node: String,
    lease_id: u64,
    deadline: i64,
    deliveries: u64,
)
    requires
        q.leases.contains_key(seq),
        q.leases[seq].lease_id == lease_id,
        lease_id < q.next_lease_id,
    ensures
        ({
            let r = q.after_event(1, seq, node, lease_id, deadline, deliveries);
            &&& !r.leases.contains_key(seq)
            &&& r.reclaim.contains(seq)
            &&& r.deliveries == q.deliveries
            &&& r.claim_cursor == q.claim_cursor
            &&& r.delayed == q.delayed
            &&& forall|s: u64| s != seq ==> (r.reclaim.contains(s) <==> q.reclaim.contains(s))
                && (#[trigger] r.leases.contains_key(s) <==> q.leases.contains_key(s))
                && r.leases[s] == q.leases[s]
        }),
{
}

/// A job that was claimed according to the log is held by its claimer up to the deadline,
/// was handed out so often, is not handed out again as a fresh one, and its lease is not
/// given out again.
pub proof fn a_logged_claim_is_held(
    q: QueueView,
    seq: u64,
    node: String,
    lease_id: u64,
    deadline: i64,
    deliveries: u64,
)
    requires
        seq < u64::MAX,
        lease_id < u64::MAX,
    ensures
        ({
            let r = q.after_event(0, seq, node, lease_id, deadline, deliveries);
            &&& r.leases.contains_key(seq)
            &&& r.leases[seq].node == node
            &&& r.leases[seq].lease_id == lease_id
            &&& r.leases[seq].deadline_ms == deadline
            &&& r.leases[seq].by_work_conn is None
            &&& r.deliveries.contains_key(seq)
            &&& r.deliveries[seq] == deliveries
            &&& r.claim_cursor > seq
            &&& r.claim_cursor == q.claim_cursor || r.claim_cursor == seq + 1
            &&& r.claim_cursor >= q.claim_cursor
            &&& r.next_lease_id > lease_id
            &&& r.next_lease_id == q.next_lease_id || r.next_lease_id == lease_id + 1
            &&& r.reclaim == q.reclaim
            &&& r.delayed == q.delayed
            &&& r.dead_lettered == q.dead_lettered
            &&& forall|s: u64|
                s != seq ==> (#[trigger] r.leases.contains_key(s) <==> q.leases.contains_key(s))
                    && r.leases[s] == q.leases[s]
        }),
{
}

/// What comes back from the log is what was there: a release, an extension and an
/// acknowledgement of the current lease do to the queue, when they are replayed, what they
/// did when they were made.
pub proof fn replaying_does_what_was_done(
    q: QueueView,
    seq: u64,
    node: String,
    deadline: i64,
    deliveries: u64,
    now: i64,
)
    requires
        q.leases.contains_key(seq),
        q.leases[seq].lease_id < q.next_lease_id,
    ensures
        ({
            let id = q.leases[seq].lease_id;
            &&& q.after_event(1, seq, node, id, deadline, deliveries) == q.touched(
                LeaseOp::Nack { delay: 0 },
                seq,
                now,
            )
            &&& q.after_event(2, seq, node, id, deadline, deliveries) == q.touched(
                LeaseOp::Extend { deadline },
                seq,
                now,
            )
            &&& q.after_event(3, seq, node, id, deadline, deliveries) == q.touched(
                LeaseOp::Ack,
                seq,
                now,
            )
        }),
{
}

/// The frame for an event of a lease, replayed, is that event: of that job, that lease, that
/// holder, that deadline and that count, on the queue it was logged for.
pub proof fn a_lease_frame_is_its_event(
    v: EngineView,
    name: Seq<char>,
    f: WalRecord,
    event: u8,
    seq: u64,
    node: Seq<char>,
    lease_id: u64,
    deadline: i64,
    deliveries: u64,
    now: i64,
    at: i64,
    v2: EngineView,
)
    requires
        v.topics.contains_key(name),
        v.topics[name].name == name,
        v.topics[name].queue is Some,
        v.name_of(v.topics[name].topic_id) == Some(name),
        lease_frame(
            f,
            v.topics[name].topic_id,
            event,
            seq,
            node,
            lease_id,
            deadline,
            deliveries,
            now,
        ),
        deadline >= 0,
        lease_id < u64::MAX,
        seq < u64::MAX,
        v.replays(f, at, v2),
    ensures
        f->Lease_holder@ == node,
        v2.topics[name] == v.topics[name].with_queue(
            v.topics[name].queue->0.after_event(
                event,
                seq,
                f->Lease_holder,
                lease_id,
                deadline,
                deliveries,
            ),
        ),
{
}

/// What a holder does with its job: an acknowledged job is nobody's and forgotten; a
/// returned one is up for reclaim, at once or once its delay is over; an extended one stays
/// with its holder up to the new deadline. No other job changes.
pub proof fn what_a_holder_does(q: QueueView, seq: u64, delay: i64, deadline: i64, now: i64)
    requires
        q.leases.contains_key(seq),
        delay >= 0,
        now + delay <= i64::MAX,
    ensures
        ({
            let a = q.touched(LeaseOp::Ack, seq, now);
            &&& !a.leases.contains_key(seq)
            &&& !a.deliveries.contains_key(seq)
            &&& a.reclaim == q.reclaim
            &&& a.delayed == q.delayed
        }),
        ({
            let n = q.touched(LeaseOp::Nack { delay }, seq, now);
            &&& !n.leases.contains_key(seq)
            &&& n.deliveries == q.deliveries
            &&& delay == 0 ==> n.reclaim.contains(seq) && n.delayed == q.delayed
            &&& delay > 0 ==> n.delayed.contains(((now + delay) as i64, seq)) && n.reclaim
                == q.reclaim
        }),
        ({
            let e = q.touched(LeaseOp::Extend { deadline }, seq, now);
            &&& e.leases.contains_key(seq)
            &&& e.leases[seq].deadline_ms == deadline
            &&& e.leases[seq].node == q.leases[seq].node
            &&& e.leases[seq].lease_id == q.leases[seq].lease_id
            &&& e.leases[seq].by_work_conn == q.leases[seq].by_work_conn
            &&& e.deliveries == q.deliveries
            &&& e.reclaim == q.reclaim
            &&& e.delayed == q.delayed
        }),
        forall|op: LeaseOp, s: u64|
            s != seq ==> (#[trigger] q.touched(op, seq, now).leases.contains_key(s)
                <==> q.leases.contains_key(s)) && q.touched(op, seq, now).leases[s] == q.leases[s]
                && (q.touched(op, seq, now).reclaim.contains(s) <==> q.reclaim.contains(s)),
        forall|op: LeaseOp| #[trigger]
            q.touched(op, seq, now).next_lease_id == q.next_lease_id && q.touched(
                op,
                seq,
                now,
            ).claim_cursor == q.claim_cursor && q.touched(op, seq, now).dead_lettered
                == q.dead_lettered,
{
}

/// A node holds a job, and the token that it names for it, if any, is the current one.
pub open spec fn is_holder(
    q: QueueView,
    node: Seq<char>,
    seq: u64,
    token: Option<u64>,
) -> bool {
    &&& q.leases.contains_key(seq)
    &&& q.leases[seq].node@ == node
    &&& token is Some ==> token->0 == q.leases[seq].lease_id
}

/// A request on leased jobs is worked off job by job: what its node holds, under the token
/// it names, is done, with the lease it was held under, and anything else is skipped and
/// stays as it is.
pub proof fn a_request_is_worked_off_job_by_job(
    q: QueueView,
    op: LeaseOp,
    node: Seq<char>,
    seqs: Seq<u64>,
    seq: u64,
    lease_ids: Seq<Option<u64>>,
    now: i64,
)
    ensures
        ({
            let e = touch_all(q, op, node, Seq::<u64>::empty(), lease_ids, now);
            e.queue == q && e.done.len() == 0 && e.skipped.len() == 0
        }),
        ({
            let t = touch_all(q, op, node, seqs, lease_ids, now);
            let u = touch_all(q, op, node, seqs.push(seq), lease_ids, now);
            let token = if seqs.len() < lease_ids.len() {
                lease_ids[seqs.len() as int]
            } else {
                None
            };
            if is_holder(t.queue, node, seq, token) {
                &&& u.done == t.done.push((seq, t.queue.leases[seq].lease_id))
                &&& u.skipped == t.skipped
                &&& u.queue == t.queue.touched(op, seq, now)
            } else {
                &&& u.done == t.done
                &&& u.skipped == t.skipped.push(seq)
                &&& u.queue == t.queue
            }
        }),
{
    assert(seqs.push(seq).drop_last() =~= seqs);
}

/// Every job of a request is done or skipped.
pub proof fn every_job_is_done_or_skipped(
    q: QueueView,
    op: LeaseOp,
    node: Seq<char>,
    seqs: Seq<u64>,
    lease_ids: Seq<Option<u64>>,
    now: i64,
)
    ensures
        ({
            let t = touch_all(q, op, node, seqs, lease_ids, now);
            t.done.len() + t.skipped.len() == seqs.len()
        }),
    decreases seqs.len(),
{
    if seqs.len() > 0 {
        every_job_is_done_or_skipped(q, op, node, seqs.drop_last(), lease_ids, now);
    }
}

/// Nothing can be done with a job whose lease has run out: it is up for reclaim.
pub proof fn a_lease_that_ran_out_is_lost(
    t: TopicView,
    op: LeaseOp,
    node: Seq<char>,
    seq: u64,
    lease_ids: Seq<Option<u64>>,
    now: i64,
)
    requires
        t.queue is Some,
        t.queue->0.leases.contains_key(seq),
        t.queue->0.leases[seq].deadline_ms < now,
    ensures
        ({
            let x = touch_jobs(t, op, node, seq![seq], lease_ids, now);
            &&& x.done.len() == 0
            &&& x.skipped == seq![seq]
            &&& !x.queue.leases.contains_key(seq)
            &&& x.queue.reclaim.contains(seq)
        }),
{
    let q = t.queue->0.swept(now);
    a_request_is_worked_off_job_by_job(q, op, node, Seq::empty(), seq, lease_ids, now);
    assert(Seq::<u64>::empty().push(seq) =~= seq![seq]);
    assert(Seq::<u64>::empty().push(seq) == seq![seq]);
}

/// The holder of a job whose lease holds can do something with it, whatever else is in the
/// queue.
pub proof fn a_lease_that_holds_can_be_used(
    t: TopicView,
    op: LeaseOp,
    seq: u64,
    now: i64,
)
    requires
        t.queue is Some,
        t.queue->0.leases.contains_key(seq),
        t.queue->0.leases[seq].deadline_ms >= now,
    ensures
        ({
            let l = t.queue->0.leases[seq];
            let x = touch_jobs(t, op, l.node@, seq![seq], Seq::empty(), now);
            &&& x.done == seq![(seq, l.lease_id)]
            &&& x.skipped.len() == 0
            &&& x.queue == t.queue->0.swept(now).touched(op, seq, now)
        }),
{
    let q = t.queue->0.swept(now);
    let l = t.queue->0.leases[seq];
    a_request_is_worked_off_job_by_job(q, op, l.node@, Seq::empty(), seq, Seq::empty(), now);
    assert(Seq::<u64>::empty().push(seq) == seq![seq]);
    assert(q.leases.contains_key(seq) && q.leases[seq] == l);
    assert(Seq::<(u64, u64)>::empty().push((seq, l.lease_id)) =~= seq![(seq, l.lease_id)]);
    assert(touch_all(q, op, l.node@, Seq::<u64>::empty(), Seq::empty(), now).done =~= Seq::<
        (u64, u64),
    >::empty());
}

/// A job is returned for the delay asked for, up to twelve hours.
pub proof fn a_job_is_returned_for_the_delay_asked_for(delay_ms: u64)
    ensures
        delay_ms <= 43200000 ==> nack_op(delay_ms) == (LeaseOp::Nack { delay: delay_ms as i64 }),
        delay_ms > 43200000 ==> nack_op(delay_ms) == (LeaseOp::Nack { delay: 43200000 }),
{
}

/// A moment so much later, as far as there is time.
pub proof fn a_later_moment(now: i64, ms: int)
    requires
        0 <= ms <= i64::MAX,
    ensures
        now + ms <= i64::MAX ==> later(now, ms) == now + ms,
        now + ms > i64::MAX ==> later(now, ms) == i64::MAX,
{
}

/// A request on leased jobs is refused without a node, with more than a thousand jobs, with
/// tokens that do not match the jobs in number, and where there is no such queue; and in no
/// other case.
pub proof fn requests_on_leases_are_refused(
    v: EngineView,
    name: Seq<char>,
    node: Seq<char>,
    seqs: Seq<u64>,
    lease_ids: Seq<Option<u64>>,
)
    ensures
        ({
            let r = touch_refusal(v, name, node, seqs, lease_ids);
            if node.len() == 0 {
                r == Some(ErrorCode::InvalidRequest)
            } else if seqs.len() > 1000 {
                r == Some(ErrorCode::BatchTooLarge)
            } else if lease_ids.len() > 0 && lease_ids.len() != seqs.len() {
                r == Some(ErrorCode::InvalidRequest)
            } else if !v.topics.contains_key(name) {
                r == Some(ErrorCode::TopicNotFound)
            } else if v.topics[name].queue is None {
                r == Some(ErrorCode::NotAQueue)
            } else {
                r is None
            }
        }),
{
}

/// The jobs of a connection that ends are up for reclaim, and no other job changes.
pub proof fn a_connection_gives_its_jobs_back(q: QueueView, conn: u64, seq: u64)
    requires
        q.leases.contains_key(seq),
    ensures
        ({
            let r = q.conn_released(conn);
            if q.leases[seq].by_work_conn == Some(conn) {
                !r.leases.contains_key(seq) && r.reclaim.contains(seq)
            } else {
                &&& r.leases.contains_key(seq)
                &&& r.leases[seq] == q.leases[seq]
                &&& r.reclaim.contains(seq) <==> q.reclaim.contains(seq)
            }
        }),
        q.conn_released(conn).deliveries == q.deliveries,
        q.conn_released(conn).claim_cursor == q.claim_cursor,
        q.conn_released(conn).delayed == q.delayed,
{
}

/// The copy of a job that was given up is what the job was: its node, its tag and its data,
/// at hand and not deleted, at the time it was given up; its meta says where it came from.
pub proof fn a_dead_letter_is_the_job(
    c: StoredRecord,
    t: TopicView,
    fetched: Seq<Fetched>,
    seq: u64,
    max: u64,
    now: i64,
)
    requires
        is_copy(c, t, fetched, seq, max, now),
        t.rec(seq).payload_resident,
        t.rec(seq).data is Some,
    ensures
        c.ts == now,
        c.node == t.rec(seq).node,
        c.tag == t.rec(seq).tag,
        c.data == t.rec(seq).data,
        c.meta is Some,
        c.meta->0.text@ == marked(t.rec(seq).meta, t.name, max, seq).0,
        !c.deleted,
        c.payload_resident,
        c.hops == 0,
        c.data->0.size() + c.meta->0.size() <= u64::MAX ==> c.bytes == c.data->0.size()
            + c.meta->0.size(),
{
}

/// The meta of a job that was given up is its own, where that is an object, with the queue
/// it came from, the number of times it could be handed out, and its sequence number.
pub proof fn a_dead_letter_says_where_it_came_from(
    meta: Option<Json>,
    from: Seq<char>,
    max: u64,
    seq: u64,
)
    ensures
        ({
            let own = match meta {
                Some(m) => if m.keys is Some {
                    m.text@
                } else {
                    seq!['{', '}']
                },
                None => seq!['{', '}'],
            };
            let a = with_member(own, "$dead_letter_from"@, from).0;
            let b = with_member(a, "$dead_letter_deliveries"@, decimal(max as nat)).0;
            marked(meta, from, max, seq) == with_member(
                b,
                "$dead_letter_src_seq"@,
                decimal(seq as nat),
            )
        }),
{
}

/// Jobs that could not be moved to the dead-letter topic are up for reclaim again, and no
/// longer count as moved.
pub proof fn jobs_that_stay_are_up_again(t: TopicView, seqs: Seq<u64>)
    requires
        t.queue is Some,
        seqs.len() <= t.queue->0.dead_lettered,
    ensures
        ({
            let q = t.diverted_back(seqs).queue->0;
            &&& forall|i: int| 0 <= i < seqs.len() ==> q.reclaim.contains(#[trigger] seqs[i])
            &&& forall|s: u64| t.queue->0.reclaim.contains(s) ==> #[trigger] q.reclaim.contains(s)
            &&& q.dead_lettered == t.queue->0.dead_lettered - seqs.len()
            &&& q.leases == t.queue->0.leases
            &&& q.claim_cursor == t.queue->0.claim_cursor
        }),
{
    assert forall|i: int| 0 <= i < seqs.len() implies seqs.to_set().contains(
        #[trigger] seqs[i],
    ) by {
        assert(seqs.contains(seqs[i]));
    }
}

/// What no longer counts in a queue no longer counts against the quota: a job that is done
/// gives back what the queue has lost in size.
pub proof fn a_job_that_is_done_gives_its_bytes_back(v: EngineView, name: Seq<char>, seq: u64)
    requires
        v.topics.contains_key(name),
        v.topics[name].name == name,
        v.topics[name].ok(),
        v.topics[name].settled(),
        v.topics[name].bytes <= v.total,
    ensures
        ({
            let w = v.without_job(name, seq);
            v.total - w.total == v.topics[name].bytes - w.topics[name].bytes
        }),
{
    let t = v.topics[name];
    let s = set![seq];
    crate::topic_laws::without_keeps(t, s);
    crate::topic_laws::reclaim_keeps(t.without(s));
    crate::topic_state::erase_shrinks(t.base, t.recs, s);
    let u = t.without(s);
    let n = u.reclaim_count();
    assert(u.recs =~= u.recs.take(n) + u.recs.skip(n));
    crate::topic_index::run_sums_add(u.recs.take(n), u.recs.skip(n));
}

/// The counters of a queue: in flight is what is held and there; ready is what can be read,
/// without what is under a lease and what waits out a delay.
pub proof fn what_the_counters_count(t: TopicView, now: i64)
    requires
        t.queue is Some,
        t.queue->0.leases.dom().finite(),
        t.queue->0.leases.dom().len() <= u64::MAX,
    ensures
        ({
            let q = t.queue->0;
            let held = q.leases.dom().filter(
                |s: u64| now <= q.leases[s].deadline_ms && t.has_live(s),
            );
            let leased = q.leases.dom().filter(|s: u64| t.has_live(s));
            let waiting = q.delayed.filter(|d: (i64, u64)| d.0 > now && t.has_live(d.1));
            &&& t.counters(now).in_flight == held.len() as u64
            &&& t.counters(now).dead_lettered == q.dead_lettered
            &&& leased.len() <= u64::MAX && waiting.len() <= u64::MAX && leased.len()
                + waiting.len() <= t.live ==> t.counters(now).ready == t.live - leased.len()
                - waiting.len()
        }),
{
    let q = t.queue->0;
    let held = q.leases.dom().filter(|s: u64| now <= q.leases[s].deadline_ms && t.has_live(s));
    assert(held =~= t.held(now));
    let leased = q.leases.dom().filter(|s: u64| t.has_live(s));
    assert(leased =~= t.leased());
    let f = |d: (i64, u64)| d.0 > now && t.has_live(d.1);
    assert(q.delayed.filter(f) =~= q.delayed.filter(
        |d: (i64, u64)| d.0 > now && t.has_live(d.1),
    ));
    assert(t.waiting(now) == q.delayed.filter(
        |d: (i64, u64)| d.0 > now && t.has_live(d.1),
    ).len());
}

/// The jobs of a list of jobs and leases, in order.
pub proof fn the_jobs_that_were_done(done: Seq<(u64, u64)>, i: int)
    requires
        0 <= i < done.len(),
    ensures
        done_seqs(done).len() == done.len(),
        done_seqs(done)[i] == done[i].0,
{
}

/// The payload of a job is the one at hand, else the one that was fetched, else none.
pub proof fn the_payload_of_a_job(t: TopicView, fetched: Seq<Fetched>, seq: u64)
    ensures
        t.rec(seq).payload_resident ==> payload_of(t, fetched, seq) == (
            t.rec(seq).data,
            t.rec(seq).meta,
        ),
        !t.rec(seq).payload_resident && (forall|k: int|
            0 <= k < fetched.len() ==> (#[trigger] fetched[k]).0 != seq) ==> payload_of(
            t,
            fetched,
            seq,
        ) == (None::<Json>, None::<Json>),
        !t.rec(seq).payload_resident && (exists|k: int|
            0 <= k < fetched.len() && (#[trigger] fetched[k]).0 == seq) ==> exists|k: int|
            {
                &&& 0 <= k < fetched.len()
                &&& (#[trigger] fetched[k]).0 == seq
                &&& payload_of(t, fetched, seq) == (Some(fetched[k].1), fetched[k].2)
            },
{
    crate::read_laws::the_first_fetched_counts(fetched, seq);
}

/// A frame is an event of a lease: of that topic, that job, that lease and that holder.
pub open spec fn is_event(
    f: WalRecord,
    topic_id: u64,
    event: u8,
    seq: u64,
    lease_id: u64,
    node: Seq<char>,
) -> bool {
    &&& f is Lease
    &&& f->Lease_topic_id == topic_id
    &&& f->Lease_event == event
    &&& f->Lease_seq == seq
    &&& f->Lease_lease_id == lease_id
    &&& f->Lease_holder@ == node
}

/// The leases of a queue are logged where it is set to, unless it lives in memory alone.
pub open spec fn keeps_leases(t: TopicView) -> bool {
    t.config.leases_durable && t.config.durability != Some(Durability::Memory)
}

/// A holder who returns a job no longer holds it; the job is up for reclaim, at once or when
/// the delay is over; and the log is told that the lease was released.
pub proof fn a_holder_returns_a_job(
    v: EngineView,
    name: Seq<char>,
    seq: u64,
    delay_ms: u64,
    now: i64,
    r: NackResponse,
    v2: EngineView,
)
    requires
        v.topics.contains_key(name),
        v.topics[name].name == name,
        v.topics[name].queue is Some,
        v.topics[name].queue->0.leases.contains_key(seq),
        v.topics[name].queue->0.leases[seq].deadline_ms >= now,
        returned_to(
            v,
            name,
            v.topics[name].queue->0.leases[seq].node@,
            seq![seq],
            Seq::empty(),
            delay_ms,
            now,
            r,
            v2,
        ),
        delay_ms <= 43200000,
        now + delay_ms <= i64::MAX,
    ensures
        ({
            let t = v.topics[name];
            let l = t.queue->0.leases[seq];
            let q = v2.topics[name].queue->0;
            &&& r.nacked == 1
            &&& r.skipped@.len() == 0
            &&& !q.leases.contains_key(seq)
            &&& delay_ms == 0 ==> q.reclaim.contains(seq)
            &&& delay_ms > 0 ==> q.delayed.contains(((now + delay_ms) as i64, seq))
            &&& r.frames@.len() == (if keeps_leases(t) {
                1int
            } else {
                0
            })
            &&& keeps_leases(t) ==> is_event(
                r.frames@[0],
                t.topic_id,
                1,
                seq,
                l.lease_id,
                l.node@,
            )
        }),
{
    let t = v.topics[name];
    let op = nack_op(delay_ms);
    a_lease_that_holds_can_be_used(t, op, seq, now);
    a_job_is_returned_for_the_delay_asked_for(delay_ms);
    let q = t.queue->0.swept(now);
    assert(q.leases.contains_key(seq));
    what_a_holder_does(q, seq, delay_ms as i64, 0, now);
    let x = q.touched(op, seq, now);
    if delay_ms > 0 {
        let d = ((now + delay_ms) as i64, seq);
        assert(x.delayed.count(d) > 0);
        assert(x.swept(now).delayed.count(d) > 0);
    }
}

/// A holder who keeps a job for longer holds it, under the same lease, for the time asked
/// for from now on, within a second and twelve hours; and the log is told of the new
/// deadline.
pub proof fn a_holder_keeps_a_job_for_longer(
    v: EngineView,
    name: Seq<char>,
    seq: u64,
    lease_ms: u64,
    now: i64,
    r: ExtendResponse,
    v2: EngineView,
)
    requires
        v.topics.contains_key(name),
        v.topics[name].name == name,
        v.topics[name].queue is Some,
        v.topics[name].queue->0.leases.contains_key(seq),
        v.topics[name].queue->0.leases[seq].deadline_ms >= now,
        extended_by(
            v,
            name,
            v.topics[name].queue->0.leases[seq].node@,
            seq![seq],
            Seq::empty(),
            lease_ms,
            now,
            r,
            v2,
        ),
        1000 <= lease_ms <= 43200000,
        0 <= now,
        now + lease_ms <= i64::MAX,
    ensures
        ({
            let t = v.topics[name];
            let l = t.queue->0.leases[seq];
            let q = v2.topics[name].queue->0;
            &&& r.extended == 1
            &&& r.skipped@.len() == 0
            &&& r.deadlines@ == seq![(seq, (now + lease_ms) as i64)]
            &&& q.leases.contains_key(seq)
            &&& q.leases[seq].deadline_ms == now + lease_ms
            &&& q.leases[seq].lease_id == l.lease_id
            &&& q.leases[seq].node == l.node
            &&& r.frames@.len() == (if keeps_leases(t) {
                1int
            } else {
                0
            })
            &&& keeps_leases(t) ==> is_event(
                r.frames@[0],
                t.topic_id,
                2,
                seq,
                l.lease_id,
                l.node@,
            ) && r.frames@[0]->Lease_deadline == now + lease_ms
        }),
{
    let t = v.topics[name];
    let deadline = (now + lease_ms) as i64;
    let op = LeaseOp::Extend { deadline };
    a_lease_that_holds_can_be_used(t, op, seq, now);
    let q = t.queue->0.swept(now);
    assert(q.leases.contains_key(seq) && q.leases[seq] == t.queue->0.leases[seq]);
    what_a_holder_does(q, seq, 0, deadline, now);
    assert(r.deadlines@ =~= seq![(seq, deadline)]);
}

/// A holder who acknowledges a job no longer holds it, and the job is named to be deleted;
/// the log is told that the lease is done, and where the queue waits for the disk the
/// deletion must reach it.
pub proof fn a_holder_acknowledges_a_job(
    v: EngineView,
    name: Seq<char>,
    seq: u64,
    now: i64,
    r: PendingAck,
    v2: EngineView,
)
    requires
        v.topics.contains_key(name),
        v.topics[name].name == name,
        v.topics[name].queue is Some,
        v.topics[name].queue->0.leases.contains_key(seq),
        v.topics[name].queue->0.leases[seq].deadline_ms >= now,
        acks_begun(
            v,
            name,
            v.topics[name].queue->0.leases[seq].node@,
            seq![seq],
            Seq::empty(),
            now,
            r,
            v2,
        ),
    ensures
        ({
            let t = v.topics[name];
            let l = t.queue->0.leases[seq];
            let q = v2.topics[name].queue->0;
            &&& r.name@ == name
            &&& r.done@ == seq![(seq, l.lease_id)]
            &&& r.skipped@.len() == 0
            &&& !q.leases.contains_key(seq)
            &&& !q.deliveries.contains_key(seq)
            &&& r.durable <==> t.config.durability == Some(Durability::Fsync) || (
            t.config.durability is None && t.config.durable)
            &&& r.frames@.len() == (if keeps_leases(t) {
                1int
            } else {
                0
            })
            &&& keeps_leases(t) ==> is_event(
                r.frames@[0],
                t.topic_id,
                3,
                seq,
                l.lease_id,
                l.node@,
            )
        }),
{
    let t = v.topics[name];
    a_lease_that_holds_can_be_used(t, LeaseOp::Ack, seq, now);
    let q = t.queue->0.swept(now);
    assert(q.leases.contains_key(seq));
    what_a_holder_does(q, seq, 0, 0, now);
}

/// The answers to requests on leased jobs count them: every job named is either done or
/// skipped, and what is counted as ready and in flight is what is.
pub proof fn the_answers_count_the_jobs(
    v: EngineView,
    name: Seq<char>,
    node: Seq<char>,
    seqs: Seq<u64>,
    lease_ids: Seq<Option<u64>>,
    ms: u64,
    now: i64,
    n: NackResponse,
    e: ExtendResponse,
    a: PendingAck,
    vn: EngineView,
    ve: EngineView,
    va: EngineView,
)
    requires
        v.topics[name].name == name,
        returned_to(v, name, node, seqs, lease_ids, ms, now, n, vn),
        extended_by(v, name, node, seqs, lease_ids, ms, now, e, ve),
        acks_begun(v, name, node, seqs, lease_ids, now, a, va),
    ensures
        n.nacked + n.skipped@.len() == seqs.len(),
        e.extended + e.skipped@.len() == seqs.len(),
        e.deadlines@.len() == e.extended,
        a.done@.len() + a.skipped@.len() == seqs.len(),
        n.ready == vn.topics[name].counters(now).ready,
        n.in_flight == vn.topics[name].counters(now).in_flight,
{
    let q = v.topics[name].queue->0.swept(now);
    let deadline = later(now, crate::leases::clamped_lease(ms) as int);
    every_job_is_done_or_skipped(q, nack_op(ms), node, seqs, lease_ids, now);
    every_job_is_done_or_skipped(q, LeaseOp::Extend { deadline }, node, seqs, lease_ids, now);
    every_job_is_done_or_skipped(q, LeaseOp::Ack, node, seqs, lease_ids, now);
}

/// The log is told of each job that is handed out: that it was claimed, by whom, under which
/// lease, up to when, and how often it was handed out.
pub proof fn the_log_is_told_of_each_claim(
    frames: Seq<WalRecord>,
    t: TopicView,
    claimers: Seq<Claimer>,
    d: Dealt,
    deadline: i64,
    now: i64,
    i: int,
)
    requires
        claim_frames(frames, t, claimers, d, deadline, now),
        0 <= i < d.handed.len(),
        0 <= deadline,
    ensures
        frames.len() == d.handed.len(),
        is_event(
            frames[i],
            t.topic_id,
            0,
            d.handed[i].seq,
            d.handed[i].lease_id,
            claimers[d.handed[i].claimer].node@,
        ),
        frames[i]->Lease_deadline == deadline,
        frames[i]->Lease_deliveries == d.handed[i].deliveries,
{
}

/// A request that returns a job which is held and comes back from the log makes the job
/// claimable in both: live and replayed, nobody holds it, and it is up for reclaim.
pub proof fn a_returned_job_is_claimable_after_a_restart(
    q: QueueView,
    seq: u64,
    f: WalRecord,
    node: Seq<char>,
    now: i64,
)
    requires
        q.leases.contains_key(seq),
        q.leases[seq].lease_id < q.next_lease_id,
        is_event(f, f->Lease_topic_id, 1, seq, q.leases[seq].lease_id, node),
    ensures
        ({
            let live = q.touched(LeaseOp::Nack { delay: 0 }, seq, now);
            let back = q.after_event(
                f->Lease_event,
                f->Lease_seq,
                f->Lease_holder,
                f->Lease_lease_id,
                crate::recovery::time_of(f->Lease_deadline),
                f->Lease_deliveries,
            );
            &&& !live.leases.contains_key(seq) && live.reclaim.contains(seq)
            &&& !back.leases.contains_key(seq) && back.reclaim.contains(seq)
            &&& forall|s: u64| #[trigger] back.reclaim.contains(s) <==> live.reclaim.contains(s)
            &&& forall|s: u64| #[trigger]
                back.leases.contains_key(s) <==> live.leases.contains_key(s)
            &&& back.claim_cursor == live.claim_cursor
        }),
{
}

/// Of jobs that leave their queue each is gone, unless its deletion was refused: then it is
/// there as before, and up for reclaim. No other job above every floor goes.
pub proof fn jobs_leave_unless_refused(
    v: EngineView,
    name: Seq<char>,
    seqs: Seq<u64>,
    refused: Set<u64>,
)
    requires
        v.topics.contains_key(name),
        v.topics[name].name == name,
        v.topics[name].ok(),
        v.topics[name].queue is Some,
    ensures
        ({
            let t = v.topics[name];
            let w = v.without_jobs(name, seqs, refused);
            let u = w.topics[name];
            &&& w.topics.contains_key(name)
            &&& u.name == name
            &&& u.ok()
            &&& u.queue is Some
            &&& u.head == t.head
            &&& u.floors == t.floors
            &&& u.seq_base == t.seq_base
            &&& forall|s: u64| #[trigger]
                u.has_live(s) ==> t.has_live(s) && (!seqs.contains(s) || refused.contains(s))
            &&& forall|s: u64|
                (!seqs.contains(s) || refused.contains(s)) && s >= t.floors.earliest(
                    t.seq_base,
                    t.head,
                ) && #[trigger] t.has_live(s) ==> u.has_live(s) && u.rec(s) == t.rec(s)
            &&& forall|s: u64| #[trigger]
                u.queue->0.reclaim.contains(s) <==> t.queue->0.reclaim.contains(s)
                    || seqs.contains(s) && refused.contains(s)
            &&& u.queue->0.leases == t.queue->0.leases
        }),
    decreases seqs.len(),
{
    if seqs.len() > 0 {
        let rest = seqs.drop_last();
        let last = seqs.last();
        let m = v.without_jobs(name, rest, refused);
        let t = v.topics[name];
        let u = v.without_jobs(name, seqs, refused).topics[name];
        jobs_leave_unless_refused(v, name, rest, refused);
        if !refused.contains(last) {
            one_job_is_done(m, name, last);
        } else {
            assert forall|s: u64| #[trigger] u.has_live(s) == m.topics[name].has_live(s) by {
                assert(u.rec(s) == m.topics[name].rec(s));
            }
        }
        assert forall|s: u64| seqs.contains(s) <==> #[trigger] rest.contains(s) || s == last by {
            if seqs.contains(s) {
                let i = choose|i: int| 0 <= i < seqs.len() && seqs[i] == s;
                if i < rest.len() {
                    assert(rest[i] == s);
                }
            }
            if rest.contains(s) {
                let i = choose|i: int| 0 <= i < rest.len() && rest[i] == s;
                assert(seqs[i] == s);
            }
            assert(seqs[seqs.len() - 1] == last);
        }
        assert forall|s: u64|
            (!seqs.contains(s) || refused.contains(s)) && s >= t.floors.earliest(
                t.seq_base,
                t.head,
            ) && #[trigger] t.has_live(s) implies u.has_live(s) && u.rec(s) == t.rec(s) by {
            assert(seqs.contains(s) <==> rest.contains(s) || s == last);
            assert(m.topics[name].has_live(s));
        }
        assert forall|s: u64| #[trigger] u.has_live(s) implies t.has_live(s) && (!seqs.contains(s)
            || refused.contains(s)) by {
            assert(m.topics[name].has_live(s));
            assert(seqs.contains(s) <==> rest.contains(s) || s == last);
        }
        assert forall|s: u64| #[trigger]
            u.queue->0.reclaim.contains(s) <==> t.queue->0.reclaim.contains(s) || seqs.contains(s)
                && refused.contains(s) by {
            assert(seqs.contains(s) <==> rest.contains(s) || s == last);
        }
    }
}

/// Jobs on their way to the dead-letter topic leave their queue once the copies are logged,
/// or where there is nothing to copy; where the copies were not logged, each is up for
/// reclaim, and no record of the queue has gone.
pub proof fn jobs_leave_once_their_copies_are_logged(
    v: EngineView,
    p: PendingDeadLetter,
    committed: bool,
    now: i64,
    seq: u64,
)
    requires
        v.topics.contains_key(p.name@),
        v.topics[p.name@].name == p.name@,
        v.topics[p.name@].ok(),
        v.topics[p.name@].queue is Some,
        p.append is Some ==> p.append->0.name@ != p.name@ && v.holds_append(p.append->0)
            && v.topics[p.append->0.name@].name == p.append->0.name@,
        p.seqs@.contains(seq),
    ensures
        ({
            let u = v.dead_letters_done(p, committed, Set::empty(), now).topics[p.name@];
            let logged = p.append is None || committed;
            &&& logged ==> !u.has_live(seq)
            &&& !logged ==> u.queue->0.reclaim.contains(seq) && u.recs == v.topics[p.name@].recs
                && (v.topics[p.name@].has_live(seq) ==> u.has_live(seq))
        }),
{
    match p.append {
        Some(a) => {
            let w = v.append_done(a, committed, now);
            assert(w.topics[p.name@] == v.topics[p.name@]);
            if committed {
                jobs_leave_unless_refused(w, p.name@, p.seqs@, Set::empty());
            } else {
                assert(p.seqs@.to_set().contains(seq));
            }
        },
        None => {
            jobs_leave_unless_refused(v, p.name@, p.seqs@, Set::empty());
        },
    }
}

/// Jobs that set out for the dead-letter topic stay in their queue until their copies are
/// logged; where the topic does not take the copies, they are up for reclaim.
pub proof fn jobs_stay_until_their_copies_are_logged(
    v: EngineView,
    name: Seq<char>,
    dl: Seq<char>,
    seqs: Seq<u64>,
    copies: Seq<StoredRecord>,
    now: i64,
    seq: u64,
)
    requires
        v.topics.contains_key(name),
        v.topics[name].name == name,
        v.topics[name].queue is Some,
        v.topics.contains_key(dl) ==> v.topics[dl].name == dl,
        dl != name,
        seqs.contains(seq),
    ensures
        ({
            let w = v.with_dead_letter(dl, now);
            let x = v.dead_letters_begun(name, dl, seqs, copies, now);
            &&& x.topics[name].recs == v.topics[name].recs
            &&& w.takes_dead_letters(dl, copies) ==> x.topics[name] == v.topics[name]
                && x.topics[dl].recs == w.topics[dl].recs + copies && x.topics[dl].head
                == w.topics[dl].head
            &&& !w.takes_dead_letters(dl, copies) ==> x.topics[name].queue->0.reclaim.contains(seq)
            &&& v.topics.contains_key(dl) ==> w == v
            &&& !v.topics.contains_key(dl) && w.topics.contains_key(dl) ==> w.topics[dl].recs.len()
                == 0 && w.topics[dl].config == (TopicConfig {
                durability: Some(Durability::Disk),
                ..default_config()
            })
        }),
{
    assert(seqs.to_set().contains(seq));
    let w = v.with_dead_letter(dl, now);
    assert(w.topics[name] == v.topics[name]);
    if w.takes_dead_letters(dl, copies) && copies.len() == 0 {
        assert(w.topics[dl].recs + copies =~= w.topics[dl].recs);
    }
}

/// A request that names too many jobs is told how many it named, and how many it may.
pub proof fn too_many_jobs_are_counted(node: Seq<char>, seqs: Seq<u64>)
    requires
        seqs.len() <= u64::MAX,
    ensures
        node.len() > 0 && seqs.len() > 1000 ==> touch_detail(node, seqs) == (ErrorDetail::Batch {
            given: seqs.len() as u64,
            max: 1000,
        }),
        node.len() == 0 || seqs.len() <= 1000 ==> touch_detail(node, seqs) == ErrorDetail::Plain,
{
}

/// A record is the copy of one of the jobs of a list whose record is there.
pub open spec fn is_copy_of_one(
    c: StoredRecord,
    t: TopicView,
    fetched: Seq<Fetched>,
    seqs: Seq<u64>,
    max: u64,
    now: i64,
) -> bool {
    exists|j: int|
        0 <= j < seqs.len() && t.has_live(seqs[j]) && #[trigger] is_copy(
            c,
            t,
            fetched,
            seqs[j],
            max,
            now,
        )
}

/// Every job that is to go to the dead-letter topic and whose record is there has its copy
/// there, and every copy is that of such a job.
pub proof fn every_job_has_its_copy(
    recs: Seq<StoredRecord>,
    t: TopicView,
    fetched: Seq<Fetched>,
    seqs: Seq<u64>,
    max: u64,
    now: i64,
)
    requires
        are_copies(recs, t, fetched, seqs, max, now),
    ensures
        forall|j: int|
            0 <= j < seqs.len() && t.has_live(#[trigger] seqs[j]) ==> exists|i: int|
                0 <= i < recs.len() && is_copy(
                    #[trigger] recs[i],
                    t,
                    fetched,
                    seqs[j],
                    max,
                    now,
                ),
        forall|i: int|
            0 <= i < recs.len() ==> is_copy_of_one(#[trigger] recs[i], t, fetched, seqs, max, now),
        (forall|j: int| 0 <= j < seqs.len() ==> t.has_live(#[trigger] seqs[j])) ==> recs.len()
            == seqs.len() && forall|i: int|
            0 <= i < seqs.len() ==> is_copy(#[trigger] recs[i], t, fetched, seqs[i], max, now),
{
    let live = live_jobs(t, seqs);
    live_jobs_are(t, seqs);
    assert forall|j: int| 0 <= j < seqs.len() && t.has_live(#[trigger] seqs[j]) implies exists|
        i: int,
    |
        0 <= i < recs.len() && is_copy(#[trigger] recs[i], t, fetched, seqs[j], max, now) by {
        let i = choose|i: int| 0 <= i < live.len() && live[i] == seqs[j];
        assert(is_copy(recs[i], t, fetched, live[i], max, now));
    }
    assert forall|i: int| 0 <= i < recs.len() implies is_copy_of_one(
        #[trigger] recs[i],
        t,
        fetched,
        seqs,
        max,
        now,
    ) by {
        assert(seqs.contains(live[i]));
        let j = choose|j: int| 0 <= j < seqs.len() && seqs[j] == live[i];
        assert(is_copy(recs[i], t, fetched, seqs[j], max, now));
    }
    if forall|j: int| 0 <= j < seqs.len() ==> t.has_live(#[trigger] seqs[j]) {
        assert(live == seqs);
    }
}

proof fn live_jobs_are(t: TopicView, seqs: Seq<u64>)
    ensures
        ({
            let live = live_jobs(t, seqs);
            &&& forall|j: int|
                0 <= j < seqs.len() && t.has_live(#[trigger] seqs[j]) ==> live.contains(seqs[j])
            &&& forall|i: int|
                0 <= i < live.len() ==> t.has_live(#[trigger] live[i]) && seqs.contains(live[i])
            &&& (forall|j: int| 0 <= j < seqs.len() ==> t.has_live(#[trigger] seqs[j])) ==> live
                == seqs
        }),
    decreases seqs.len(),
{
    if seqs.len() > 0 {
        let rest = seqs.drop_last();
        let was = live_jobs(t, rest);
        let live = live_jobs(t, seqs);
        live_jobs_are(t, rest);
        assert forall|j: int| 0 <= j < seqs.len() && t.has_live(
            #[trigger] seqs[j],
        ) implies live.contains(seqs[j]) by {
            if j < rest.len() {
                assert(rest[j] == seqs[j]);
                let i = choose|i: int| 0 <= i < was.len() && was[i] == seqs[j];
                assert(live[i] == seqs[j]);
            } else {
                assert(live.last() == seqs[j]);
            }
        }
        assert forall|i: int| 0 <= i < live.len() implies t.has_live(#[trigger] live[i])
            && seqs.contains(live[i]) by {
            if i < was.len() {
                assert(live[i] == was[i]);
                assert(rest.contains(was[i]));
                let j = choose|j: int| 0 <= j < rest.len() && rest[j] == was[i];
                assert(seqs[j] == live[i]);
            } else {
                assert(seqs[seqs.len() - 1] == live[i]);
            }
        }
        if forall|j: int| 0 <= j < seqs.len() ==> t.has_live(#[trigger] seqs[j]) {
            assert forall|j: int| 0 <= j < rest.len() implies t.has_live(#[trigger] rest[j]) by {
                assert(rest[j] == seqs[j]);
            }
            assert(t.has_live(seqs[seqs.len() - 1]));
            assert(live =~= seqs);
        }
    } else {
        assert(live_jobs(t, seqs) =~= seqs);
    }
}

} // verus!
