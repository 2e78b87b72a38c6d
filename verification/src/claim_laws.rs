//! What claiming jobs is for: who gets which job, under which lease, and for how long.
use crate::deal::{cohort_deal, deal, delivered, demand, demand_falls, demands, given_up, jobs_for,
    lease_events, next_job, next_place, turn_from, turn_is_first, wanted, with_dead, with_lease, Claimer, Handed,
    LeasedJob};
use crate::engine::EngineView;
use crate::eviction::sat_add;
use crate::jobs::{are_copies, claim_begun, claim_deadline, filled_job, shows, sole_claim,
    ClaimOutcome, ClaimedJob, Fetched};
use crate::lease_laws::jobs_leave_unless_refused;
use crate::leases::clamped_lease;
use crate::queue::{claims_next, next_job_exists, search_ends, search_left, Lease, QueueView};
use crate::read_laws::the_first_fetched_counts;
use crate::topic_index::StoredRecord;
use crate::topic_state::TopicView;
use crate::types::TopicConfig;
use vstd::prelude::*;

verus! {

/// A claim that names a length gets a lease of that length from now on, one that names none
/// a lease of the length the queue is set to; within a second and twelve hours, and as far
/// as there is time.
pub proof fn a_lease_has_the_length_asked_for(
    lease_ms: Option<u64>,
    config: TopicConfig,
    now: i64,
)
    ensures
        ({
            let ms = if lease_ms is Some {
                lease_ms->0
            } else {
                config.lease_ms
            };
            let end = claim_deadline(lease_ms, config, now);
            &&& 1000 <= ms <= 43200000 && now + ms <= i64::MAX ==> end == now + ms
            &&& ms < 1000 && now + 1000 <= i64::MAX ==> end == now + 1000
            &&& ms > 43200000 && now + 43200000 <= i64::MAX ==> end == now + 43200000
            &&& now + 43200000 > i64::MAX ==> end >= now
        }),
{
}

/// A lease holds up to its deadline and not a moment longer: until then the job is not up
/// for reclaim, and from then on it is.
pub proof fn a_lease_holds_until_its_deadline(q: QueueView, seq: u64, at: i64)
    requires
        q.leases.contains_key(seq),
        !q.reclaim.contains(seq),
    ensures
        at <= q.leases[seq].deadline_ms ==> {
            &&& q.swept(at).leases.contains_key(seq)
            &&& q.swept(at).leases[seq] == q.leases[seq]
            &&& !q.swept(at).reclaim.contains(seq)
        },
        at > q.leases[seq].deadline_ms ==> {
            &&& !q.swept(at).leases.contains_key(seq)
            &&& q.swept(at).reclaim.contains(seq)
        },
{
}

/// A job that waits out a delay comes up when the delay is over, and not before; what comes
/// up stays up.
pub proof fn a_delayed_job_comes_up_in_time(q: QueueView, seq: u64, ready: i64, at: i64)
    requires
        q.delayed.contains((ready, seq)),
        !q.leases.contains_key(seq),
    ensures
        ready <= at ==> q.swept(at).reclaim.contains(seq) && !q.swept(at).delayed.contains(
            (ready, seq),
        ),
        ready > at ==> q.swept(at).delayed.contains((ready, seq)),
        forall|s: u64| q.reclaim.contains(s) ==> #[trigger] q.swept(at).reclaim.contains(s),
        q.swept(at).claim_cursor == q.claim_cursor,
        q.swept(at).deliveries == q.deliveries,
        q.swept(at).next_lease_id == q.next_lease_id,
        q.swept(at).dead_lettered == q.dead_lettered,
{
    assert(q.delayed.count((ready, seq)) > 0);
}

/// The next job to be handed out is the lowest that came back, and else the lowest that was
/// never handed out; it is there and nobody holds it; and there is none exactly where no
/// such job is left. What is passed over on the way cannot be handed out, and is not looked
/// at again.
pub proof fn the_next_job_is_the_lowest(
    q: QueueView,
    live: Set<u64>,
    head: u64,
    r: Option<u64>,
    q2: QueueView,
)
    requires
        claims_next(q, live, head, r, q2),
        head < u64::MAX,
    ensures
        r is Some ==> {
            let s = r->0;
            &&& live.contains(s)
            &&& !q.leases.contains_key(s)
            &&& q.reclaim.contains(s) || q.claim_cursor <= s <= head
            &&& forall|o: u64|
                #![trigger live.contains(o)]
                live.contains(o) && !q.leases.contains_key(o) && q.reclaim.contains(o) ==> s <= o
                    && q.reclaim.contains(s)
            &&& !(q.reclaim.contains(s)) ==> forall|o: u64|
                #![trigger live.contains(o)]
                live.contains(o) && !q.leases.contains_key(o) && q.claim_cursor <= o <= head ==> s
                    <= o
        },
        r is None ==> forall|o: u64|
            #![trigger live.contains(o)]
            live.contains(o) && !q.leases.contains_key(o) ==> !q.reclaim.contains(o) && !(
            q.claim_cursor <= o <= head),
        q2.leases == q.leases,
        q2.deliveries == q.deliveries,
        q2.delayed == q.delayed,
        q2.next_lease_id == q.next_lease_id,
        q2.dead_lettered == q.dead_lettered,
        q2.claim_cursor >= q.claim_cursor,
        r is Some && q.reclaim.contains(r->0) && r->0 < q.claim_cursor ==> {
            &&& forall|o: u64| o <= r->0 ==> !#[trigger] q2.reclaim.contains(o)
            &&& forall|o: u64|
                o > r->0 ==> (#[trigger] q2.reclaim.contains(o) <==> q.reclaim.contains(o))
            &&& q2.claim_cursor == q.claim_cursor
        },
        r is Some && !q.reclaim.contains(r->0) ==> q2.claim_cursor == r->0 + 1 && forall|o: u64|
            !#[trigger] q2.reclaim.contains(o),
        r is None ==> q2.claim_cursor > head && forall|o: u64| !#[trigger] q2.reclaim.contains(o),
        forall|o: u64|
            #![trigger live.contains(o)]
            live.contains(o) && !q.leases.contains_key(o) && Some(o) != r && (q.reclaim.contains(o)
                || q.claim_cursor <= o <= head) ==> q2.reclaim.contains(o) || q2.claim_cursor <= o
                <= head,
{
    assert forall|o: u64| live.contains(o) && !q.leases.contains_key(o) && q.reclaim.contains(
        o,
    ) implies crate::queue::returned(q, live, o) by {}
    assert forall|o: u64| live.contains(o) && !q.leases.contains_key(o) && q.claim_cursor <= o
        <= head implies crate::queue::untouched(q, live, head, o) by {}
    assert forall|o: u64|
        #![trigger live.contains(o)]
        live.contains(o) && !q.leases.contains_key(o) && Some(o) != r && (q.reclaim.contains(o)
            || q.claim_cursor <= o <= head) implies q2.reclaim.contains(o) || q2.claim_cursor <= o
        <= head by {
        if q.reclaim.contains(o) {
            assert(crate::queue::returned(q, live, o));
        } else {
            assert(crate::queue::untouched(q, live, head, o));
        }
    }
    assert forall|o: u64|
        #![trigger live.contains(o)]
        r is Some && live.contains(o) && !q.leases.contains_key(o) && q.reclaim.contains(
            o,
        ) implies r->0 <= o && q.reclaim.contains(r->0) by {
        assert(crate::queue::returned(q, live, o));
    }
    assert forall|o: u64|
        #![trigger live.contains(o)]
        r is Some && !q.reclaim.contains(r->0) && live.contains(o) && !q.leases.contains_key(o)
            && q.claim_cursor <= o <= head implies r->0 <= o by {
        assert(crate::queue::untouched(q, live, head, o));
    }
    assert forall|o: u64|
        #![trigger live.contains(o)]
        r is None && live.contains(o) && !q.leases.contains_key(o) implies !q.reclaim.contains(o)
        && !(q.claim_cursor <= o <= head) by {
        if q.reclaim.contains(o) {
            assert(crate::queue::returned(q, live, o));
        }
        if q.claim_cursor <= o <= head {
            assert(crate::queue::untouched(q, live, head, o));
        }
    }
}

/// Jobs that came back were handed out before.
pub open spec fn came_back(q: QueueView) -> bool {
    forall|s: u64| #[trigger] q.reclaim.contains(s) ==> s < q.claim_cursor
}

/// What is known of a job that somebody holds when others are dealt out.
proof fn held_job_stays(
    q: QueueView,
    live: Set<u64>,
    head: u64,
    claimers: Seq<Claimer>,
    remaining: Seq<u32>,
    rr: int,
    deadline: i64,
    max: u64,
    divert: bool,
    held: u64,
)
    requires
        q.reclaim.finite(),
        head < u64::MAX,
        q.leases.contains_key(held),
    ensures
        ({
            let d = deal(q, live, head, claimers, remaining, rr, deadline, max, divert);
            &&& d.queue.leases.contains_key(held)
            &&& d.queue.leases[held] == q.leases[held]
            &&& d.queue.deliveries.contains_key(held) == q.deliveries.contains_key(held)
            &&& d.queue.deliveries[held] == q.deliveries[held]
            &&& forall|i: int| 0 <= i < d.handed.len() ==> (#[trigger] d.handed[i]).seq != held
            &&& forall|i: int| 0 <= i < d.dead.len() ==> #[trigger] d.dead[i] != held
        }),
    decreases search_left(q, head),
{
    if wanted(remaining) {
        let e = next_job_exists(q, live, head);
        assert(claims_next(q, live, head, e.0, e.1));
        let (job, q1) = next_job(q, live, head);
        assert(claims_next(q, live, head, job, q1));
        the_next_job_is_the_lowest(q, live, head, job, q1);
        let c = turn_from(remaining, rr, remaining.len());
        if job is Some {
            let seq = job->0;
            search_ends(q, live, head, seq, q1);
            let m = sat_add(delivered(q1, seq), 1);
            if given_up(m, max, divert) {
                let q2 = with_dead(q1, seq);
                held_job_stays(
                    q2,
                    live,
                    head,
                    claimers,
                    remaining,
                    c,
                    deadline,
                    max,
                    divert,
                    held,
                );
                let rest = deal(q2, live, head, claimers, remaining, c, deadline, max, divert);
                let d = deal(q, live, head, claimers, remaining, rr, deadline, max, divert);
                assert(d.dead == seq![seq] + rest.dead);
                assert forall|i: int| 0 <= i < d.dead.len() implies #[trigger] d.dead[i] != held by {
                    if i > 0 {
                        assert(d.dead[i] == rest.dead[i - 1]);
                    }
                }
            } else {
                let lease = Lease {
                    node: claimers[c].node,
                    lease_id: q1.next_lease_id,
                    deadline_ms: deadline,
                    by_work_conn: claimers[c].work_conn,
                };
                let q2 = with_lease(q1, seq, lease, m);
                let rem2 = remaining.update(c, (remaining[c] - 1) as u32);
                let rr2 = next_place(remaining.len(), c);
                held_job_stays(q2, live, head, claimers, rem2, rr2, deadline, max, divert, held);
                let rest = deal(q2, live, head, claimers, rem2, rr2, deadline, max, divert);
                let d = deal(q, live, head, claimers, remaining, rr, deadline, max, divert);
                let h = Handed { claimer: c, seq, lease_id: q1.next_lease_id, deliveries: m };
                assert(d.handed == seq![h] + rest.handed);
                assert forall|i: int| 0 <= i < d.handed.len() implies (#[trigger] d.handed[i]).seq
                    != held by {
                    if i > 0 {
                        assert(d.handed[i] == rest.handed[i - 1]);
                    }
                }
            }
        }
    }
}

/// What is known of the `i`-th job that is dealt out: it is there, it came back or was
/// never handed out, and nobody held it; it is handed out once more than before, and no
/// more often than the queue allows; and its claimer holds it, under a fresh lease, up to
/// the deadline.
pub open spec fn handed_right(
    q: QueueView,
    live: Set<u64>,
    head: u64,
    claimers: Seq<Claimer>,
    deadline: i64,
    limit: Option<u64>,
    h: Handed,
    i: int,
    q2: QueueView,
) -> bool {
    &&& 0 <= h.claimer < claimers.len()
    &&& live.contains(h.seq)
    &&& q.reclaim.contains(h.seq) || q.claim_cursor <= h.seq <= head
    &&& !q.leases.contains_key(h.seq)
    &&& h.lease_id == q.next_lease_id + i
    &&& !q.deliveries.contains_key(h.seq) ==> h.deliveries == 1
    &&& q.deliveries.contains_key(h.seq) && q.deliveries[h.seq] < u64::MAX ==> h.deliveries
        == q.deliveries[h.seq] + 1
    &&& limit is Some ==> h.deliveries <= limit->0
    &&& q2.leases.contains_key(h.seq)
    &&& q2.leases[h.seq].node == claimers[h.claimer].node
    &&& q2.leases[h.seq].lease_id == h.lease_id
    &&& q2.leases[h.seq].deadline_ms == deadline
    &&& q2.leases[h.seq].by_work_conn == claimers[h.claimer].work_conn
    &&& q2.deliveries.contains_key(h.seq)
    &&& q2.deliveries[h.seq] == h.deliveries
}

/// What is known of a job that is given up: it could have been handed out, and was handed
/// out as often as the queue allows.
pub open spec fn dead_right(
    q: QueueView,
    live: Set<u64>,
    head: u64,
    limit: Option<u64>,
    s: u64,
) -> bool {
    &&& live.contains(s)
    &&& q.reclaim.contains(s) || q.claim_cursor <= s <= head
    &&& !q.leases.contains_key(s)
    &&& limit is Some
    &&& q.deliveries.contains_key(s) && q.deliveries[s] >= limit->0
}

/// What is known of every job that is dealt out or given up.
pub open spec fn dealt_right(
    q: QueueView,
    live: Set<u64>,
    head: u64,
    claimers: Seq<Claimer>,
    deadline: i64,
    limit: Option<u64>,
    handed: Seq<Handed>,
    dead: Seq<u64>,
    q2: QueueView,
) -> bool {
    &&& forall|i: int|
        0 <= i < handed.len() ==> handed_right(
            q,
            live,
            head,
            claimers,
            deadline,
            limit,
            #[trigger] handed[i],
            i,
            q2,
        )
    &&& forall|i: int|
        0 <= i < dead.len() ==> dead_right(q, live, head, limit, #[trigger] dead[i])
    &&& forall|s: u64| #[trigger]
        q2.leases.contains_key(s) ==> q.leases.contains_key(s) || exists|i: int|
            0 <= i < handed.len() && (#[trigger] handed[i]).seq == s
    &&& q2.next_lease_id == q.next_lease_id + handed.len()
    &&& q.dead_lettered + dead.len() <= u64::MAX ==> q2.dead_lettered == q.dead_lettered + dead.len()
    &&& q2.delayed == q.delayed
}

/// How often a job may be handed out, where there is a place for those handed out too
/// often.
pub open spec fn delivery_limit(max: u64, divert: bool) -> Option<u64> {
    if max > 0 && divert {
        Some(max)
    } else {
        None
    }
}

proof fn dealing_is_right(
    q: QueueView,
    live: Set<u64>,
    head: u64,
    claimers: Seq<Claimer>,
    remaining: Seq<u32>,
    rr: int,
    deadline: i64,
    max: u64,
    divert: bool,
)
    requires
        q.reclaim.finite(),
        came_back(q),
        head < u64::MAX,
        remaining.len() == claimers.len(),
        0 <= rr < remaining.len(),
        q.next_lease_id + demand(remaining) <= u64::MAX,
    ensures
        ({
            let d = deal(q, live, head, claimers, remaining, rr, deadline, max, divert);
            &&& dealt_right(
                q,
                live,
                head,
                claimers,
                deadline,
                delivery_limit(max, divert),
                d.handed,
                d.dead,
                d.queue,
            )
            &&& d.handed.len() <= demand(remaining)
            &&& d.handed.len() < demand(remaining) ==> forall|s: u64|
                #![trigger live.contains(s)]
                live.contains(s) && !d.queue.leases.contains_key(s) ==> !d.queue.reclaim.contains(
                    s,
                ) && !(d.queue.claim_cursor <= s <= head)
        }),
    decreases search_left(q, head),
{
    let d = deal(q, live, head, claimers, remaining, rr, deadline, max, divert);
    if !wanted(remaining) {
        nothing_wanted(remaining);
    } else {
        let x = choose|x: int| 0 <= x < remaining.len() && #[trigger] remaining[x] > 0;
        turn_is_first(remaining, rr, remaining.len(), x);
        let e = next_job_exists(q, live, head);
        assert(claims_next(q, live, head, e.0, e.1));
        let (job, q1) = next_job(q, live, head);
        assert(claims_next(q, live, head, job, q1));
        the_next_job_is_the_lowest(q, live, head, job, q1);
        let c = turn_from(remaining, rr, remaining.len());
        if job is Some {
            let seq = job->0;
            search_ends(q, live, head, seq, q1);
            let m = sat_add(delivered(q1, seq), 1);
            if given_up(m, max, divert) {
                let q2 = with_dead(q1, seq);
                assert(came_back(q2));
                dealing_is_right(
                    q2,
                    live,
                    head,
                    claimers,
                    remaining,
                    c,
                    deadline,
                    max,
                    divert,
                );
                let rest = deal(q2, live, head, claimers, remaining, c, deadline, max, divert);
                assert(d.dead == seq![seq] + rest.dead);
                assert(d.handed == rest.handed);
                let limit = delivery_limit(max, divert);
                assert forall|i: int| 0 <= i < d.dead.len() implies dead_right(
                    q,
                    live,
                    head,
                    limit,
                    #[trigger] d.dead[i],
                ) by {
                    if i > 0 {
                        assert(d.dead[i] == rest.dead[i - 1]);
                        assert(dead_right(q2, live, head, limit, rest.dead[i - 1]));
                    }
                }
                assert forall|i: int| 0 <= i < d.handed.len() implies handed_right(
                    q,
                    live,
                    head,
                    claimers,
                    deadline,
                    limit,
                    #[trigger] d.handed[i],
                    i,
                    d.queue,
                ) by {
                    assert(handed_right(
                        q2,
                        live,
                        head,
                        claimers,
                        deadline,
                        limit,
                        rest.handed[i],
                        i,
                        rest.queue,
                    ));
                    assert(d.handed[i].seq != seq);
                }
            } else {
                demand_falls(remaining, c);
                let lease = Lease {
                    node: claimers[c].node,
                    lease_id: q1.next_lease_id,
                    deadline_ms: deadline,
                    by_work_conn: claimers[c].work_conn,
                };
                let q2 = with_lease(q1, seq, lease, m);
                let rem2 = remaining.update(c, (remaining[c] - 1) as u32);
                let rr2 = next_place(remaining.len(), c);
                assert(came_back(q2));
                dealing_is_right(q2, live, head, claimers, rem2, rr2, deadline, max, divert);
                held_job_stays(q2, live, head, claimers, rem2, rr2, deadline, max, divert, seq);
                let rest = deal(q2, live, head, claimers, rem2, rr2, deadline, max, divert);
                let h = Handed { claimer: c, seq, lease_id: q1.next_lease_id, deliveries: m };
                assert(d.handed == seq![h] + rest.handed);
                assert(d.handed[0] == h);
                one_more_is_dealt(
                    q,
                    q2,
                    live,
                    head,
                    claimers,
                    deadline,
                    delivery_limit(max, divert),
                    h,
                    rest.handed,
                    rest.dead,
                    rest.queue,
                );
            }
        }
    }
}

proof fn nothing_wanted(remaining: Seq<u32>)
    requires
        !wanted(remaining),
    ensures
        demand(remaining) == 0,
    decreases remaining.len(),
{
    if remaining.len() > 0 {
        let r = remaining.drop_last();
        assert(!wanted(r)) by {
            if wanted(r) {
                let i = choose|i: int| 0 <= i < r.len() && #[trigger] r[i] > 0;
                assert(remaining[i] > 0);
            }
        }
        nothing_wanted(r);
        assert(remaining[remaining.len() - 1] == 0);
    }
}

proof fn one_more_is_dealt(
    q: QueueView,
    q2: QueueView,
    live: Set<u64>,
    head: u64,
    claimers: Seq<Claimer>,
    deadline: i64,
    limit: Option<u64>,
    h: Handed,
    handed: Seq<Handed>,
    dead: Seq<u64>,
    q3: QueueView,
)
    requires
        came_back(q),
        came_back(q2),
        dealt_right(q2, live, head, claimers, deadline, limit, handed, dead, q3),
        0 <= h.claimer < claimers.len(),
        live.contains(h.seq),
        q.reclaim.contains(h.seq) || q.claim_cursor <= h.seq <= head,
        !q.leases.contains_key(h.seq),
        h.lease_id == q.next_lease_id,
        h.deliveries == sat_add(delivered(q, h.seq), 1),
        limit is Some ==> h.deliveries <= limit->0,
        q.next_lease_id < u64::MAX,
        q2.leases == q.leases.insert(
            h.seq,
            Lease {
                node: claimers[h.claimer].node,
                lease_id: h.lease_id,
                deadline_ms: deadline,
                by_work_conn: claimers[h.claimer].work_conn,
            },
        ),
        q2.deliveries == q.deliveries.insert(h.seq, h.deliveries),
        q2.next_lease_id == q.next_lease_id + 1,
        q2.dead_lettered == q.dead_lettered,
        q2.delayed == q.delayed,
        q2.claim_cursor >= q.claim_cursor,
        forall|s: u64| #[trigger] q2.reclaim.contains(s) ==> q.reclaim.contains(s),
        q3.leases.contains_key(h.seq),
        q3.leases[h.seq] == q2.leases[h.seq],
        q3.deliveries.contains_key(h.seq),
        q3.deliveries[h.seq] == q2.deliveries[h.seq],
    ensures
        dealt_right(
            q,
            live,
            head,
            claimers,
            deadline,
            limit,
            seq![h] + handed,
            dead,
            q3,
        ),
{
    let all = seq![h] + handed;
    assert(all[0] == h);
    assert forall|i: int| 0 < i < all.len() implies #[trigger] all[i] == handed[i - 1] by {}
    assert forall|s: u64| #[trigger] q3.leases.contains_key(s) implies q.leases.contains_key(s)
        || exists|i: int| 0 <= i < all.len() && (#[trigger] all[i]).seq == s by {
        if s == h.seq {
            assert(all[0].seq == s);
        } else if !q.leases.contains_key(s) {
            let i = choose|i: int| 0 <= i < handed.len() && (#[trigger] handed[i]).seq == s;
            assert(all[i + 1].seq == s);
        }
    }
    assert forall|i: int| 0 <= i < dead.len() implies dead_right(
        q,
        live,
        head,
        limit,
        #[trigger] dead[i],
    ) by {
        assert(dead_right(q2, live, head, limit, dead[i]));
        assert(dead[i] != h.seq);
    }
    assert forall|i: int| 0 <= i < all.len() implies handed_right(
        q,
        live,
        head,
        claimers,
        deadline,
        limit,
        #[trigger] all[i],
        i,
        q3,
    ) by {
        if i > 0 {
            assert(handed_right(
                q2,
                live,
                head,
                claimers,
                deadline,
                limit,
                handed[i - 1],
                i - 1,
                q3,
            ));
        }
    }
}

/// A claim deals jobs out rightly: each job that is handed out is there, was held by
/// nobody, came back or was never handed out, and is now held by its claimer under a lease
/// of its own up to the deadline; jobs that were handed out as often as the queue allows
/// are given up, where there is a place for them, and no others; and as long as somebody
/// wants more, no job that could be handed out is left.
pub proof fn a_claim_deals_rightly(t: TopicView, claimers: Seq<Claimer>, deadline: i64)
    requires
        t.ok(),
        t.queue is Some,
        t.queue->0.reclaim.finite(),
        came_back(t.queue->0),
        claimers.len() > 0,
        t.queue->0.next_lease_id + demand(demands(claimers)) <= u64::MAX,
    ensures
        ({
            let q = t.queue->0;
            let d = cohort_deal(t, claimers, deadline);
            let limit = if t.config.max_deliveries > 0 && t.config.dead_letter is Some {
                Some(t.config.max_deliveries)
            } else {
                None
            };
            &&& dealt_right(
                q,
                t.live_set(),
                t.head,
                claimers,
                deadline,
                limit,
                d.handed,
                d.dead,
                d.queue,
            )
            &&& forall|i: int|
                0 <= i < d.handed.len() ==> t.has_live((#[trigger] d.handed[i]).seq)
            &&& d.handed.len() <= demand(demands(claimers))
            &&& d.handed.len() < demand(demands(claimers)) ==> forall|s: u64| #[trigger]
                t.has_live(s) && !d.queue.leases.contains_key(s) ==> !d.queue.reclaim.contains(s)
                    && !(d.queue.claim_cursor <= s <= t.head)
        }),
{
    dealing_is_right(
        t.queue->0,
        t.live_set(),
        t.head,
        claimers,
        demands(claimers),
        0,
        deadline,
        t.config.max_deliveries,
        t.config.dead_letter is Some,
    );
    let d = cohort_deal(t, claimers, deadline);
    assert forall|i: int| 0 <= i < d.handed.len() implies t.has_live(
        (#[trigger] d.handed[i]).seq,
    ) by {
        assert(t.live_set().contains(d.handed[i].seq));
    }
    assert forall|s: u64| #[trigger] t.has_live(s) implies t.live_set().contains(s) by {}
}

/// Nobody asks for less than one job or more than a thousand, and within that for what was
/// asked for.
pub proof fn a_claimer_asks_for_up_to_a_thousand(claimers: Seq<Claimer>, c: int)
    requires
        0 <= c < claimers.len(),
    ensures
        demands(claimers).len() == claimers.len(),
        claimers[c].max == 0 ==> demands(claimers)[c] == 1,
        1 <= claimers[c].max <= 1000 ==> demands(claimers)[c] == claimers[c].max,
        claimers[c].max > 1000 ==> demands(claimers)[c] == 1000,
{
}

/// A claimer gets the jobs that were dealt to it, in order and no others: each with the
/// time, the tag, the data and the meta of its record, with its lease, its deadline, and
/// how often it was handed out.
pub proof fn a_claimer_gets_what_was_dealt_to_it(
    t: TopicView,
    handed: Seq<Handed>,
    c: int,
    deadline: i64,
    k: int,
)
    requires
        0 <= k < jobs_for(t, handed, c, deadline).len(),
    ensures
        exists|i: int|
            {
                let j = jobs_for(t, handed, c, deadline)[k];
                &&& 0 <= i < handed.len()
                &&& (#[trigger] handed[i]).claimer == c
                &&& j.seq == handed[i].seq
                &&& j.lease_id == handed[i].lease_id
                &&& j.deliveries == handed[i].deliveries
                &&& j.deadline == deadline
                &&& j.ts == t.rec(handed[i].seq).ts
                &&& j.tag == t.rec(handed[i].seq).tag
                &&& j.data == t.rec(handed[i].seq).data
                &&& j.meta == t.rec(handed[i].seq).meta
            },
    decreases handed.len(),
{
    let all = jobs_for(t, handed, c, deadline);
    if handed.len() > 0 {
        let p = handed.drop_last();
        let earlier = jobs_for(t, p, c, deadline);
        if k < earlier.len() {
            a_claimer_gets_what_was_dealt_to_it(t, p, c, deadline, k);
            let i = choose|i: int|
                {
                    let j = jobs_for(t, p, c, deadline)[k];
                    &&& 0 <= i < p.len()
                    &&& (#[trigger] p[i]).claimer == c
                    &&& j.seq == p[i].seq
                    &&& j.lease_id == p[i].lease_id
                    &&& j.deliveries == p[i].deliveries
                    &&& j.deadline == deadline
                    &&& j.ts == t.rec(p[i].seq).ts
                    &&& j.tag == t.rec(p[i].seq).tag
                    &&& j.data == t.rec(p[i].seq).data
                    &&& j.meta == t.rec(p[i].seq).meta
                };
            assert(handed[i] == p[i]);
            assert(all[k] == earlier[k]);
        } else {
            assert(handed[handed.len() - 1].claimer == c);
        }
    }
}

/// What is dealt to a claimer is what it gets, one after the other.
pub proof fn jobs_are_dealt_one_by_one(
    t: TopicView,
    handed: Seq<Handed>,
    h: Handed,
    c: int,
    deadline: i64,
)
    ensures
        jobs_for(t, Seq::<Handed>::empty(), c, deadline).len() == 0,
        h.claimer != c ==> jobs_for(t, handed.push(h), c, deadline) == jobs_for(
            t,
            handed,
            c,
            deadline,
        ),
        h.claimer == c ==> {
            let all = jobs_for(t, handed.push(h), c, deadline);
            &&& all.len() == jobs_for(t, handed, c, deadline).len() + 1
            &&& all.drop_last() == jobs_for(t, handed, c, deadline)
            &&& all.last().seq == h.seq
        },
{
    assert(handed.push(h).drop_last() =~= handed);
    let all = jobs_for(t, handed.push(h), c, deadline);
    if h.claimer == c {
        assert(all.drop_last() =~= jobs_for(t, handed, c, deadline));
    }
}

/// Every job of a claim that names no length is handed out for as long as the queue is set
/// to, from now on; and of one that names a length within the limits, for that length.
pub proof fn every_job_has_its_deadline(
    t: TopicView,
    claimers: Seq<Claimer>,
    lease_ms: Option<u64>,
    now: i64,
    c: int,
    k: int,
)
    requires
        ({
            let deadline = claim_deadline(lease_ms, t.config, now);
            0 <= k < jobs_for(t, cohort_deal(t, claimers, deadline).handed, c, deadline).len()
        }),
        ({
            let ms = if lease_ms is Some {
                lease_ms->0
            } else {
                t.config.lease_ms
            };
            1000 <= ms <= 43200000 && now + ms <= i64::MAX
        }),
    ensures
        ({
            let deadline = claim_deadline(lease_ms, t.config, now);
            let j = jobs_for(t, cohort_deal(t, claimers, deadline).handed, c, deadline)[k];
            &&& lease_ms is None ==> j.deadline == now + t.config.lease_ms
            &&& lease_ms is Some ==> j.deadline == now + lease_ms->0
        }),
{
    let deadline = claim_deadline(lease_ms, t.config, now);
    a_lease_has_the_length_asked_for(lease_ms, t.config, now);
    a_claimer_gets_what_was_dealt_to_it(
        t,
        cohort_deal(t, claimers, deadline).handed,
        c,
        deadline,
        k,
    );
}

/// A client sees a job as it was handed out.
pub proof fn a_job_is_shown_as_handed_out(c: ClaimedJob, j: LeasedJob)
    requires
        shows(c, j),
    ensures
        c.seq == j.seq,
        c.deadline == j.deadline,
        c.ts == j.ts,
        c.tag == j.tag,
        c.deliveries == j.deliveries,
        c.data == j.data,
        c.meta == j.meta,
        c.lease_id@.len() > 6,
        c.lease_id@.take(6) == "lease_"@,
{
    reveal_strlit("lease_");
    assert(c.lease_id@.take(6) =~= "lease_"@);
    hexadecimal_is_not_empty(j.lease_id as nat);
}

proof fn hexadecimal_is_not_empty(n: nat)
    ensures
        crate::jobs::hexadecimal(n).len() > 0,
    decreases n,
{
    if n >= 16 {
        hexadecimal_is_not_empty(n / 16);
    }
}

/// The number that a hexadecimal digit stands for.
pub open spec fn digit_value(c: char) -> nat {
    if '0' <= c <= '9' {
        (c as nat - '0' as nat) as nat
    } else {
        (c as nat - 'a' as nat + 10) as nat
    }
}

/// The number that hexadecimal digits stand for.
pub open spec fn hex_value(s: Seq<char>) -> nat
    decreases s.len(),
{
    if s.len() == 0 {
        0
    } else {
        16 * hex_value(s.drop_last()) + digit_value(s.last())
    }
}

/// A token says which lease it stands for: its digits spell the number of the lease, so
/// that different leases have different tokens.
pub proof fn a_token_spells_its_lease(lease_id: u64)
    ensures
        crate::jobs::lease_token(lease_id).take(6) == "lease_"@,
        hex_value(crate::jobs::lease_token(lease_id).skip(6)) == lease_id,
{
    let n = lease_id as nat;
    reveal_strlit("lease_");
    assert(crate::jobs::lease_token(lease_id).take(6) =~= "lease_"@);
    assert(crate::jobs::lease_token(lease_id).skip(6) =~= crate::jobs::hexadecimal(n));
    digits_spell_the_number(n);
}

proof fn digits_spell_the_number(n: nat)
    ensures
        hex_value(crate::jobs::hexadecimal(n)) == n,
    decreases n,
{
    let s = crate::jobs::hexadecimal(n);
    if n < 16 {
        assert(s.drop_last() =~= Seq::<char>::empty());
        assert(hex_value(s.drop_last()) == 0);
    } else {
        digits_spell_the_number(n / 16);
        assert(s.drop_last() =~= crate::jobs::hexadecimal(n / 16));
    }
}

/// A job whose payload lives in a segment gets what was fetched for it, and `null` where
/// nothing was; one whose payload is at hand keeps it; and all else stays.
pub proof fn a_fetched_payload_completes_a_job(a: LeasedJob, b: LeasedJob, fetched: Seq<Fetched>)
    requires
        filled_job(a, b, fetched),
    ensures
        b.seq == a.seq,
        b.lease_id == a.lease_id,
        b.deadline == a.deadline,
        b.ts == a.ts,
        b.tag == a.tag,
        b.deliveries == a.deliveries,
        a.data is Some ==> b.data == a.data && b.meta == a.meta,
        a.data is None && (forall|k: int|
            0 <= k < fetched.len() ==> (#[trigger] fetched[k]).0 != a.seq) ==> b.data is Some
            && b.data->0.is_null(),
        a.data is None && (exists|k: int|
            0 <= k < fetched.len() && (#[trigger] fetched[k]).0 == a.seq) ==> exists|k: int|
            {
                &&& 0 <= k < fetched.len()
                &&& (#[trigger] fetched[k]).0 == a.seq
                &&& b.data == Some(fetched[k].1)
                &&& b.meta == fetched[k].2
            },
{
    the_first_fetched_counts(fetched, a.seq);
}

/// The limits of a lease: a second, and twelve hours.
pub proof fn a_lease_has_its_limits(ms: u64)
    ensures
        ms < 1000 ==> clamped_lease(ms) == 1000,
        1000 <= ms <= 43200000 ==> clamped_lease(ms) == ms,
        ms > 43200000 ==> clamped_lease(ms) == 43200000,
{
}

/// A queue from which jobs are claimed has let retention take what it may, and has taken
/// back the jobs whose lease has run out and those whose delay is over.
pub proof fn what_is_claimed_from(t: TopicView, now: i64, seq: u64)
    requires
        t.queue is Some,
        t.ok(),
    ensures
        ({
            let u = t.claimed_from(now);
            &&& u == (TopicView { queue: u.queue, ..t.retained(now) })
            &&& u.queue is Some
            &&& t.queue->0.leases.contains_key(seq) && t.queue->0.leases[seq].deadline_ms < now
                ==> !u.queue->0.leases.contains_key(seq) && u.queue->0.reclaim.contains(seq)
            &&& t.queue->0.leases.contains_key(seq) && t.queue->0.leases[seq].deadline_ms >= now
                ==> u.queue->0.leases.contains_key(seq) && u.queue->0.leases[seq]
                == t.queue->0.leases[seq]
            &&& t.queue->0.reclaim.contains(seq) ==> u.queue->0.reclaim.contains(seq)
        }),
{
}

/// A claim hands each claimer jobs of the queue, and makes it their holder: the job is that
/// of the record with its number, and its lease runs for the time asked for, or else for the
/// time the queue is set to.
pub proof fn what_a_claim_hands_out(
    v: EngineView,
    name: Seq<char>,
    claimers: Seq<Claimer>,
    lease_ms: Option<u64>,
    now: i64,
    r: ClaimOutcome,
    v2: EngineView,
    c: int,
    k: int,
)
    requires
        v.topics.contains_key(name),
        v.topics[name].name == name,
        v.topics[name].ok(),
        v.topics[name].queue is Some,
        claim_begun(v, name, claimers, lease_ms, now, r, v2),
        v.topics[name].claimed_from(now).queue->0.reclaim.finite(),
        came_back(v.topics[name].claimed_from(now).queue->0),
        v.topics[name].queue->0.next_lease_id + demand(demands(claimers)) <= u64::MAX,
        ({
            let ms = if lease_ms is Some {
                lease_ms->0
            } else {
                v.topics[name].config.lease_ms
            };
            1000 <= ms <= 43200000 && now + ms <= i64::MAX
        }),
        0 <= c < claimers.len(),
        0 <= k < r.jobs@[c]@.len(),
    ensures
        ({
            let t = v.topics[name].retained(now);
            let q = v.topics[name].queue->0;
            let j = r.jobs@[c]@[k];
            let l = v2.topics[name].queue->0.leases[j.seq];
            let ms = if lease_ms is Some {
                lease_ms->0
            } else {
                v.topics[name].config.lease_ms
            };
            &&& t.has_live(j.seq)
            &&& q.leases.contains_key(j.seq) ==> q.leases[j.seq].deadline_ms < now
            &&& j.ts == t.rec(j.seq).ts
            &&& j.tag == t.rec(j.seq).tag
            &&& j.data == t.rec(j.seq).data
            &&& j.meta == t.rec(j.seq).meta
            &&& j.deadline == now + ms
            &&& v2.topics[name].queue->0.leases.contains_key(j.seq)
            &&& l.node == claimers[c].node
            &&& l.lease_id == j.lease_id
            &&& l.deadline_ms == now + ms
            &&& l.by_work_conn == claimers[c].work_conn
            &&& j.lease_id >= q.next_lease_id
            &&& !q.deliveries.contains_key(j.seq) ==> j.deliveries == 1
            &&& q.deliveries.contains_key(j.seq) && q.deliveries[j.seq] < u64::MAX
                ==> j.deliveries == q.deliveries[j.seq] + 1
        }),
        forall|n: Seq<char>|
            n != name ==> (#[trigger] v2.topics.contains_key(n) <==> v.topics.contains_key(n))
                && v2.topics[n] == v.topics[n],
        v2.routers == v.routers,
        v2.total == v.total,
{
    let t0 = v.topics[name];
    crate::topic_laws::retention_keeps(t0, now);
    let t = t0.claimed_from(now);
    let deadline = claim_deadline(lease_ms, t.config, now);
    let d = cohort_deal(t, claimers, deadline);
    a_lease_has_the_length_asked_for(lease_ms, t.config, now);
    assert(r.jobs@[c]@ == jobs_for(t, d.handed, c, deadline));
    a_claimer_gets_what_was_dealt_to_it(t, d.handed, c, deadline, k);
    assert(t.ok());
    a_claim_deals_rightly(t, claimers, deadline);
    let j = r.jobs@[c]@[k];
    let i = choose|i: int|
        {
            &&& 0 <= i < d.handed.len()
            &&& (#[trigger] d.handed[i]).claimer == c
            &&& j.seq == d.handed[i].seq
            &&& j.lease_id == d.handed[i].lease_id
            &&& j.deliveries == d.handed[i].deliveries
            &&& j.deadline == deadline
            &&& j.ts == t.rec(d.handed[i].seq).ts
            &&& j.tag == t.rec(d.handed[i].seq).tag
            &&& j.data == t.rec(d.handed[i].seq).data
            &&& j.meta == t.rec(d.handed[i].seq).meta
        };
    let limit = if t.config.max_deliveries > 0 && t.config.dead_letter is Some {
        Some(t.config.max_deliveries)
    } else {
        None
    };
    assert(handed_right(
        t.queue->0,
        t.live_set(),
        t.head,
        claimers,
        deadline,
        limit,
        d.handed[i],
        i,
        d.queue,
    ));
    assert(t.has_live(d.handed[i].seq));
    what_is_claimed_from(t0, now, j.seq);
}

/// What a claim gives up are jobs that are there and that were handed out as often as they may
/// be; each is named, and counted.
pub proof fn what_a_claim_gives_up(
    v: EngineView,
    name: Seq<char>,
    claimers: Seq<Claimer>,
    lease_ms: Option<u64>,
    now: i64,
    r: ClaimOutcome,
    v2: EngineView,
)
    requires
        v.topics.contains_key(name),
        v.topics[name].name == name,
        v.topics[name].ok(),
        v.topics[name].queue is Some,
        claimers.len() > 0,
        claim_begun(v, name, claimers, lease_ms, now, r, v2),
        v.topics[name].claimed_from(now).queue->0.reclaim.finite(),
        came_back(v.topics[name].claimed_from(now).queue->0),
        v.topics[name].queue->0.next_lease_id + demand(demands(claimers)) <= u64::MAX,
    ensures
        ({
            let t = v.topics[name].retained(now);
            let q = v.topics[name].queue->0;
            &&& q.dead_lettered + r.dead@.len() <= u64::MAX
                ==> v2.topics[name].queue->0.dead_lettered == q.dead_lettered + r.dead@.len()
            &&& forall|i: int|
                0 <= i < r.dead@.len() ==> {
                    let s = #[trigger] r.dead@[i];
                    &&& t.has_live(s)
                    &&& t.config.max_deliveries > 0 && t.config.dead_letter is Some
                    &&& q.deliveries.contains_key(s) && q.deliveries[s] >= t.config.max_deliveries
                    &&& q.leases.contains_key(s) ==> q.leases[s].deadline_ms < now
                }
            &&& t.config.max_deliveries == 0 || t.config.dead_letter is None ==> r.dead@.len() == 0
        }),
{
    let t0 = v.topics[name];
    crate::topic_laws::retention_keeps(t0, now);
    let t = t0.claimed_from(now);
    let deadline = claim_deadline(lease_ms, t.config, now);
    let d = cohort_deal(t, claimers, deadline);
    assert(t.ok());
    a_claim_deals_rightly(t, claimers, deadline);
    let limit = if t.config.max_deliveries > 0 && t.config.dead_letter is Some {
        Some(t.config.max_deliveries)
    } else {
        None
    };
    assert forall|i: int| 0 <= i < d.dead.len() implies dead_right(
        t.queue->0,
        t.live_set(),
        t.head,
        limit,
        #[trigger] d.dead[i],
    ) by {}
    assert forall|i: int| 0 <= i < r.dead@.len() implies {
        let s = #[trigger] r.dead@[i];
        &&& t.has_live(s)
        &&& t.config.max_deliveries > 0 && t.config.dead_letter is Some
        &&& t0.queue->0.deliveries.contains_key(s) && t0.queue->0.deliveries[s]
            >= t.config.max_deliveries
        &&& t0.queue->0.leases.contains_key(s) ==> t0.queue->0.leases[s].deadline_ms < now
    } by {
        let s = r.dead@[i];
        assert(d.dead[i] == s);
        assert(dead_right(t.queue->0, t.live_set(), t.head, limit, s));
        what_is_claimed_from(t0, now, s);
    }
    if limit is None && r.dead@.len() > 0 {
        assert(dead_right(t.queue->0, t.live_set(), t.head, limit, d.dead[0]));
    }
}

/// A job that a claim gives up leaves the queue for the dead-letter topic, or is up for reclaim
/// again; it never stays behind.
pub proof fn a_job_given_up_does_not_stay_behind(
    v: EngineView,
    name: Seq<char>,
    c: Claimer,
    lease_ms: Option<u64>,
    now: i64,
    v2: EngineView,
    i: int,
)
    requires
        v.topics.contains_key(name),
        v.topics[name].name == name,
        v.topics[name].ok(),
        v.topics[name].queue is Some,
        sole_claim(v, name, c, lease_ms, now, v2),
        v.topics[name].config.dead_letter is Some,
        v.topics[name].config.dead_letter->0@ != name,
        v.topics.contains_key(v.topics[name].config.dead_letter->0@) ==> v.topics[
            v.topics[name].config.dead_letter->0@
        ].name == v.topics[name].config.dead_letter->0@,
        ({
            let t = v.topics[name].claimed_from(now);
            0 <= i < cohort_deal(
                t,
                seq![c],
                claim_deadline(lease_ms, t.config, now),
            ).dead.len()
        }),
    ensures
        ({
            let t = v.topics[name].claimed_from(now);
            let s = cohort_deal(t, seq![c], claim_deadline(lease_ms, t.config, now)).dead[i];
            !v2.topics[name].has_live(s) || v2.topics[name].queue->0.reclaim.contains(s)
        }),
{
    let t0 = v.topics[name];
    crate::topic_laws::retention_keeps(t0, now);
    let t = t0.claimed_from(now);
    let d = cohort_deal(t, seq![c], claim_deadline(lease_ms, t.config, now));
    let s = d.dead[i];
    let dl = t.config.dead_letter->0@;
    let v1 = v.dealt(name, seq![c], lease_ms, now);
    let copies = choose|copies: Seq<StoredRecord>| #[trigger]
        are_copies(
            copies,
            v1.topics[name],
            Seq::<Fetched>::empty(),
            d.dead,
            t.config.max_deliveries,
            now,
        ) && v2 == v1.moves_dead_letters(name, dl, d.dead, copies, now);
    let w = v1.with_dead_letter(dl, now);
    assert(w.topics[name] == v1.topics[name]);
    assert(v1.topics[name].ok());
    assert(d.dead.contains(s));
    if !w.takes_dead_letters(dl, copies) {
        assert(d.dead.to_set().contains(s));
    } else if copies.len() > 0 {
        let x = w.with_topic(w.topics[dl].landed(copies, now));
        assert(x.topics[name] == w.topics[name]);
        jobs_leave_unless_refused(x, name, d.dead, Set::empty());
    } else {
        jobs_leave_unless_refused(w, name, d.dead, Set::empty());
    }
}

/// The leases of a claim are named one by one, each with the place of its claimer, its job, its
/// number, and how often the job was handed out.
pub proof fn the_leases_are_named(handed: Seq<Handed>, i: int)
    requires
        0 <= i < handed.len(),
        0 <= handed[i].claimer <= usize::MAX,
    ensures
        lease_events(handed).len() == handed.len(),
        lease_events(handed)[i].0 == handed[i].claimer,
        lease_events(handed)[i].1 == handed[i].seq,
        lease_events(handed)[i].2 == handed[i].lease_id,
        lease_events(handed)[i].3 == handed[i].deliveries,
{
}

/// A job that is given up is counted, and how often it was handed out is forgotten; nothing
/// else of the queue changes.
pub proof fn a_job_given_up_is_forgotten(q: QueueView, seq: u64, o: u64)
    requires
        q.dead_lettered < u64::MAX,
    ensures
        !with_dead(q, seq).deliveries.contains_key(seq),
        o != seq ==> (with_dead(q, seq).deliveries.contains_key(o) <==> q.deliveries.contains_key(
            o,
        )),
        o != seq && q.deliveries.contains_key(o) ==> with_dead(q, seq).deliveries[o]
            == q.deliveries[o],
        with_dead(q, seq).dead_lettered == q.dead_lettered + 1,
        with_dead(q, seq) == (QueueView {
            deliveries: with_dead(q, seq).deliveries,
            dead_lettered: with_dead(q, seq).dead_lettered,
            ..q
        }),
{
}

} // verus!
