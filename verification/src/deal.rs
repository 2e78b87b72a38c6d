//! Dealing jobs out to a cohort of claimers, one each in turn.
use crate::config::MAX_CLAIM;
use crate::eviction::sat_add;
use crate::queue::{claims_next, next_claimable, next_job_exists, next_job_is_unique, search_ends,
    search_left, Lease, QueueProjection, QueueView};
use crate::topic_state::TopicView;
use crate::types::{copy_json, copy_text, Json};
use vstd::prelude::*;

verus! {

/// Somebody who claims jobs.
#[derive(Debug)]
pub struct Claimer {
    pub node: String,
    pub max: u32,
    pub work_conn: Option<u64>,
}

/// A job handed out under a lease. Data is absent where it has to be fetched from
/// a segment first.
#[derive(Debug)]
pub struct LeasedJob {
    pub seq: u64,
    pub lease_id: u64,
    pub deadline: i64,
    pub ts: i64,
    pub tag: Option<String>,
    pub deliveries: u64,
    pub data: Option<Json>,
    pub meta: Option<Json>,
}

/// A job handed out to one of a cohort.
pub ghost struct Handed {
    pub claimer: int,
    pub seq: u64,
    pub lease_id: u64,
    pub deliveries: u64,
}

/// The outcome of dealing jobs out.
pub ghost struct Dealt {
    /// The queue afterwards.
    pub queue: QueueView,
    /// The jobs handed out, in order.
    pub handed: Seq<Handed>,
    /// The jobs that were handed out too often, in order.
    pub dead: Seq<u64>,
}

/// How often a job was handed out.
pub open spec fn delivered(q: QueueView, seq: u64) -> u64 {
    if q.deliveries.contains_key(seq) {
        q.deliveries[seq]
    } else {
        0
    }
}

/// The next job to hand out, and the queue without it.
pub open spec fn next_job(q: QueueView, live: Set<u64>, head: u64) -> (Option<u64>, QueueView) {
    choose|p: (Option<u64>, QueueView)| claims_next(q, live, head, p.0, p.1)
}

/// Somebody of a cohort wants more.
pub open spec fn wanted(remaining: Seq<u32>) -> bool {
    exists|i: int| 0 <= i < remaining.len() && #[trigger] remaining[i] > 0
}

/// Whose turn it is: from `i` on, in a circle, the first that wants more.
pub open spec fn turn_from(remaining: Seq<u32>, i: int, tries: nat) -> int
    decreases tries,
{
    if tries == 0 || remaining[i] > 0 {
        i
    } else {
        turn_from(remaining, next_place(remaining.len(), i), (tries - 1) as nat)
    }
}

/// The place after a place, in a circle.
pub open spec fn next_place(n: nat, i: int) -> int {
    if i + 1 >= n {
        0
    } else {
        i + 1
    }
}

/// A queue with a job leased.
pub open spec fn with_lease(q: QueueView, seq: u64, lease: Lease, deliveries: u64) -> QueueView {
    QueueView {
        leases: q.leases.insert(seq, lease),
        deliveries: q.deliveries.insert(seq, deliveries),
        next_lease_id: (q.next_lease_id + 1) as u64,
        ..q
    }
}

/// A queue with a job given up.
pub open spec fn with_dead(q: QueueView, seq: u64) -> QueueView {
    QueueView {
        deliveries: q.deliveries.remove(seq),
        dead_lettered: sat_add(q.dead_lettered, 1),
        ..q
    }
}

/// A job is handed out too often: there is a limit, and a place for such jobs.
pub open spec fn given_up(deliveries: u64, max_deliveries: u64, divert: bool) -> bool {
    max_deliveries > 0 && deliveries > max_deliveries && divert
}

/// Deals jobs out in turn, from the claimer at `rr` on, until nobody wants more or
/// there is none left. A job that was handed out too often is set aside.
pub open spec fn deal(
    q: QueueView,
    live: Set<u64>,
    head: u64,
    claimers: Seq<Claimer>,
    remaining: Seq<u32>,
    rr: int,
    deadline: i64,
    max_deliveries: u64,
    divert: bool,
) -> Dealt
    decreases search_left(q, head),
    when q.reclaim.finite() && head < u64::MAX
    via deal_ends
{
    if !wanted(remaining) {
        Dealt { queue: q, handed: Seq::empty(), dead: Seq::empty() }
    } else {
        let (job, q1) = next_job(q, live, head);
        match job {
            None => Dealt { queue: q1, handed: Seq::empty(), dead: Seq::empty() },
            Some(seq) => {
                let c = turn_from(remaining, rr, remaining.len());
                let n = sat_add(delivered(q1, seq), 1);
                if given_up(n, max_deliveries, divert) {
                    let rest = deal(
                        with_dead(q1, seq),
                        live,
                        head,
                        claimers,
                        remaining,
                        c,
                        deadline,
                        max_deliveries,
                        divert,
                    );
                    Dealt { dead: seq![seq] + rest.dead, ..rest }
                } else {
                    let lease = Lease {
                        node: claimers[c].node,
                        lease_id: q1.next_lease_id,
                        deadline_ms: deadline,
                        by_work_conn: claimers[c].work_conn,
                    };
                    let rest = deal(
                        with_lease(q1, seq, lease, n),
                        live,
                        head,
                        claimers,
                        remaining.update(c, (remaining[c] - 1) as u32),
                        next_place(remaining.len(), c),
                        deadline,
                        max_deliveries,
                        divert,
                    );
                    let h = Handed {
                        claimer: c,
                        seq,
                        lease_id: q1.next_lease_id,
                        deliveries: n,
                    };
                    Dealt { handed: seq![h] + rest.handed, ..rest }
                }
            },
        }
    }
}

#[via_fn]
proof fn deal_ends(
    q: QueueView,
    live: Set<u64>,
    head: u64,
    claimers: Seq<Claimer>,
    remaining: Seq<u32>,
    rr: int,
    deadline: i64,
    max_deliveries: u64,
    divert: bool,
) {
    let (job, q1) = next_job(q, live, head);
    let p = next_job_exists(q, live, head);
    assert(claims_next(q, live, head, p.0, p.1));
    if job is Some {
        search_ends(q, live, head, job->0, q1);
    }
}

/// The demand of a cohort.
pub open spec fn demand(remaining: Seq<u32>) -> nat
    decreases remaining.len(),
{
    if remaining.len() == 0 {
        0
    } else {
        demand(remaining.drop_last()) + remaining.last() as nat
    }
}

/// One job less is wanted once it is handed out.
pub proof fn demand_falls(remaining: Seq<u32>, c: int)
    requires
        0 <= c < remaining.len(),
        remaining[c] > 0,
    ensures
        demand(remaining.update(c, (remaining[c] - 1) as u32)) == demand(remaining) - 1,
        demand(remaining) >= 1,
    decreases remaining.len(),
{
    let u = remaining.update(c, (remaining[c] - 1) as u32);
    if c == remaining.len() - 1 {
        assert(u.drop_last() =~= remaining.drop_last());
    } else {
        demand_falls(remaining.drop_last(), c);
        assert(u.drop_last() =~= remaining.drop_last().update(c, (remaining[c] - 1) as u32));
    }
}

/// What each of a cohort asks for, within the limits of a claim.
pub open spec fn demands(claimers: Seq<Claimer>) -> Seq<u32> {
    claimers.map_values(|c: Claimer| clamped_max(c.max))
}

/// What a claimer asks for, within the limits of a claim.
pub open spec fn clamped_max(max: u32) -> u32 {
    if max < 1 {
        1
    } else if max > MAX_CLAIM {
        MAX_CLAIM
    } else {
        max
    }
}

/// A cohort asks for no more than the limit for each.
pub proof fn demand_is_bounded(claimers: Seq<Claimer>)
    ensures
        demand(demands(claimers)) <= claimers.len() * MAX_CLAIM,
    decreases claimers.len(),
{
    if claimers.len() > 0 {
        let r = claimers.drop_last();
        demand_is_bounded(r);
        assert(demands(claimers).drop_last() =~= demands(r));
        assert(claimers.len() * MAX_CLAIM == r.len() * MAX_CLAIM + MAX_CLAIM) by (nonlinear_arith)
            requires
                claimers.len() == r.len() + 1,
        ;
    }
}

/// The place that comes `k` places after `i`, in a circle of `n`.
spec fn place(n: int, i: int, k: int) -> int {
    if i + k < n {
        i + k
    } else {
        i + k - n
    }
}

/// Finds whose turn it is.
fn find_turn(remaining: &Vec<u32>, rr: usize) -> (r: usize)
    requires
        rr < remaining@.len(),
    ensures
        r < remaining@.len(),
        r == turn_from(remaining@, rr as int, remaining@.len()),
        wanted(remaining@) <==> remaining@[r as int] > 0,
{
    let n: usize = remaining.len();
    let ghost s = remaining@;
    let mut i: usize = rr;
    let mut tries: usize = n;
    while tries > 0 && remaining[i] == 0
        invariant
            n == s.len(),
            s == remaining@,
            rr < n,
            i < n,
            tries <= n,
            tries > 0 ==> i == place(n as int, rr as int, n - tries),
            turn_from(s, rr as int, n as nat) == turn_from(s, i as int, tries as nat),
            forall|k: int| 0 <= k < n - tries ==> s[#[trigger] place(n as int, rr as int, k)] == 0,
        decreases tries,
    {
        proof {
            assert(s[place(n as int, rr as int, n - tries)] == 0);
        }
        i = if i + 1 >= n {
            0
        } else {
            i + 1
        };
        tries = tries - 1;
    }
    proof {
        if tries == 0 {
            assert forall|j: int| 0 <= j < n implies s[j] == 0 by {
                let k = if j >= rr {
                    j - rr
                } else {
                    j + n - rr
                };
                assert(place(n as int, rr as int, k) == j);
            }
        }
    }
    i
}

/// A job as it is handed out.
pub open spec fn job_of(t: TopicView, h: Handed, deadline: i64) -> LeasedJob {
    LeasedJob {
        seq: h.seq,
        lease_id: h.lease_id,
        deadline,
        ts: t.rec(h.seq).ts,
        tag: t.rec(h.seq).tag,
        deliveries: h.deliveries,
        data: t.rec(h.seq).data,
        meta: t.rec(h.seq).meta,
    }
}

/// The jobs handed out to one of a cohort, in order.
pub open spec fn jobs_for(t: TopicView, handed: Seq<Handed>, c: int, deadline: i64) -> Seq<LeasedJob>
    decreases handed.len(),
{
    if handed.len() == 0 {
        Seq::empty()
    } else {
        let earlier = jobs_for(t, handed.drop_last(), c, deadline);
        if handed.last().claimer == c {
            earlier.push(job_of(t, handed.last(), deadline))
        } else {
            earlier
        }
    }
}

/// A lease to be logged: the claimer's place, the job, the lease, and how often the
/// job was handed out.
pub open spec fn lease_events(handed: Seq<Handed>) -> Seq<(usize, u64, u64, u64)> {
    handed.map_values(|h: Handed| (h.claimer as usize, h.seq, h.lease_id, h.deliveries))
}

/// The outcome of dealing a queue's jobs out to a cohort.
pub open spec fn cohort_deal(t: TopicView, claimers: Seq<Claimer>, deadline: i64) -> Dealt {
    deal(
        t.queue->0,
        t.live_set(),
        t.head,
        claimers,
        demands(claimers),
        0,
        deadline,
        t.config.max_deliveries,
        t.config.dead_letter is Some,
    )
}

impl crate::topic_state::TopicState {
    /// Deals jobs out to a cohort. Each gets its jobs; those that were handed out
    /// too often, and the leases, are handed back as well.
    pub fn deal_jobs(&mut self, claimers: &Vec<Claimer>, deadline: i64) -> (r: (
        Vec<Vec<LeasedJob>>,
        Vec<u64>,
        Vec<(usize, u64, u64, u64)>,
    ))
        requires
            old(self).wf(),
            old(self)@.queue is Some,
            old(self)@.queue->0.next_lease_id + claimers@.len() * MAX_CLAIM <= u64::MAX,
        ensures
            final(self).wf(),
            ({
                let t = old(self)@;
                let d = cohort_deal(t, claimers@, deadline);
                &&& final(self)@ == (TopicView { queue: Some(d.queue), ..t })
                &&& r.0@.len() == claimers@.len()
                &&& forall|c: int|
                    0 <= c < claimers@.len() ==> (#[trigger] r.0@[c])@ == jobs_for(
                        t,
                        d.handed,
                        c,
                        deadline,
                    )
                &&& r.1@ == d.dead
                &&& r.2@ == lease_events(d.handed)
                &&& d.handed.len() <= claimers@.len() * MAX_CLAIM
                &&& forall|i: int|
                    0 <= i < d.handed.len() ==> 0 <= (#[trigger] d.handed[i]).claimer
                        < claimers@.len()
            }),
    {
        let ghost t = self@;
        let ghost live = t.live_set();
        let max_deliveries: u64 = self.config.max_deliveries;
        let divert = self.config.dead_letter.is_some();
        let n: usize = claimers.len();
        let head: u64 = self.head_seq;
        let mut queue: Option<QueueProjection> = None;
        std::mem::swap(&mut self.queue, &mut queue);
        let mut q = match queue {
            Some(q) => q,
            None => QueueProjection::new(1),
        };
        let mut out: Vec<Vec<LeasedJob>> = Vec::new();
        let mut remaining: Vec<u32> = Vec::new();
        let mut i: usize = 0;
        while i < n
            invariant
                i <= n,
                n == claimers@.len(),
                out@.len() == i,
                remaining@ == demands(claimers@.take(i as int)),
                forall|c: int|
                    0 <= c < i ==> (#[trigger] out@[c])@ == Seq::<LeasedJob>::empty(),
            decreases n - i,
        {
            let m: u32 = claimers[i].max;
            let d: u32 = if m < 1 {
                1
            } else if m > MAX_CLAIM {
                MAX_CLAIM
            } else {
                m
            };
            remaining.push(d);
            out.push(Vec::new());
            assert(remaining@ =~= demands(claimers@.take(i + 1)));
            i += 1;
        }
        assert(claimers@.take(i as int) =~= claimers@);
        let mut dead: Vec<u64> = Vec::new();
        let mut events: Vec<(usize, u64, u64, u64)> = Vec::new();
        let mut rr: usize = 0;
        let ghost whole = cohort_deal(t, claimers@, deadline);
        let ghost mut handed: Seq<Handed> = Seq::empty();
        proof {
            q.reclaim.list_is_set();
            demand_is_bounded(claimers@);
            assert(live =~= self.index.live_set());
            assert(whole.handed =~= handed + whole.handed);
            assert(whole.dead =~= dead@ + whole.dead);
            assert(events@ =~= lease_events(handed));
        }
        while n > 0
            invariant_except_break
                ({
                    let d = deal(
                        q@,
                        live,
                        head,
                        claimers@,
                        remaining@,
                        rr as int,
                        deadline,
                        max_deliveries,
                        divert,
                    );
                    &&& whole.queue == d.queue
                    &&& whole.handed == handed + d.handed
                    &&& whole.dead == dead@ + d.dead
                }),
            invariant
                n == claimers@.len(),
                n == remaining@.len(),
                n > 0 ==> rr < n,
                q.wf(),
                q@.reclaim.finite(),
                self.index.wf(),
                t.base == self.index.base_seq,
                t.recs == self.index.records@,
                head == t.head,
                head < u64::MAX,
                live == t.live_set(),
                live == self.index.live_set(),
                max_deliveries == t.config.max_deliveries,
                divert == (t.config.dead_letter is Some),
                q@.next_lease_id + demand(remaining@) <= u64::MAX,
                handed.len() + demand(remaining@) <= n * MAX_CLAIM,
                events@ == lease_events(handed),
                forall|k: int|
                    0 <= k < handed.len() ==> 0 <= (#[trigger] handed[k]).claimer < n,
                out@.len() == n,
                forall|c: int|
                    0 <= c < n ==> (#[trigger] out@[c])@ == jobs_for(t, handed, c, deadline),
            ensures
                q@ == whole.queue,
                handed == whole.handed,
                dead@ == whole.dead,
                handed.len() <= n * MAX_CLAIM,
            decreases search_left(q@, head),
        {
            let turn: usize = find_turn(&remaining, rr);
            let ghost c = turn as int;
            if remaining[turn] == 0 {
                proof {
                    assert(!wanted(remaining@));
                    assert(handed + Seq::<Handed>::empty() =~= handed);
                    assert(dead@ + Seq::<u64>::empty() =~= dead@);
                }
                break;
            }
            let ghost q0 = q@;
            let ghost rem0 = remaining@;
            let found = next_claimable(&mut q, &self.index, head);
            proof {
                let p = next_job(q0, live, head);
                let e = next_job_exists(q0, live, head);
                assert(claims_next(q0, live, head, e.0, e.1));
                assert(claims_next(q0, live, head, p.0, p.1));
                next_job_is_unique(q0, live, head, found, q@, p.0, p.1);
            }
            let seq: u64 = match found {
                Some(s) => s,
                None => {
                    proof {
                        assert(handed + Seq::<Handed>::empty() =~= handed);
                        assert(dead@ + Seq::<u64>::empty() =~= dead@);
                    }
                    break;
                },
            };
            proof {
                search_ends(q0, live, head, seq, q@);
                crate::queue::no_job_is_held_twice(q0, live, head, seq, q@);
                assert(t.has_live(seq));
            }
            let ghost q1 = q@;
            let before: u64 = match q.deliveries.get(seq) {
                Some(d) => *d,
                None => 0,
            };
            let this: u64 = before.saturating_add(1);
            if max_deliveries > 0 && this > max_deliveries && divert {
                let ghost d0 = dead@;
                dead.push(seq);
                let _ = q.deliveries.remove(seq);
                q.dead_lettered = q.dead_lettered.saturating_add(1);
                proof {
                    assert(q@ == with_dead(q1, seq));
                    let rest = deal(
                        q@,
                        live,
                        head,
                        claimers@,
                        remaining@,
                        c,
                        deadline,
                        max_deliveries,
                        divert,
                    );
                    assert(d0 + (seq![seq] + rest.dead) =~= dead@ + rest.dead);
                }
                rr = turn;
                continue;
            }
            let lease_id: u64 = q.next_lease_id;
            proof {
                demand_falls(rem0, c);
            }
            q.next_lease_id = q.next_lease_id + 1;
            q.deliveries.insert(seq, this);
            let lease = Lease {
                node: claimers[turn].node.clone(),
                lease_id,
                deadline_ms: deadline,
                by_work_conn: claimers[turn].work_conn,
            };
            q.leases.insert(seq, lease);
            let job = match self.index.get(seq) {
                Some(rec) => LeasedJob {
                    seq,
                    lease_id,
                    deadline,
                    ts: rec.ts,
                    tag: copy_text(&rec.tag),
                    deliveries: this,
                    data: copy_json(&rec.data),
                    meta: copy_json(&rec.meta),
                },
                None => LeasedJob {
                    seq,
                    lease_id,
                    deadline,
                    ts: 0,
                    tag: None,
                    deliveries: this,
                    data: None,
                    meta: None,
                },
            };
            let ghost h = Handed { claimer: c, seq, lease_id, deliveries: this };
            let ghost o0 = out@;
            let ghost h0 = handed;
            assert(job == job_of(t, h, deadline));
            let mut mine = out.remove(turn);
            mine.push(job);
            out.insert(turn, mine);
            events.push((turn, seq, lease_id, this));
            remaining.set(turn, remaining[turn] - 1);
            proof {
                handed = handed.push(h);
                assert(handed.drop_last() =~= h0);
                assert(events@ =~= lease_events(handed));
                assert(q@ == with_lease(q1, seq, lease, this));
                assert(remaining@ =~= rem0.update(c, (rem0[c] - 1) as u32));
                let rest = deal(
                    q@,
                    live,
                    head,
                    claimers@,
                    remaining@,
                    next_place(n as nat, c),
                    deadline,
                    max_deliveries,
                    divert,
                );
                assert(h0 + (seq![h] + rest.handed) =~= handed + rest.handed);
                assert forall|k: int| 0 <= k < n implies (#[trigger] out@[k])@ == jobs_for(
                    t,
                    handed,
                    k,
                    deadline,
                ) by {
                    assert(o0[k]@ == jobs_for(t, h0, k, deadline));
                    if k == c {
                        assert(out@[k]@ =~= o0[k]@.push(job));
                    } else {
                        assert(out@[k] == o0[k]);
                    }
                }
            }
            rr = if turn + 1 >= n {
                0
            } else {
                turn + 1
            };
        }
        proof {
            if n == 0 {
                assert(!wanted(demands(claimers@)));
            }
        }
        self.queue = Some(q);
        (out, dead, events)
    }
}

/// How many jobs one of a cohort was handed.
pub open spec fn share(handed: Seq<Handed>, c: int) -> nat
    decreases handed.len(),
{
    if handed.len() == 0 {
        0
    } else {
        share(handed.drop_first(), c) + if handed[0].claimer == c {
            1nat
        } else {
            0
        }
    }
}

/// How far a place is from `rr`, in a circle.
pub open spec fn distance(n: int, rr: int, x: int) -> int {
    if x >= rr {
        x - rr
    } else {
        x + n - rr
    }
}

/// Whose turn it is wants more, and nobody between does.
pub proof fn turn_is_first(remaining: Seq<u32>, i: int, tries: nat, x: int)
    requires
        0 <= i < remaining.len(),
        tries <= remaining.len(),
        0 <= x < remaining.len(),
        remaining[x] > 0,
        distance(remaining.len() as int, i, x) < tries,
    ensures
        ({
            let c = turn_from(remaining, i, tries);
            &&& 0 <= c < remaining.len()
            &&& remaining[c] > 0
            &&& distance(remaining.len() as int, i, c) <= distance(
                remaining.len() as int,
                i,
                x,
            )
        }),
    decreases tries,
{
    if remaining[i] == 0 {
        turn_is_first(remaining, next_place(remaining.len(), i), (tries - 1) as nat, x);
    }
}

proof fn share_grows(h: Handed, rest: Seq<Handed>, c: int)
    ensures
        share(seq![h] + rest, c) == share(rest, c) + if h.claimer == c {
            1nat
        } else {
            0
        },
{
    assert((seq![h] + rest).drop_first() =~= rest);
}

/// Dealing is fair and respects what each asked for, from whatever claimer it
/// starts.
proof fn deal_is_fair_from(
    q: QueueView,
    live: Set<u64>,
    head: u64,
    claimers: Seq<Claimer>,
    remaining: Seq<u32>,
    rr: int,
    deadline: i64,
    max_deliveries: u64,
    divert: bool,
    a: int,
    b: int,
)
    requires
        q.reclaim.finite(),
        head < u64::MAX,
        0 <= rr < remaining.len(),
        0 <= a < remaining.len(),
        0 <= b < remaining.len(),
    ensures
        ({
            let d = deal(
                q,
                live,
                head,
                claimers,
                remaining,
                rr,
                deadline,
                max_deliveries,
                divert,
            );
            let n = remaining.len() as int;
            &&& share(d.handed, a) <= remaining[a]
            &&& share(d.handed, b) <= remaining[b]
            &&& a != b && share(d.handed, b) < remaining[b] ==> share(d.handed, a) <= share(
                d.handed,
                b,
            ) + (if distance(n, rr, a) < distance(n, rr, b) {
                1int
            } else {
                0
            })
        }),
    decreases search_left(q, head),
{
    let n = remaining.len() as int;
    if wanted(remaining) {
        let e = next_job_exists(q, live, head);
        assert(claims_next(q, live, head, e.0, e.1));
        let (job, q1) = next_job(q, live, head);
        assert(claims_next(q, live, head, job, q1));
        let x = choose|x: int| 0 <= x < remaining.len() && #[trigger] remaining[x] > 0;
        turn_is_first(remaining, rr, remaining.len(), x);
        if remaining[a] > 0 {
            turn_is_first(remaining, rr, remaining.len(), a);
        }
        if remaining[b] > 0 {
            turn_is_first(remaining, rr, remaining.len(), b);
        }
        let c = turn_from(remaining, rr, remaining.len());
        if job is Some {
            let seq = job->0;
            search_ends(q, live, head, seq, q1);
            let m = sat_add(delivered(q1, seq), 1);
            if given_up(m, max_deliveries, divert) {
                deal_is_fair_from(
                    with_dead(q1, seq),
                    live,
                    head,
                    claimers,
                    remaining,
                    c,
                    deadline,
                    max_deliveries,
                    divert,
                    a,
                    b,
                );
            } else {
                let lease = Lease {
                    node: claimers[c].node,
                    lease_id: q1.next_lease_id,
                    deadline_ms: deadline,
                    by_work_conn: claimers[c].work_conn,
                };
                let rem2 = remaining.update(c, (remaining[c] - 1) as u32);
                let q2 = with_lease(q1, seq, lease, m);
                let rr2 = next_place(remaining.len(), c);
                deal_is_fair_from(
                    q2,
                    live,
                    head,
                    claimers,
                    rem2,
                    rr2,
                    deadline,
                    max_deliveries,
                    divert,
                    a,
                    b,
                );
                let rest = deal(
                    q2,
                    live,
                    head,
                    claimers,
                    rem2,
                    rr2,
                    deadline,
                    max_deliveries,
                    divert,
                );
                let h = Handed {
                    claimer: c,
                    seq,
                    lease_id: q1.next_lease_id,
                    deliveries: m,
                };
                share_grows(h, rest.handed, a);
                share_grows(h, rest.handed, b);
            }
        }
    }
}

/// A cohort is served fairly: nobody gets more than asked for, and as long as
/// somebody still wants more, nobody got more than one job more than they.
pub proof fn cohort_is_served_fairly(
    t: TopicView,
    claimers: Seq<Claimer>,
    deadline: i64,
    a: int,
    b: int,
)
    requires
        t.ok(),
        t.queue is Some,
        t.queue->0.reclaim.finite(),
        0 <= a < claimers.len(),
        0 <= b < claimers.len(),
    ensures
        ({
            let h = cohort_deal(t, claimers, deadline).handed;
            &&& share(h, a) <= clamped_max(claimers[a].max)
            &&& share(h, b) < clamped_max(claimers[b].max) ==> share(h, a) <= share(h, b) + 1
        }),
{
    deal_is_fair_from(
        t.queue->0,
        t.live_set(),
        t.head,
        claimers,
        demands(claimers),
        0,
        deadline,
        t.config.max_deliveries,
        t.config.dead_letter is Some,
        a,
        b,
    );
}

proof fn share_of_push(handed: Seq<Handed>, h: Handed, c: int)
    ensures
        share(handed.push(h), c) == share(handed, c) + if h.claimer == c {
            1nat
        } else {
            0
        },
    decreases handed.len(),
{
    let p = handed.push(h);
    if handed.len() > 0 {
        share_of_push(handed.drop_first(), h, c);
        assert(p.drop_first() =~= handed.drop_first().push(h));
        assert(p[0] == handed[0]);
    } else {
        assert(p.drop_first() =~= Seq::<Handed>::empty());
        assert(p[0] == h);
        assert(share(p.drop_first(), c) == 0);
    }
}

/// The share of a claimer is the number of jobs in its list.
pub proof fn share_is_number_of_jobs(t: TopicView, handed: Seq<Handed>, c: int, deadline: i64)
    ensures
        jobs_for(t, handed, c, deadline).len() == share(handed, c),
    decreases handed.len(),
{
    if handed.len() > 0 {
        share_is_number_of_jobs(t, handed.drop_last(), c, deadline);
        share_of_push(handed.drop_last(), handed.last(), c);
        assert(handed.drop_last().push(handed.last()) =~= handed);
    }
}

/// Every job that is handed out was held by nobody, and is held by the one it was
/// handed to. A job that was held stays with its holder.
proof fn deal_leases_from(
    q: QueueView,
    live: Set<u64>,
    head: u64,
    claimers: Seq<Claimer>,
    remaining: Seq<u32>,
    rr: int,
    deadline: i64,
    max_deliveries: u64,
    divert: bool,
    i: int,
    held: u64,
)
    requires
        q.reclaim.finite(),
        head < u64::MAX,
        q.leases.contains_key(held),
    ensures
        ({
            let d = deal(
                q,
                live,
                head,
                claimers,
                remaining,
                rr,
                deadline,
                max_deliveries,
                divert,
            );
            &&& d.queue.leases.contains_key(held)
            &&& d.queue.leases[held] == q.leases[held]
            &&& 0 <= i < d.handed.len() ==> d.handed[i].seq != held
        }),
    decreases search_left(q, head),
{
    if wanted(remaining) {
        let e = next_job_exists(q, live, head);
        assert(claims_next(q, live, head, e.0, e.1));
        let (job, q1) = next_job(q, live, head);
        assert(claims_next(q, live, head, job, q1));
        let c = turn_from(remaining, rr, remaining.len());
        if job is Some {
            let seq = job->0;
            search_ends(q, live, head, seq, q1);
            crate::queue::no_job_is_held_twice(q, live, head, seq, q1);
            let m = sat_add(delivered(q1, seq), 1);
            if given_up(m, max_deliveries, divert) {
                deal_leases_from(
                    with_dead(q1, seq),
                    live,
                    head,
                    claimers,
                    remaining,
                    c,
                    deadline,
                    max_deliveries,
                    divert,
                    i,
                    held,
                );
            } else {
                let lease = Lease {
                    node: claimers[c].node,
                    lease_id: q1.next_lease_id,
                    deadline_ms: deadline,
                    by_work_conn: claimers[c].work_conn,
                };
                deal_leases_from(
                    with_lease(q1, seq, lease, m),
                    live,
                    head,
                    claimers,
                    remaining.update(c, (remaining[c] - 1) as u32),
                    next_place(remaining.len(), c),
                    deadline,
                    max_deliveries,
                    divert,
                    i - 1,
                    held,
                );
            }
        }
    }
}

/// No job is handed out while somebody holds it, and dealing takes no job from its
/// holder.
pub proof fn held_jobs_stay_with_their_holder(
    t: TopicView,
    claimers: Seq<Claimer>,
    deadline: i64,
    i: int,
    held: u64,
)
    requires
        t.ok(),
        t.queue is Some,
        t.queue->0.reclaim.finite(),
        t.queue->0.leases.contains_key(held),
    ensures
        ({
            let d = cohort_deal(t, claimers, deadline);
            &&& d.queue.leases.contains_key(held)
            &&& d.queue.leases[held] == t.queue->0.leases[held]
            &&& 0 <= i < d.handed.len() ==> d.handed[i].seq != held
        }),
{
    deal_leases_from(
        t.queue->0,
        t.live_set(),
        t.head,
        claimers,
        demands(claimers),
        0,
        deadline,
        t.config.max_deliveries,
        t.config.dead_letter is Some,
        i,
        held,
    );
}

} // verus!
