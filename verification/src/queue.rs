//! The lease projection of a queue topic: who holds which job, and which jobs
//! wait to be handed out again.
use crate::config::MAX_CLAIM;
use crate::eviction::max64;
use crate::seqs::{count_is_size, count_where, keys_of, SeqMap, SeqSet};
use crate::topic_index::TopicIndex;
use crate::types::{Error, ErrorCode, ErrorDetail};
use vstd::multiset::Multiset;
use vstd::prelude::*;

verus! {

/// A job handed out to a node until a deadline.
#[derive(Debug)]
pub struct Lease {
    pub node: String,
    pub lease_id: u64,
    pub deadline_ms: i64,
    pub by_work_conn: Option<u64>,
}

impl Lease {
    /// The lease still holds at `now`.
    pub open spec fn holds(self, now: i64) -> bool {
        now <= self.deadline_ms
    }
}

/// The state of a queue.
pub ghost struct QueueView {
    /// The jobs handed out.
    pub leases: Map<u64, Lease>,
    /// How often each job was handed out.
    pub deliveries: Map<u64, u64>,
    /// The jobs that came back and may be handed out again.
    pub reclaim: Set<u64>,
    /// The jobs that came back and wait: when they are ready, and which.
    pub delayed: Multiset<(i64, u64)>,
    /// The first job never handed out.
    pub claim_cursor: u64,
    /// How many jobs went to the dead-letter topic.
    pub dead_lettered: u64,
    /// The next lease to be given out.
    pub next_lease_id: u64,
}

impl QueueView {
    /// The jobs whose lease has run out at `now`.
    pub open spec fn expired(self, now: i64) -> Set<u64> {
        self.leases.dom().filter(|s: u64| !self.leases[s].holds(now))
    }

    /// The jobs whose delay is over at `now` and that nobody holds.
    pub open spec fn matured(self, now: i64) -> Set<u64> {
        Set::new(
            |s: u64|
                !self.leases.contains_key(s) && exists|t: i64|
                    t <= now && #[trigger] self.delayed.contains((t, s)),
        )
    }

    /// Expired leases and elapsed delays put their jobs up for reclaim.
    pub open spec fn swept(self, now: i64) -> QueueView {
        QueueView {
            leases: self.leases.remove_keys(self.expired(now)),
            reclaim: self.reclaim.union(self.matured(now)).union(self.expired(now)),
            delayed: self.delayed.filter(|d: (i64, u64)| d.0 > now),
            ..self
        }
    }

    /// The current lease of `seq` is `lease_id`.
    pub open spec fn held_as(self, seq: u64, lease_id: u64) -> bool {
        self.leases.contains_key(seq) && self.leases[seq].lease_id == lease_id
    }

    /// The state in which a lease is not given out any more.
    pub open spec fn past_lease(self, lease_id: u64) -> QueueView {
        QueueView { next_lease_id: max64(self.next_lease_id, (lease_id + 1) as u64), ..self }
    }

    /// The state after a logged event of a lease: 0 claimed, 1 released,
    /// 2 extended, 3 acknowledged. All but a claim concern the current lease alone.
    pub open spec fn after_event(
        self,
        event: u8,
        seq: u64,
        node: String,
        lease_id: u64,
        deadline_ms: i64,
        deliveries: u64,
    ) -> QueueView {
        let q = self.past_lease(lease_id);
        if event == 0 {
            QueueView {
                deliveries: q.deliveries.insert(seq, deliveries),
                leases: q.leases.insert(
                    seq,
                    Lease { node, lease_id, deadline_ms, by_work_conn: None },
                ),
                claim_cursor: max64(q.claim_cursor, (seq + 1) as u64),
                ..q
            }
        } else if !self.held_as(seq, lease_id) {
            q
        } else if event == 1 {
            QueueView { leases: q.leases.remove(seq), reclaim: q.reclaim.insert(seq), ..q }
        } else if event == 2 {
            QueueView {
                leases: q.leases.insert(seq, Lease { deadline_ms, ..q.leases[seq] }),
                ..q
            }
        } else if event == 3 {
            QueueView { leases: q.leases.remove(seq), deliveries: q.deliveries.remove(seq), ..q }
        } else {
            q
        }
    }
}

/// `a` is ready before `b`, or with it and has the smaller sequence number.
pub open spec fn ready_order(a: (i64, u64), b: (i64, u64)) -> bool {
    a.0 < b.0 || (a.0 == b.0 && a.1 <= b.1)
}

/// A list of delayed jobs in the order in which they become ready.
pub open spec fn in_ready_order(s: Seq<(i64, u64)>) -> bool {
    forall|i: int, j: int| 0 <= i < j < s.len() ==> ready_order(#[trigger] s[i], #[trigger] s[j])
}

/// How many entries of a list have a property.
pub open spec fn count_entries(s: Seq<(i64, u64)>, p: spec_fn((i64, u64)) -> bool) -> nat
    decreases s.len(),
{
    if s.len() == 0 {
        0
    } else {
        count_entries(s.drop_last(), p) + if p(s.last()) {
            1nat
        } else {
            0
        }
    }
}

/// The count of entries is the size of the multiset of entries with the property.
pub proof fn count_entries_is_size(s: Seq<(i64, u64)>, p: spec_fn((i64, u64)) -> bool)
    ensures
        count_entries(s, p) == s.to_multiset().filter(p).len(),
    decreases s.len(),
{
    broadcast use vstd::seq_lib::group_to_multiset_ensures;

    if s.len() == 0 {
        assert(s.to_multiset().filter(p) =~= Multiset::<(i64, u64)>::empty());
    } else {
        let t = s.drop_last();
        count_entries_is_size(t, p);
        assert(s =~= t.push(s.last()));
        assert(s.to_multiset() =~= t.to_multiset().insert(s.last()));
        if p(s.last()) {
            assert(s.to_multiset().filter(p) =~= t.to_multiset().filter(p).insert(s.last()));
        } else {
            assert(s.to_multiset().filter(p) =~= t.to_multiset().filter(p));
        }
    }
}

/// The lease projection of a queue topic.
#[derive(Debug)]
pub struct QueueProjection {
    pub leases: SeqMap<Lease>,
    pub deliveries: SeqMap<u64>,
    pub reclaim: SeqSet,
    pub delayed: Vec<(i64, u64)>,
    pub claim_cursor: u64,
    pub dead_lettered: u64,
    pub next_lease_id: u64,
}

impl View for QueueProjection {
    type V = QueueView;

    open spec fn view(&self) -> QueueView {
        QueueView {
            leases: self.leases@,
            deliveries: self.deliveries@,
            reclaim: self.reclaim@,
            delayed: self.delayed@.to_multiset(),
            claim_cursor: self.claim_cursor,
            dead_lettered: self.dead_lettered,
            next_lease_id: self.next_lease_id,
        }
    }
}

/// The state of a fresh queue.
pub open spec fn fresh_queue(seq_base: u64) -> QueueView {
    QueueView {
        leases: Map::empty(),
        deliveries: Map::empty(),
        reclaim: Set::empty(),
        delayed: Multiset::empty(),
        claim_cursor: seq_base,
        dead_lettered: 0,
        next_lease_id: 1,
    }
}

impl QueueProjection {
    /// The parts are well-formed, and delayed jobs are in the order in which they
    /// become ready.
    pub open spec fn wf(&self) -> bool {
        &&& self.leases.wf()
        &&& self.deliveries.wf()
        &&& self.reclaim.wf()
        &&& in_ready_order(self.delayed@)
    }

    /// A fresh queue whose first job is `seq_base`.
    pub fn new(seq_base: u64) -> (r: QueueProjection)
        ensures
            r.wf(),
            r@ == fresh_queue(seq_base),
    {
        let r = QueueProjection {
            leases: SeqMap::new(),
            deliveries: SeqMap::new(),
            reclaim: SeqSet::new(),
            delayed: Vec::new(),
            claim_cursor: seq_base,
            dead_lettered: 0,
            next_lease_id: 1,
        };
        proof {
            broadcast use vstd::seq_lib::group_to_multiset_ensures;

            assert(r.delayed@.to_multiset() =~= Multiset::<(i64, u64)>::empty());
        }
        r
    }

    /// Gives out the next lease.
    pub fn alloc_lease_id(&mut self) -> (r: u64)
        requires
            old(self).wf(),
            old(self)@.next_lease_id < u64::MAX,
        ensures
            final(self).wf(),
            r == old(self)@.next_lease_id,
            final(self)@ == (QueueView { next_lease_id: (r + 1) as u64, ..old(self)@ }),
    {
        let id: u64 = self.next_lease_id;
        self.next_lease_id = self.next_lease_id + 1;
        id
    }

    /// Puts a job up for reclaim, once.
    pub fn push_reclaim(&mut self, seq: u64)
        requires
            old(self).wf(),
        ensures
            final(self).wf(),
            final(self)@ == (QueueView { reclaim: old(self)@.reclaim.insert(seq), ..old(self)@ }),
    {
        let _ = self.reclaim.insert(seq);
    }

    /// Takes the lowest job up for reclaim.
    pub fn pop_reclaim(&mut self) -> (r: Option<u64>)
        requires
            old(self).wf(),
        ensures
            final(self).wf(),
            match r {
                Some(x) => {
                    &&& old(self)@.reclaim.contains(x)
                    &&& forall|y: u64| old(self)@.reclaim.contains(y) ==> x <= y
                    &&& final(self)@ == (QueueView {
                        reclaim: old(self)@.reclaim.remove(x),
                        ..old(self)@
                    })
                    &&& final(self).reclaim.list().len() + 1 == old(self).reclaim.list().len()
                },
                None => {
                    &&& old(self)@.reclaim == Set::<u64>::empty()
                    &&& final(self)@ == old(self)@
                },
            },
    {
        self.reclaim.pop_first()
    }

    /// Lets a job wait until `ready_at_ms`.
    pub fn push_delayed(&mut self, ready_at_ms: i64, seq: u64)
        requires
            old(self).wf(),
        ensures
            final(self).wf(),
            final(self)@ == (QueueView {
                delayed: old(self)@.delayed.insert((ready_at_ms, seq)),
                ..old(self)@
            }),
    {
        let ghost s = self.delayed@;
        let mut i: usize = 0;
        while i < self.delayed.len() && (self.delayed[i].0 < ready_at_ms || (self.delayed[i].0
            == ready_at_ms && self.delayed[i].1 <= seq))
            invariant
                i <= self.delayed@.len(),
                *self == *old(self),
                s == self.delayed@,
                self.wf(),
                forall|j: int| 0 <= j < i ==> ready_order(#[trigger] s[j], (ready_at_ms, seq)),
            decreases self.delayed@.len() - i,
        {
            i += 1;
        }
        self.delayed.insert(i, (ready_at_ms, seq));
        proof {
            broadcast use vstd::seq_lib::group_to_multiset_ensures;

            let t = self.delayed@;
            let x = (ready_at_ms, seq);
            assert(t =~= s.insert(i as int, x));
            assert forall|a: int, b: int| 0 <= a < b < t.len() implies ready_order(
                #[trigger] t[a],
                #[trigger] t[b],
            ) by {
                let sa = if a < i {
                    a
                } else {
                    a - 1
                };
                let sb = if b < i {
                    b
                } else {
                    b - 1
                };
                if a == i {
                    if sb > i {
                        assert(ready_order(s[i as int], s[sb]));
                    }
                } else if b != i {
                    assert(ready_order(s[sa], s[sb]));
                }
            }
            assert(t.remove(i as int) =~= s);
            assert(t.to_multiset() =~= s.to_multiset().insert(x));
        }
    }

    /// Puts the jobs of expired leases and elapsed delays up for reclaim.
    pub fn sweep_expired(&mut self, now_ms: i64)
        requires
            old(self).wf(),
        ensures
            final(self).wf(),
            final(self)@ == old(self)@.swept(now_ms),
    {
        let ghost q0 = self@;
        let ghost keep = |d: (i64, u64)| d.0 > now_ms;
        while self.delayed.len() > 0 && self.delayed[0].0 <= now_ms
            invariant
                self.wf(),
                keep == (|d: (i64, u64)| d.0 > now_ms),
                self@.leases == q0.leases,
                self@.deliveries == q0.deliveries,
                self@.claim_cursor == q0.claim_cursor,
                self@.dead_lettered == q0.dead_lettered,
                self@.next_lease_id == q0.next_lease_id,
                self@.delayed.filter(keep) == q0.delayed.filter(keep),
                forall|d: (i64, u64)| self@.delayed.contains(d) ==> q0.delayed.contains(d),
                forall|s: u64| #[trigger]
                    self@.reclaim.contains(s) ==> q0.reclaim.contains(s) || q0.matured(
                        now_ms,
                    ).contains(s),
                forall|s: u64| #[trigger] q0.reclaim.contains(s) ==> self@.reclaim.contains(s),
                forall|d: (i64, u64)| #[trigger]
                    q0.delayed.contains(d) && !self@.delayed.contains(d)
                        && !q0.leases.contains_key(d.1) ==> self@.reclaim.contains(d.1),
            decreases self.delayed@.len(),
        {
            let ghost s = self.delayed@;
            let ghost before = self@;
            let d = self.delayed.remove(0);
            proof {
                broadcast use vstd::seq_lib::group_to_multiset_ensures;

                assert(s[0] == d);
                assert(s.contains(d));
                assert(self.delayed@ =~= s.remove(0));
                assert(self@.delayed =~= before.delayed.remove(d));
                assert(before.delayed.contains(d));
                assert(self@.delayed.filter(keep) =~= before.delayed.filter(keep));
                assert forall|a: int, b: int| 0 <= a < b < self.delayed@.len() implies ready_order(
                    #[trigger] self.delayed@[a],
                    #[trigger] self.delayed@[b],
                ) by {
                    assert(ready_order(s[a + 1], s[b + 1]));
                }
            }
            if !self.leases.contains_key(d.1) {
                proof {
                    assert(q0.delayed.contains((d.0, d.1)));
                    assert(q0.matured(now_ms).contains(d.1));
                }
                let _ = self.reclaim.insert(d.1);
            }
            proof {
                assert forall|x: u64| #[trigger] self@.reclaim.contains(x) implies q0.reclaim.contains(
                    x,
                ) || q0.matured(now_ms).contains(x) by {
                    if !before.reclaim.contains(x) {
                        assert(x == d.1);
                    }
                }
                assert forall|e: (i64, u64)| #[trigger]
                    q0.delayed.contains(e) && !self@.delayed.contains(e)
                        && !q0.leases.contains_key(e.1) implies self@.reclaim.contains(e.1) by {
                    if before.delayed.contains(e) {
                        assert(e == d);
                    }
                }
            }
        }
        let ghost mid = self@;
        proof {
            broadcast use vstd::seq_lib::group_to_multiset_ensures;

            let s = self.delayed@;
            assert forall|d: (i64, u64)| mid.delayed.contains(d) implies keep(d) by {
                assert(s.contains(d));
                let i = choose|i: int| 0 <= i < s.len() && s[i] == d;
                if i > 0 {
                    assert(ready_order(s[0], s[i]));
                }
            }
            assert(mid.delayed.filter(keep) =~= mid.delayed);
            assert(mid.delayed == q0.delayed.filter(keep));
            assert forall|x: u64| mid.reclaim.contains(x) <==> q0.reclaim.union(
                q0.matured(now_ms),
            ).contains(x) by {
                if q0.matured(now_ms).contains(x) {
                    let t = choose|t: i64| t <= now_ms && #[trigger] q0.delayed.contains((t, x));
                    if mid.delayed.contains((t, x)) {
                        assert(keep((t, x)));
                    }
                }
            }
            assert(mid.reclaim =~= q0.reclaim.union(q0.matured(now_ms)));
        }
        let mut expired: Vec<u64> = Vec::new();
        let mut i: usize = 0;
        while i < self.leases.len()
            invariant
                self.wf(),
                self@ == mid,
                i <= self.leases.pairs().len(),
                forall|s: u64| #[trigger]
                    expired@.contains(s) <==> exists|k: int|
                        0 <= k < i && (#[trigger] self.leases.pairs()[k]).0 == s
                            && !self.leases.pairs()[k].1.holds(now_ms),
            decreases self.leases.pairs().len() - i,
        {
            let p = self.leases.at(i);
            let ghost e0 = expired@;
            if now_ms > p.1.deadline_ms {
                expired.push(p.0);
                assert(expired@ =~= e0.push(p.0));
            }
            proof {
                assert forall|s: u64| #[trigger] expired@.contains(s) <==> exists|k: int|
                    0 <= k < i + 1 && (#[trigger] self.leases.pairs()[k]).0 == s
                        && !self.leases.pairs()[k].1.holds(now_ms) by {
                    if expired@.contains(s) {
                        let m = choose|m: int| 0 <= m < expired@.len() && expired@[m] == s;
                        if m < e0.len() {
                            assert(e0.contains(s));
                        } else {
                            assert(self.leases.pairs()[i as int].0 == s);
                        }
                    }
                    if exists|k: int|
                        0 <= k < i + 1 && (#[trigger] self.leases.pairs()[k]).0 == s
                            && !self.leases.pairs()[k].1.holds(now_ms) {
                        let k = choose|k: int|
                            0 <= k < i + 1 && (#[trigger] self.leases.pairs()[k]).0 == s
                                && !self.leases.pairs()[k].1.holds(now_ms);
                        if k < i {
                            assert(e0.contains(s));
                            let m = choose|m: int| 0 <= m < e0.len() && e0[m] == s;
                            assert(expired@[m] == s);
                        } else {
                            assert(expired@[e0.len() as int] == s);
                        }
                    }
                }
            }
            i += 1;
        }
        proof {
            assert forall|s: u64| expired@.contains(s) <==> q0.expired(now_ms).contains(s) by {
                if expired@.contains(s) {
                    let k = choose|k: int|
                        0 <= k < i && (#[trigger] self.leases.pairs()[k]).0 == s
                            && !self.leases.pairs()[k].1.holds(now_ms);
                    self.leases.pair_in_map(k);
                }
                if q0.expired(now_ms).contains(s) {
                    let k = self.leases.key_in_list(s);
                    assert(self.leases.pairs()[k].0 == s);
                }
            }
        }
        let mut j: usize = 0;
        while j < expired.len()
            invariant
                self.wf(),
                j <= expired@.len(),
                self@.deliveries == mid.deliveries,
                self@.claim_cursor == mid.claim_cursor,
                self@.dead_lettered == mid.dead_lettered,
                self@.next_lease_id == mid.next_lease_id,
                self@.delayed == mid.delayed,
                self@.leases =~= mid.leases.remove_keys(expired@.take(j as int).to_set()),
                self@.reclaim =~= mid.reclaim.union(expired@.take(j as int).to_set()),
            decreases expired@.len() - j,
        {
            let seq: u64 = expired[j];
            let _ = self.leases.remove(seq);
            let _ = self.reclaim.insert(seq);
            proof {
                let a = expired@.take(j as int);
                let b = expired@.take(j + 1);
                assert(b =~= a.push(seq));
                assert(b.to_set() =~= a.to_set().insert(seq)) by {
                    assert forall|x: u64| b.contains(x) <==> a.contains(x) || x == seq by {
                        if a.contains(x) {
                            let m = choose|m: int| 0 <= m < a.len() && a[m] == x;
                            assert(b[m] == x);
                        }
                        assert(b[j as int] == seq);
                    }
                }
            }
            j += 1;
        }
        proof {
            assert(expired@.take(j as int) =~= expired@);
            assert(expired@.to_set() =~= q0.expired(now_ms));
            assert(self@.leases =~= q0.swept(now_ms).leases);
            assert(self@.reclaim =~= q0.swept(now_ms).reclaim);
        }
    }

    /// How many leases hold at `now_ms`.
    pub fn in_flight(&self, now_ms: i64) -> (r: u64)
        requires
            self.wf(),
        ensures
            r == self@.leases.dom().filter(|s: u64| self@.leases[s].holds(now_ms)).len(),
    {
        let mut n: u64 = 0;
        let mut i: usize = 0;
        let ghost p = |s: u64| self@.leases[s].holds(now_ms);
        let ghost ks = keys_of(self.leases.pairs());
        while i < self.leases.len()
            invariant
                self.wf(),
                p == (|s: u64| self@.leases[s].holds(now_ms)),
                ks == keys_of(self.leases.pairs()),
                i <= self.leases.pairs().len(),
                n <= i,
                n == count_where(ks.take(i as int), p),
            decreases self.leases.pairs().len() - i,
        {
            let e = self.leases.at(i);
            proof {
                self.leases.pair_in_map(i as int);
                assert(ks.take(i + 1).drop_last() =~= ks.take(i as int));
                assert(ks.take(i + 1).last() == e.0);
            }
            if now_ms <= e.1.deadline_ms {
                n += 1;
            }
            i += 1;
        }
        proof {
            assert(ks.take(i as int) =~= ks);
            self.leases.keys_are_domain();
            count_is_size(ks, p);
        }
        n
    }

    /// Keeps a lease from being given out.
    pub(crate) fn pass_lease(&mut self, lease_id: u64)
        requires
            old(self).wf(),
            lease_id < u64::MAX,
        ensures
            final(self).wf(),
            final(self)@ == old(self)@.past_lease(lease_id),
    {
        if lease_id >= self.next_lease_id {
            self.next_lease_id = lease_id + 1;
        }
    }

    /// Applies a logged event of a lease: 0 claimed, 1 released, 2 extended,
    /// 3 acknowledged. An event of any lease but the current one changes nothing,
    /// except that no lease is given out twice.
    pub fn apply_lease_event(
        &mut self,
        event: u8,
        seq: u64,
        node: String,
        lease_id: u64,
        deadline_ms: i64,
        deliveries: u64,
    )
        requires
            old(self).wf(),
            lease_id < u64::MAX,
            event == 0 ==> seq < u64::MAX,
        ensures
            final(self).wf(),
            final(self)@ == old(self)@.after_event(
                event,
                seq,
                node,
                lease_id,
                deadline_ms,
                deliveries,
            ),
    {
        self.pass_lease(lease_id);
        if event == 0 {
            self.deliveries.insert(seq, deliveries);
            self.leases.insert(seq, Lease { node, lease_id, deadline_ms, by_work_conn: None });
            if seq >= self.claim_cursor {
                self.claim_cursor = seq + 1;
            }
            return;
        }
        let current = match self.leases.get(seq) {
            Some(l) => l.lease_id == lease_id,
            None => false,
        };
        if !current {
            return;
        }
        if event == 1 {
            let _ = self.leases.remove(seq);
            self.push_reclaim(seq);
        } else if event == 2 {
            match self.leases.remove(seq) {
                Some(l) => {
                    self.leases.insert(
                        seq,
                        Lease {
                            node: l.node,
                            lease_id: l.lease_id,
                            deadline_ms,
                            by_work_conn: l.by_work_conn,
                        },
                    );
                    assert(self.leases@ =~= old(self)@.leases.insert(
                        seq,
                        Lease { deadline_ms, ..old(self)@.leases[seq] },
                    ));
                },
                None => {},
            }
        } else if event == 3 {
            let _ = self.leases.remove(seq);
            let _ = self.deliveries.remove(seq);
        }
    }
}

/// A request that names too many sequence numbers is refused.
pub fn check_seqs_len(seqs: &[u64]) -> (r: Result<(), Error>)
    ensures
        seqs@.len() <= MAX_CLAIM ==> r is Ok,
        seqs@.len() > MAX_CLAIM ==> r is Err && r->Err_0.code == ErrorCode::BatchTooLarge
            && r->Err_0.detail == (ErrorDetail::Batch {
            given: seqs@.len() as u64,
            max: MAX_CLAIM as u64,
        }),
{
    if seqs.len() > MAX_CLAIM as usize {
        return Err(
            Error::with_detail(
                ErrorCode::BatchTooLarge,
                ErrorDetail::Batch { given: seqs.len() as u64, max: MAX_CLAIM as u64 },
            ),
        );
    }
    Ok(())
}

/// A request with lease tokens has one for each sequence number, or none at all.
pub fn check_lease_ids_len(seqs: &[u64], lease_ids: &[Option<u64>]) -> (r: Result<(), Error>)
    ensures
        lease_ids@.len() == 0 || lease_ids@.len() == seqs@.len() ==> r is Ok,
        lease_ids@.len() != 0 && lease_ids@.len() != seqs@.len() ==> r is Err && r->Err_0.code
            == ErrorCode::InvalidRequest && r->Err_0.detail is Plain,
{
    if lease_ids.len() != 0 && lease_ids.len() != seqs.len() {
        return Err(Error::new(ErrorCode::InvalidRequest));
    }
    Ok(())
}

/// The token given for the `i`-th job, if any, is the one held.
pub open spec fn token_ok(lease_ids: Seq<Option<u64>>, i: int, held: u64) -> bool {
    0 <= i < lease_ids.len() && lease_ids[i] is Some ==> lease_ids[i] == Some(held)
}

/// Whether the token given for the `i`-th job, if any, is the one held.
pub fn lease_token_ok(lease_ids: &[Option<u64>], i: usize, held: u64) -> (r: bool)
    ensures
        r == token_ok(lease_ids@, i as int, held),
{
    if i < lease_ids.len() {
        match lease_ids[i] {
            Some(want) => want == held,
            None => true,
        }
    } else {
        true
    }
}

/// A job can be handed out: nobody holds it, and its record is there.
pub open spec fn claimable(q: QueueView, live: Set<u64>, seq: u64) -> bool {
    &&& !q.leases.contains_key(seq)
    &&& live.contains(seq)
}

/// A job that came back and can be handed out.
pub open spec fn returned(q: QueueView, live: Set<u64>, seq: u64) -> bool {
    q.reclaim.contains(seq) && claimable(q, live, seq)
}

/// A job up to `head` that was never handed out and can be.
pub open spec fn untouched(q: QueueView, live: Set<u64>, head: u64, seq: u64) -> bool {
    q.claim_cursor <= seq <= head && claimable(q, live, seq)
}

/// The next job to hand out, and the queue without it: the lowest that came back,
/// else the lowest never handed out. What cannot be handed out is passed over for
/// good.
pub open spec fn claims_next(
    q: QueueView,
    live: Set<u64>,
    head: u64,
    r: Option<u64>,
    q2: QueueView,
) -> bool {
    if exists|s: u64| #[trigger] returned(q, live, s) {
        &&& r is Some
        &&& returned(q, live, r->0)
        &&& forall|s: u64| #[trigger] returned(q, live, s) ==> r->0 <= s
        &&& q2 == QueueView { reclaim: q.reclaim.filter(|s: u64| s > r->0), ..q }
    } else if exists|s: u64| #[trigger] untouched(q, live, head, s) {
        &&& r is Some
        &&& untouched(q, live, head, r->0)
        &&& forall|s: u64| #[trigger] untouched(q, live, head, s) ==> r->0 <= s
        &&& q2 == QueueView { reclaim: Set::empty(), claim_cursor: (r->0 + 1) as u64, ..q }
    } else {
        &&& r is None
        &&& q2 == QueueView {
            reclaim: Set::empty(),
            claim_cursor: max64(q.claim_cursor, (head + 1) as u64),
            ..q
        }
    }
}

/// Takes the next job to hand out.
pub fn next_claimable(q: &mut QueueProjection, index: &TopicIndex, head: u64) -> (r: Option<u64>)
    requires
        old(q).wf(),
        head < u64::MAX,
    ensures
        final(q).wf(),
        claims_next(old(q)@, index.live_set(), head, r, final(q)@),
{
    let ghost q0 = q@;
    let ghost live = index.live_set();
    loop
        invariant
            q.wf(),
            live == index.live_set(),
            head < u64::MAX,
            q@ == (QueueView { reclaim: q@.reclaim, ..q0 }),
            forall|s: u64| #[trigger] q@.reclaim.contains(s) ==> q0.reclaim.contains(s),
            forall|s: u64, t: u64| #[trigger]
                q0.reclaim.contains(s) && !q@.reclaim.contains(s) && #[trigger]
                q@.reclaim.contains(t) ==> s < t,
            forall|s: u64| #[trigger]
                q0.reclaim.contains(s) && !q@.reclaim.contains(s) ==> !claimable(q0, live, s),
            old(q)@ == q0,
        ensures
            q@.reclaim == Set::<u64>::empty(),
        decreases q.reclaim.list().len(),
    {
        let ghost before = q@;
        match q.pop_reclaim() {
            None => {
                break;
            },
            Some(seq) => {
                proof {
                    assert(q0.reclaim.contains(seq));
                    assert forall|s: u64, t: u64| #[trigger]
                        q0.reclaim.contains(s) && !q@.reclaim.contains(s) && #[trigger]
                        q@.reclaim.contains(t) implies s < t by {
                        assert(before.reclaim.contains(t));
                        if before.reclaim.contains(s) {
                            assert(s == seq);
                        }
                    }
                }
                if q.leases.contains_key(seq) {
                    continue;
                }
                match index.get(seq) {
                    Some(rec) => {
                        if !rec.deleted {
                            proof {
                                assert(returned(q0, live, seq));
                                assert forall|s: u64| #[trigger] returned(q0, live, s) implies seq <= s by {
                                    if before.reclaim.contains(s) {
                                    } else {
                                        assert(!claimable(q0, live, s));
                                    }
                                }
                                assert(q@.reclaim =~= q0.reclaim.filter(|s: u64| s > seq));
                            }
                            return Some(seq);
                        }
                    },
                    None => {},
                }
            },
        }
    }
    assert(forall|s: u64| !#[trigger] returned(q0, live, s));
    while q.claim_cursor <= head
        invariant
            q.wf(),
            live == index.live_set(),
            head < u64::MAX,
            q0.claim_cursor <= q@.claim_cursor,
            q@.claim_cursor <= max64(q0.claim_cursor, (head + 1) as u64),
            q@ == (QueueView { reclaim: Set::empty(), claim_cursor: q@.claim_cursor, ..q0 }),
            forall|s: u64| #[trigger] untouched(q0, live, head, s) ==> q@.claim_cursor <= s,
            old(q)@ == q0,
            forall|s: u64| !#[trigger] returned(q0, live, s),
        decreases head + 1 - q.claim_cursor,
    {
        let seq: u64 = q.claim_cursor;
        q.claim_cursor = q.claim_cursor + 1;
        if q.leases.contains_key(seq) {
            assert(!untouched(q0, live, head, seq));
            continue;
        }
        match index.get(seq) {
            Some(rec) => {
                if !rec.deleted {
                    assert(untouched(q0, live, head, seq));
                    return Some(seq);
                }
            },
            None => {},
        }
        assert(!untouched(q0, live, head, seq));
    }
    None
}

/// Where some number has a property, some number is the least that has it.
pub proof fn least_exists(p: spec_fn(u64) -> bool, x: u64) -> (m: u64)
    requires
        p(x),
    ensures
        p(m),
        forall|y: u64| #[trigger] p(y) ==> m <= y,
    decreases x,
{
    if exists|y: u64| #[trigger] p(y) && y < x {
        let y = choose|y: u64| #[trigger] p(y) && y < x;
        least_exists(p, y)
    } else {
        x
    }
}

/// The search for the next job has an outcome.
pub proof fn next_job_exists(q: QueueView, live: Set<u64>, head: u64) -> (r: (
    Option<u64>,
    QueueView,
))
    ensures
        claims_next(q, live, head, r.0, r.1),
{
    if exists|s: u64| #[trigger] returned(q, live, s) {
        let s = choose|s: u64| #[trigger] returned(q, live, s);
        let m = least_exists(|y: u64| returned(q, live, y), s);
        assert forall|y: u64| #[trigger] returned(q, live, y) implies m <= y by {
            assert((|y: u64| returned(q, live, y))(y));
        }
        (Some(m), QueueView { reclaim: q.reclaim.filter(|s: u64| s > m), ..q })
    } else if exists|s: u64| #[trigger] untouched(q, live, head, s) {
        let s = choose|s: u64| #[trigger] untouched(q, live, head, s);
        let m = least_exists(|y: u64| untouched(q, live, head, y), s);
        assert forall|y: u64| #[trigger] untouched(q, live, head, y) implies m <= y by {
            assert((|y: u64| untouched(q, live, head, y))(y));
        }
        (Some(m), QueueView { reclaim: Set::empty(), claim_cursor: (m + 1) as u64, ..q })
    } else {
        (
            None,
            QueueView {
                reclaim: Set::empty(),
                claim_cursor: max64(q.claim_cursor, (head + 1) as u64),
                ..q
            },
        )
    }
}

/// There is one next job.
pub proof fn next_job_is_unique(
    q: QueueView,
    live: Set<u64>,
    head: u64,
    r1: Option<u64>,
    q1: QueueView,
    r2: Option<u64>,
    q2: QueueView,
)
    requires
        claims_next(q, live, head, r1, q1),
        claims_next(q, live, head, r2, q2),
    ensures
        r1 == r2,
        q1 == q2,
{
    if exists|s: u64| #[trigger] returned(q, live, s) {
        assert(returned(q, live, r1->0) && returned(q, live, r2->0));
        assert(q1.reclaim =~= q2.reclaim);
    } else if exists|s: u64| #[trigger] untouched(q, live, head, s) {
        assert(untouched(q, live, head, r1->0) && untouched(q, live, head, r2->0));
    }
}

/// How much is left to look at when the next job is searched.
pub open spec fn search_left(q: QueueView, head: u64) -> nat {
    q.reclaim.len() + if q.claim_cursor <= head {
        (head + 1 - q.claim_cursor) as nat
    } else {
        0
    }
}

/// With each job found there is less left to look at.
pub proof fn search_ends(q: QueueView, live: Set<u64>, head: u64, seq: u64, q2: QueueView)
    requires
        q.reclaim.finite(),
        head < u64::MAX,
        claims_next(q, live, head, Some(seq), q2),
    ensures
        q2.reclaim.finite(),
        search_left(q2, head) < search_left(q, head),
{
    if exists|s: u64| #[trigger] returned(q, live, s) {
        assert(returned(q, live, seq));
        let rest = q.reclaim.filter(|s: u64| s > seq);
        assert(rest.subset_of(q.reclaim.remove(seq)));
        vstd::set_lib::lemma_len_subset(rest, q.reclaim.remove(seq));
    } else {
        assert(untouched(q, live, head, seq));
        assert(Set::<u64>::empty().len() == 0);
    }
}

/// An event of a lease that is not the current one, or of a kind that is not known,
/// changes nothing, but that the lease is not given out.
pub proof fn stale_event_is_ignored(
    q: QueueView,
    event: u8,
    seq: u64,
    node: String,
    lease_id: u64,
    deadline_ms: i64,
    deliveries: u64,
)
    requires
        event != 0,
        lease_id < u64::MAX,
        event > 3 || !q.held_as(seq, lease_id),
    ensures
        ({
            let r = q.after_event(event, seq, node, lease_id, deadline_ms, deliveries);
            &&& r == (QueueView { next_lease_id: r.next_lease_id, ..q })
            &&& r.next_lease_id == max64(q.next_lease_id, (lease_id + 1) as u64)
        }),
{
}

/// Whatever events are applied, no lease that was logged is given out again.
pub proof fn lease_ids_stay_fresh(
    q: QueueView,
    event: u8,
    seq: u64,
    node: String,
    lease_id: u64,
    deadline_ms: i64,
    deliveries: u64,
)
    requires
        lease_id < u64::MAX,
    ensures
        ({
            let r = q.after_event(event, seq, node, lease_id, deadline_ms, deliveries);
            &&& r.next_lease_id > lease_id
            &&& r.next_lease_id >= q.next_lease_id
        }),
{
}

/// After a sweep every lease that is left holds, and every job whose lease ran
/// out is up for reclaim.
pub proof fn sweep_returns_expired_jobs(q: QueueView, now: i64, seq: u64)
    requires
        q.leases.contains_key(seq),
    ensures
        q.leases[seq].holds(now) ==> q.swept(now).leases.contains_key(seq) && q.swept(
            now,
        ).leases[seq] == q.leases[seq],
        !q.leases[seq].holds(now) ==> !q.swept(now).leases.contains_key(seq) && q.swept(
            now,
        ).reclaim.contains(seq),
{
}

/// Sweeping again at the same time changes nothing.
pub proof fn sweep_is_idempotent(q: QueueView, now: i64)
    ensures
        q.swept(now).swept(now) == q.swept(now),
{
    let s = q.swept(now);
    assert(s.expired(now) =~= Set::<u64>::empty());
    assert(s.matured(now) =~= Set::<u64>::empty()) by {
        assert forall|x: u64| !s.matured(now).contains(x) by {
            if s.matured(now).contains(x) {
                let t = choose|t: i64| t <= now && #[trigger] s.delayed.contains((t, x));
                assert(s.delayed.count((t, x)) > 0);
            }
        }
    }
    assert(s.delayed.filter(|d: (i64, u64)| d.0 > now) =~= s.delayed);
    assert(s.swept(now).leases =~= s.leases);
    assert(s.swept(now).reclaim =~= s.reclaim);
}

/// No job is handed out while somebody holds it.
pub proof fn no_job_is_held_twice(
    q: QueueView,
    live: Set<u64>,
    head: u64,
    seq: u64,
    q2: QueueView,
)
    requires
        claims_next(q, live, head, Some(seq), q2),
    ensures
        !q.leases.contains_key(seq),
        live.contains(seq),
{
    if exists|s: u64| #[trigger] returned(q, live, s) {
        assert(returned(q, live, seq));
    } else {
        assert(untouched(q, live, head, seq));
    }
}

} // verus!
