//! Forwarding: what is written to a topic goes on along the routers that read
//! from it.
use crate::append::{staged_append_can_finish, PendingAppend};
use crate::config::MAX_ROUTER_HOPS;
use crate::engine::{Engine, EngineView};
use crate::engine_laws::{copies_are_live, landed_rests, topic_keeps_quiet};
use crate::eviction::{admission, admitted, AdmitDecision};
use crate::names::in_order;
use crate::router::{number, reading};
use crate::topic_index::{bytes_in, StoredRecord};
use crate::topic_laws::retention_keeps;
use crate::topic_state::TopicView;
use crate::types::{copy_json, copy_text, Discard, Json, Router};
use crate::write::{build_stored_owned, record_refusal, stored_record};
use vstd::prelude::*;

verus! {

/// A record on its way along the routers.
#[derive(Debug)]
pub struct ForwardRecord {
    pub data: Json,
    pub tag: Option<String>,
    pub node: Option<String>,
    pub meta: Option<Json>,
}

/// Stored records set out along the routers.
pub open spec fn setting_out(recs: Seq<StoredRecord>) -> Seq<ForwardRecord> {
    recs.map_values(
        |s: StoredRecord|
            ForwardRecord { data: s.data->0, tag: s.tag, node: s.node, meta: s.meta },
    )
}

/// What a router makes of a record: it may drop the node and the tag.
pub open spec fn carried(r: Router, rec: ForwardRecord) -> ForwardRecord {
    ForwardRecord {
        node: if r.preserve_node {
            rec.node
        } else {
            None
        },
        tag: if r.preserve_tag {
            rec.tag
        } else {
            None
        },
        ..rec
    }
}

/// A router lets a record pass: it has no filter, or the record has a tag that the
/// filter selects.
pub open spec fn passes(r: Router, rec: ForwardRecord) -> bool {
    let c = carried(r, rec);
    &&& match r.filter {
        Some(f) => rec.tag is Some && f.selects(rec.tag->0@),
        None => true,
    }
    &&& record_refusal(c.data, c.tag, c.node, c.meta) is None
}

/// What a router makes of a list of records, in order.
pub open spec fn carried_all(r: Router, recs: Seq<ForwardRecord>) -> Seq<ForwardRecord>
    decreases recs.len(),
{
    if recs.len() == 0 {
        Seq::empty()
    } else {
        let earlier = carried_all(r, recs.drop_last());
        if passes(r, recs.last()) {
            earlier.push(carried(r, recs.last()))
        } else {
            earlier
        }
    }
}

/// Forwarded records as the destination stores them.
pub open spec fn copies(recs: Seq<ForwardRecord>, now: i64, hops: u8) -> Seq<StoredRecord> {
    recs.map_values(
        |r: ForwardRecord| stored_record(r.data, r.tag, r.node, r.meta, now, hops),
    )
}

/// The routers that read from a topic, in the order of their names.
pub open spec fn routes(v: EngineView, source: Seq<char>) -> Seq<Router> {
    in_order(reading(v.routers.routers, source)).map_values(|n: Seq<char>| v.routers.routers[n])
}

/// The head of a topic, `0` where it is not there.
pub open spec fn head_of(v: EngineView, name: Seq<char>) -> u64 {
    if v.topics.contains_key(name) {
        v.topics[name].head
    } else {
        0
    }
}

/// The destination takes the copies: it is not a full topic that refuses them, and
/// there are sequence numbers, bytes and counts left for them.
pub open spec fn takes(v: EngineView, r: Router, d: TopicView, recs: Seq<StoredRecord>) -> bool {
    &&& d.config.discard == Discard::Reject ==> admitted(
        d.config.discard,
        d.config.cap_records,
        d.config.cap_bytes,
        d.live,
        d.bytes,
        recs.len() as u64,
        crate::topic_state::cap64(bytes_in(recs)),
    )
    &&& d.room(recs.len(), bytes_in(recs) + 1)
    &&& number(v.routers.totals, r.name@) + recs.len() <= u64::MAX
}

/// The destination of a router when it is asked to take copies.
pub open spec fn ready_dest(v: EngineView, r: Router, now: i64) -> TopicView {
    let d = v.topics[r.dest@];
    if d.config.discard == Discard::Reject {
        d.retained(now)
    } else {
        d
    }
}

/// One router forwards what it lets pass of a list of records.
pub open spec fn forward_step(
    v: EngineView,
    source: Seq<char>,
    r: Router,
    recs: Seq<ForwardRecord>,
    now: i64,
    hops: u8,
) -> EngineView {
    let out = carried_all(r, recs);
    let stored = copies(out, now, (hops + 1) as u8);
    let d = ready_dest(v, r, now);
    let v1 = v.with_topic(d.landed(stored, now));
    EngineView {
        routers: v1.routers.noted(r.name@, head_of(v1, source), out.len() as u64),
        ..v1
    }
}

/// Copies on their way into a destination, which wait for the log.
#[derive(Debug)]
pub struct PendingForward {
    pub append: PendingAppend,
    pub router: String,
    pub source: String,
    /// What the router let pass, to go on from the destination.
    pub next: Vec<ForwardRecord>,
}

impl PendingForward {
    /// It stands for what a router lets pass of a list of records.
    pub open spec fn from(
        self,
        v: EngineView,
        source: Seq<char>,
        r: Router,
        recs: Seq<ForwardRecord>,
        now: i64,
        hops: u8,
    ) -> bool {
        let out = carried_all(r, recs);
        &&& self.append.stages(ready_dest(v, r, now), copies(out, now, (hops + 1) as u8))
        &&& self.router@ == r.name@
        &&& self.source@ == source
        &&& self.next@ == out
    }
}

impl EngineView {
    /// A router forwards something of a list of records: its destination is there,
    /// it lets some pass, and the destination takes them.
    pub open spec fn forwards(self, r: Router, recs: Seq<ForwardRecord>, now: i64, hops: u8) -> bool {
        let out = carried_all(r, recs);
        &&& self.topics.contains_key(r.dest@)
        &&& out.len() > 0
        &&& takes(self, r, ready_dest(self, r, now), copies(out, now, (hops + 1) as u8))
    }

    /// The engine with the copies of a router staged in its destination, where it
    /// forwards something.
    pub open spec fn forward_begun(
        self,
        r: Router,
        recs: Seq<ForwardRecord>,
        now: i64,
        hops: u8,
    ) -> EngineView {
        let out = carried_all(r, recs);
        let d = ready_dest(self, r, now);
        if !self.topics.contains_key(r.dest@) || out.len() == 0 {
            self
        } else if !self.forwards(r, recs, now, hops) {
            self.with_topic(d)
        } else {
            self.with_topic(d.staged(copies(out, now, (hops + 1) as u8)).ticketed())
        }
    }

    /// It is the turn of copies, and the router can count them.
    pub open spec fn forward_ready(self, p: PendingForward) -> bool {
        &&& self.append_ready(p.append)
        &&& number(self.routers.totals, p.router@) + p.append.staged.count <= u64::MAX
    }

    /// The engine once it is known whether copies could be logged. The router moves
    /// on only where they can be read.
    pub open spec fn forward_done(self, p: PendingForward, committed: bool, now: i64) -> EngineView {
        let v = self.append_done(p.append, committed, now);
        if committed && self.holds_append(p.append) {
            EngineView {
                routers: v.routers.noted(
                    p.router@,
                    head_of(v, p.source@),
                    p.append.staged.count,
                ),
                ..v
            }
        } else {
            v
        }
    }
}

/// What is written to a topic goes on along the routers that read from it, and
/// from their destinations on, up to a number of hops.
pub open spec fn forwarded(
    v: EngineView,
    source: Seq<char>,
    recs: Seq<ForwardRecord>,
    now: i64,
    hops: u8,
) -> EngineView
    decreases MAX_ROUTER_HOPS - hops, 1int, 0int,
{
    if hops >= MAX_ROUTER_HOPS {
        v
    } else {
        forwarded_along(v, source, routes(v, source), recs, now, hops)
    }
}

/// What is written to a topic goes on along a list of routers, one after the other.
/// A router whose destination is gone, or does not take what the router lets pass,
/// leaves it in the source.
pub open spec fn forwarded_along(
    v: EngineView,
    source: Seq<char>,
    routers: Seq<Router>,
    recs: Seq<ForwardRecord>,
    now: i64,
    hops: u8,
) -> EngineView
    decreases MAX_ROUTER_HOPS - hops, 0int, routers.len(),
{
    if hops >= MAX_ROUTER_HOPS || routers.len() == 0 {
        v
    } else {
        let r = routers[0];
        let out = carried_all(r, recs);
        let v2 = if !v.topics.contains_key(r.dest@) || out.len() == 0 {
            v
        } else {
            let d = ready_dest(v, r, now);
            if !takes(v, r, d, copies(out, now, (hops + 1) as u8)) {
                v.with_topic(d)
            } else {
                forwarded(
                    forward_step(v, source, r, recs, now, hops),
                    r.dest@,
                    out,
                    now,
                    (hops + 1) as u8,
                )
            }
        };
        forwarded_along(v2, source, routers.drop_first(), recs, now, hops)
    }
}

impl ForwardRecord {
    /// An equal record.
    pub fn copy(&self) -> (r: ForwardRecord)
        ensures
            r == *self,
    {
        ForwardRecord {
            data: self.data.copy(),
            tag: copy_text(&self.tag),
            node: copy_text(&self.node),
            meta: copy_json(&self.meta),
        }
    }
}

/// Picks what a router lets pass, and makes the copies for its destination, with
/// their size.
pub fn select_for(r: &Router, records: &Vec<ForwardRecord>, now: i64, hops: u8) -> (p: (
    Vec<ForwardRecord>,
    Vec<StoredRecord>,
    u64,
))
    ensures
        p.0@ == carried_all(*r, records@),
        p.1@ == copies(p.0@, now, hops),
        p.2 == crate::topic_state::cap64(bytes_in(p.1@)),
        forall|i: int| 0 <= i < p.1@.len() ==> (#[trigger] p.1@[i]).ok() && !p.1@[i].deleted,
{
    let mut next: Vec<ForwardRecord> = Vec::new();
    let mut stored: Vec<StoredRecord> = Vec::new();
    let mut bytes: u64 = 0;
    let mut i: usize = 0;
    assert(records@.take(0) =~= Seq::<ForwardRecord>::empty());
    assert(copies(next@, now, hops) =~= stored@);
    while i < records.len()
        invariant
            i <= records@.len(),
            next@ == carried_all(*r, records@.take(i as int)),
            stored@ == copies(next@, now, hops),
            bytes == crate::topic_state::cap64(bytes_in(stored@)),
            forall|j: int|
                0 <= j < stored@.len() ==> (#[trigger] stored@[j]).ok() && !stored@[j].deleted,
        decreases records@.len() - i,
    {
        let rec = &records[i];
        proof {
            let a = records@.take(i as int);
            let b = records@.take(i + 1);
            assert(b.drop_last() =~= a);
            assert(b.last() == *rec);
        }
        let wanted = match &r.filter {
            Some(f) => match &rec.tag {
                Some(t) => f.matches(t.as_str()),
                None => false,
            },
            None => true,
        };
        if wanted {
            let c = ForwardRecord {
                data: rec.data.copy(),
                tag: if r.preserve_tag {
                    copy_text(&rec.tag)
                } else {
                    None
                },
                node: if r.preserve_node {
                    copy_text(&rec.node)
                } else {
                    None
                },
                meta: copy_json(&rec.meta),
            };
            assert(c == carried(*r, *rec));
            match build_stored_owned(
                c.data.copy(),
                copy_text(&c.tag),
                copy_text(&c.node),
                copy_json(&c.meta),
                now,
                hops,
            ) {
                Ok(s) => {
                    let ghost s0 = stored@;
                    bytes = bytes.saturating_add(s.bytes);
                    stored.push(s);
                    next.push(c);
                    proof {
                        assert(stored@.drop_last() =~= s0);
                        assert(copies(next@, now, hops) =~= stored@);
                    }
                },
                Err(_) => {},
            }
        }
        i += 1;
    }
    assert(records@.take(i as int) =~= records@);
    (next, stored, bytes)
}

impl Engine {
    /// The routers along which what is written to a topic goes on, in order. A record
    /// that has come a long way stops.
    pub fn forward_routes(&self, source: &str, hops: u8) -> (r: Vec<Router>)
        requires
            self.wf(),
        ensures
            r@ == (if hops < MAX_ROUTER_HOPS {
                routes(self@, source@)
            } else {
                Seq::empty()
            }),
    {
        if hops >= MAX_ROUTER_HOPS {
            return Vec::new();
        }
        let rs = self.routers.routers_for_source(source);
        assert(rs@ =~= routes(self@, source@));
        rs
    }

    /// Stages what a router lets pass of a list of records in its destination. There
    /// is nothing to log where the router lets nothing pass, or its destination is
    /// gone or does not take it.
    pub fn begin_forward(
        &mut self,
        source: &str,
        r: &Router,
        records: &Vec<ForwardRecord>,
        now: i64,
        hops: u8,
    ) -> (p: Option<PendingForward>)
        requires
            old(self).wf(),
            hops < MAX_ROUTER_HOPS,
        ensures
            final(self).wf(),
            final(self)@ == old(self)@.forward_begun(*r, records@, now, hops),
            p is Some <==> old(self)@.forwards(*r, records@, now, hops),
            p is Some ==> p->0.from(old(self)@, source@, *r, records@, now, hops),
    {
        let ghost v = self@;
        let (next, stored, bytes) = select_for(r, records, now, hops + 1);
        if next.len() == 0 {
            return None;
        }
        let mut d = match self.take_topic(r.dest.as_str()) {
            Some(d) => d,
            None => {
                return None;
            },
        };
        proof {
            retention_keeps(d@, now);
        }
        let n: u64 = stored.len() as u64;
        let mut ok = true;
        if d.config.discard == Discard::Reject {
            let _ = d.enforce_retention(now);
            ok = match admission(
                d.config.discard,
                d.config.cap_records,
                d.config.cap_bytes,
                d.count(),
                d.bytes(),
                n,
                bytes,
            ) {
                AdmitDecision::Admit => true,
                AdmitDecision::Reject => false,
            };
        }
        assert(d@ == ready_dest(v, *r, now));
        let tail: u64 = d.index.base_seq + d.index.records.len() as u64;
        let total: u64 = self.routers.forwarded_total(r.name.as_str());
        if !ok || n > u64::MAX - tail || n > u64::MAX - d.count() || bytes >= u64::MAX - d.bytes()
            || n > u64::MAX - total {
            self.put_topic(d);
            proof {
                assert(self@.topics =~= v.topics.insert(r.dest@, d@));
            }
            return None;
        }
        let append = d.begin_append(stored);
        self.put_topic(d);
        proof {
            assert(self@.topics =~= v.topics.insert(r.dest@, d@));
        }
        Some(
            PendingForward {
                append,
                router: r.name.clone(),
                source: source.to_owned(),
                next,
            },
        )
    }

    /// Whether copies can be made readable or be taken back now.
    pub fn can_finish_forward(&self, p: &PendingForward) -> (r: bool)
        requires
            self.wf(),
        ensures
            r == self@.forward_ready(*p),
    {
        self.can_finish_append(&p.append) && p.append.staged.count <= u64::MAX
            - self.routers.forwarded_total(p.router.as_str())
    }

    /// Makes copies readable once they are logged, and moves the router on; or takes
    /// them back, and leaves the router where it is. What goes on from the
    /// destination is handed back.
    pub fn finish_forward(&mut self, p: PendingForward, committed: bool, now: i64) -> (r: Vec<
        ForwardRecord,
    >)
        requires
            old(self).wf(),
            old(self)@.forward_ready(p),
            p.append.staged.fits(),
        ensures
            final(self).wf(),
            final(self)@ == old(self)@.forward_done(p, committed, now),
            r@ == (if committed && old(self)@.holds_append(p.append) {
                p.next@
            } else {
                Seq::empty()
            }),
    {
        if !self.finish_append(&p.append, committed, now) {
            return Vec::new();
        }
        let src_head: u64 = match self.get_box(p.source.as_str()) {
            Some(s) => s.head_seq(),
            None => 0,
        };
        self.routers.note_forwarded(p.router.as_str(), src_head, p.append.staged.count);
        p.next
    }

    /// Forwards records along one router, without a log. What goes on from the
    /// destination is handed back.
    fn forward_one(
        &mut self,
        source: &str,
        r: &Router,
        records: &Vec<ForwardRecord>,
        now: i64,
        hops: u8,
    ) -> (p: Vec<ForwardRecord>)
        requires
            old(self).wf(),
            old(self)@.quiet(),
            hops < MAX_ROUTER_HOPS,
        ensures
            final(self).wf(),
            final(self)@.quiet(),
            ({
                let v = old(self)@;
                if v.forwards(*r, records@, now, hops) {
                    &&& p@ == carried_all(*r, records@)
                    &&& final(self)@ == forward_step(v, source@, *r, records@, now, hops)
                } else {
                    &&& p@.len() == 0
                    &&& final(self)@ == v.forward_begun(*r, records@, now, hops)
                }
            }),
    {
        let ghost v = self@;
        let ghost out = carried_all(*r, records@);
        let ghost stored = copies(out, now, (hops + 1) as u8);
        let ghost d = ready_dest(v, *r, now);
        proof {
            self.wf_ok();
            if v.topics.contains_key(r.dest@) {
                assert(v.topics[r.dest@].idle());
                retention_keeps(v.topics[r.dest@], now);
            }
        }
        match self.begin_forward(source, r, records, now, hops) {
            Some(p) => {
                proof {
                    assert(stored.len() == out.len());
                    staged_append_can_finish(v, d, stored, p.append, now);
                    copies_are_live(out, now, (hops + 1) as u8);
                    landed_rests(d, stored, now);
                    topic_keeps_quiet(v, d.landed(stored, now), v.total);
                }
                let next = self.finish_forward(p, true, now);
                assert(self@ == forward_step(v, source@, *r, records@, now, hops));
                assert(self@.topics == v.with_topic(d.landed(stored, now)).topics);
                next
            },
            None => {
                proof {
                    if v.topics.contains_key(r.dest@) {
                        topic_keeps_quiet(v, d, v.total);
                    }
                }
                Vec::new()
            },
        }
    }

    /// Forwards records from a topic along the routers that read from it, and on
    /// from their destinations, without a log.
    pub fn forward_from(
        &mut self,
        source: &str,
        records: &Vec<ForwardRecord>,
        now: i64,
        hops: u8,
    )
        requires
            old(self).wf(),
            old(self)@.quiet(),
        ensures
            final(self).wf(),
            final(self)@.quiet(),
            final(self)@ == forwarded(old(self)@, source@, records@, now, hops),
        decreases MAX_ROUTER_HOPS - hops,
    {
        if hops >= MAX_ROUTER_HOPS {
            return;
        }
        let rs = self.forward_routes(source, hops);
        let ghost v0 = self@;
        let ghost all = routes(v0, source@);
        assert(all.skip(0) =~= all);
        let mut i: usize = 0;
        while i < rs.len()
            invariant
                self.wf(),
                self@.quiet(),
                hops < MAX_ROUTER_HOPS,
                i <= rs@.len(),
                rs@ == all,
                forwarded(v0, source@, records@, now, hops) == forwarded_along(
                    self@,
                    source@,
                    all.skip(i as int),
                    records@,
                    now,
                    hops,
                ),
            decreases rs@.len() - i,
        {
            let r = &rs[i];
            let ghost rest = all.skip(i as int);
            proof {
                assert(rest[0] == *r);
                assert(rest.drop_first() =~= all.skip(i + 1));
            }
            let next = self.forward_one(source, r, records, now, hops);
            if next.len() > 0 {
                self.forward_from(r.dest.as_str(), &next, now, hops + 1);
            }
            i += 1;
        }
    }
}

} // verus!
