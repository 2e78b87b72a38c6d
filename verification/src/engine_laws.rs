//! What holds of the engine whatever is asked of it.
use crate::config::{MAX_ROUTER_HOPS, SEQ_BASE};
use crate::delete::DeleteRequest;
use crate::engine::EngineView;
use crate::eviction::{after, sat_sub};
use crate::filters::own_record;
use crate::forward::{carried, carried_all, copies, forward_step, forwarded, forwarded_along, passes,
    ready_dest, routes, setting_out, takes, ForwardRecord};
use crate::router::{number, RouterView};
use crate::seqs::{rising, rising_unique};
use crate::topic_index::{bytes_in, StoredRecord};
use crate::topic_laws::{append_keeps, delete_seqs_keeps, deletion_keeps, reclaim_keeps,
    reclaim_revives_nothing, reclaim_spares, retention_keeps, without_keeps};
use crate::topic_state::{run, DedupeView, TopicView};
use crate::types::{default_config, Durability, NodeFilter, Router, TopicConfig};
use crate::write::{batch, batch_is_small, node_for, record_refusal, request_refusal, stored_record,
    Begun, PendingWrite, WriteRequest};
use vstd::prelude::*;

verus! {

impl TopicView {
    /// No rule ever drops a record.
    pub open spec fn keeps_all(self) -> bool {
        self.config.ttl_ms == 0 && self.config.cap_records == 0 && self.config.cap_bytes == 0
    }

    /// A record can be read as it was in `t`, or it lies before the first sequence
    /// number kept, which cannot be where the topic keeps all.
    pub open spec fn still_holds(self, t: TopicView, seq: u64) -> bool {
        ||| self.has_live(seq) && self.rec(seq) == t.rec(seq)
        ||| seq < self.earliest() && !self.keeps_all()
    }
}

/// What could be read of a topic can be read later, unless it was lost.
#[verifier::opaque]
pub open spec fn holds_on(t: TopicView, later: TopicView) -> bool {
    &&& later.config == t.config
    &&& later.head >= t.head
    &&& later.earliest() >= t.earliest()
    &&& forall|s: u64| s <= t.head && #[trigger] t.has_live(s) ==> later.still_holds(t, s)
}

proof fn holds_on_same(t: TopicView)
    ensures
        holds_on(t, t),
{
    reveal(holds_on);
}

proof fn holds_on_transitive(a: TopicView, b: TopicView, c: TopicView)
    requires
        holds_on(a, b),
        holds_on(b, c),
    ensures
        holds_on(a, c),
{
    reveal(holds_on);
    assert forall|s: u64| s <= a.head && #[trigger] a.has_live(s) implies c.still_holds(a, s) by {
        assert(b.still_holds(a, s));
        if b.has_live(s) {
            assert(c.still_holds(b, s));
        }
    }
}

proof fn retention_holds_on(t: TopicView, now: i64)
    requires
        t.ok(),
    ensures
        holds_on(t, t.retained(now)),
{
    reveal(holds_on);
    let u = t.with_floors(t.evict_plan(now), t.expiry_plan(now));
    let r = t.retained(now);
    reclaim_keeps(u);
    assert forall|s: u64| s <= t.head && #[trigger] t.has_live(s) implies r.still_holds(t, s) by {
        if t.retention_due() && s >= r.earliest() {
            assert(u.has_live(s));
            reclaim_spares(u, s);
        }
    }
}

proof fn append_holds_on(t: TopicView, records: Seq<StoredRecord>, now: i64)
    requires
        t.ok(),
        t.room(records.len(), bytes_in(records)),
        forall|i: int| 0 <= i < records.len() ==> (#[trigger] records[i]).ok(),
    ensures
        holds_on(t, t.appended(records, now)),
{
    reveal(holds_on);
    append_keeps(t, records, now);
    let u = t.appended(records, now);
    assert forall|s: u64| s <= t.head && #[trigger] t.has_live(s) implies u.still_holds(t, s) by {
        assert(t.has(s));
        assert(u.has(s));
    }
}

/// What forwarding leaves as it is.
pub open spec fn kept_by_forwarding(v: EngineView, w: EngineView) -> bool {
    &&& w.topics.dom() == v.topics.dom()
    &&& w.limits == v.limits
    &&& w.next_topic_id == v.next_topic_id
    &&& w.total == v.total
    &&& w.routers.routers == v.routers.routers
    &&& forall|n: Seq<char>| #[trigger]
        v.topics.contains_key(n) ==> {
            &&& w.topics[n].name == v.topics[n].name
            &&& w.topics[n].topic_id == v.topics[n].topic_id
            &&& w.topics[n].config == v.topics[n].config
            &&& w.topics[n].dedupe == v.topics[n].dedupe
            &&& w.topics[n].queue == v.topics[n].queue
            &&& v.topics[n].ok() ==> w.topics[n].ok() && holds_on(v.topics[n], w.topics[n])
            &&& v.topics[n].ok() && v.topics[n].idle() ==> w.topics[n].idle()
        }
}

proof fn kept_transitive(a: EngineView, b: EngineView, c: EngineView)
    requires
        kept_by_forwarding(a, b),
        kept_by_forwarding(b, c),
    ensures
        kept_by_forwarding(a, c),
{
    assert forall|n: Seq<char>| #[trigger] a.topics.contains_key(n) implies {
        &&& c.topics[n].name == a.topics[n].name
        &&& c.topics[n].topic_id == a.topics[n].topic_id
        &&& c.topics[n].config == a.topics[n].config
        &&& c.topics[n].dedupe == a.topics[n].dedupe
        &&& c.topics[n].queue == a.topics[n].queue
        &&& a.topics[n].ok() ==> c.topics[n].ok() && holds_on(a.topics[n], c.topics[n])
        &&& a.topics[n].ok() && a.topics[n].idle() ==> c.topics[n].idle()
    } by {
        assert(b.topics.contains_key(n));
        if a.topics[n].ok() {
            holds_on_transitive(a.topics[n], b.topics[n], c.topics[n]);
        }
    }
}

proof fn kept_same(v: EngineView)
    ensures
        kept_by_forwarding(v, v),
{
    assert forall|n: Seq<char>| #[trigger] v.topics.contains_key(n) implies holds_on(
        v.topics[n],
        v.topics[n],
    ) by {
        holds_on_same(v.topics[n]);
    }
}

/// What a router lets pass, and a topic stores, is sound and not deleted.
pub proof fn copies_are_live(recs: Seq<ForwardRecord>, now: i64, hops: u8)
    ensures
        forall|i: int|
            0 <= i < recs.len() ==> (#[trigger] copies(recs, now, hops)[i]).ok() && !copies(
                recs,
                now,
                hops,
            )[i].deleted,
{
}

proof fn landing_holds_on(d: TopicView, stored: Seq<StoredRecord>, now: i64)
    requires
        d.ok(),
        d.room(stored.len(), bytes_in(stored)),
        forall|i: int| 0 <= i < stored.len() ==> (#[trigger] stored[i]).ok(),
    ensures
        d.landed(stored, now).ok(),
        holds_on(d, d.landed(stored, now)),
{
    append_keeps(d, stored, now);
    append_holds_on(d, stored, now);
    let a = d.appended(stored, now);
    let l = d.staged(stored).ticketed().published(d.staging(stored), now).turned();
    assert(l == (TopicView { next_ticket: l.next_ticket, turn: l.turn, ..a }));
    assert(holds_on(d, l)) by {
        reveal(holds_on);
        assert forall|s: u64| s <= d.head && #[trigger] d.has_live(s) implies l.still_holds(d, s) by {
            assert(a.still_holds(d, s));
        }
    }
    retention_keeps(l, now);
    retention_holds_on(l, now);
    holds_on_transitive(d, l, l.retained(now));
}

proof fn step_keeps(
    v: EngineView,
    source: Seq<char>,
    r: Router,
    recs: Seq<ForwardRecord>,
    now: i64,
    hops: u8,
)
    requires
        v.topics.contains_key(r.dest@),
        v.topics[r.dest@].name == r.dest@,
        hops < MAX_ROUTER_HOPS,
        takes(v, r, ready_dest(v, r, now), copies(carried_all(r, recs), now, (hops + 1) as u8)),
    ensures
        kept_by_forwarding(v, forward_step(v, source, r, recs, now, hops)),
{
    let out = carried_all(r, recs);
    let stored = copies(out, now, (hops + 1) as u8);
    let d0 = v.topics[r.dest@];
    let d = ready_dest(v, r, now);
    copies_are_live(out, now, (hops + 1) as u8);
    if d0.ok() {
        retention_keeps(d0, now);
        retention_holds_on(d0, now);
        landing_holds_on(d, stored, now);
        holds_on_same(d0);
        holds_on_transitive(d0, d, d.landed(stored, now));
        if d0.idle() {
            landed_rests(d, stored, now);
        }
    }
    let w = forward_step(v, source, r, recs, now, hops);
    assert(w.topics.dom() =~= v.topics.dom());
    assert forall|n: Seq<char>| #[trigger] v.topics.contains_key(n) && n
        != r.dest@ implies holds_on(v.topics[n], w.topics[n]) by {
        holds_on_same(v.topics[n]);
    }
}

proof fn rest_keeps(v: EngineView, r: Router, now: i64)
    requires
        v.topics.contains_key(r.dest@),
        v.topics[r.dest@].name == r.dest@,
    ensures
        kept_by_forwarding(v, v.with_topic(ready_dest(v, r, now))),
{
    let d0 = v.topics[r.dest@];
    if d0.ok() {
        retention_keeps(d0, now);
        retention_holds_on(d0, now);
        holds_on_same(d0);
    }
    let w = v.with_topic(ready_dest(v, r, now));
    assert(w.topics.dom() =~= v.topics.dom());
    assert forall|n: Seq<char>| #[trigger] v.topics.contains_key(n) && n
        != r.dest@ implies holds_on(v.topics[n], w.topics[n]) by {
        holds_on_same(v.topics[n]);
    }
}

/// Forwarding changes no settings, forgets no keyed write, creates and removes
/// neither topics nor routers, and leaves topics at rest at rest.
pub proof fn forwarding_keeps(
    v: EngineView,
    source: Seq<char>,
    recs: Seq<ForwardRecord>,
    now: i64,
    hops: u8,
)
    requires
        forall|n: Seq<char>| #[trigger] v.topics.contains_key(n) ==> v.topics[n].name == n,
    ensures
        kept_by_forwarding(v, forwarded(v, source, recs, now, hops)),
    decreases MAX_ROUTER_HOPS - hops, 1int, 0int,
{
    kept_same(v);
    if hops < MAX_ROUTER_HOPS {
        forwarding_along_keeps(v, source, routes(v, source), recs, now, hops);
    }
}

proof fn forwarding_along_keeps(
    v: EngineView,
    source: Seq<char>,
    routers: Seq<Router>,
    recs: Seq<ForwardRecord>,
    now: i64,
    hops: u8,
)
    requires
        forall|n: Seq<char>| #[trigger] v.topics.contains_key(n) ==> v.topics[n].name == n,
    ensures
        kept_by_forwarding(v, forwarded_along(v, source, routers, recs, now, hops)),
    decreases MAX_ROUTER_HOPS - hops, 0int, routers.len(),
{
    kept_same(v);
    if hops < MAX_ROUTER_HOPS && routers.len() > 0 {
        let r = routers[0];
        let out = carried_all(r, recs);
        let d = ready_dest(v, r, now);
        let v2 = if !v.topics.contains_key(r.dest@) || out.len() == 0 {
            v
        } else if !takes(v, r, d, copies(out, now, (hops + 1) as u8)) {
            v.with_topic(d)
        } else {
            forwarded(
                forward_step(v, source, r, recs, now, hops),
                r.dest@,
                out,
                now,
                (hops + 1) as u8,
            )
        };
        if !v.topics.contains_key(r.dest@) || out.len() == 0 {
        } else if !takes(v, r, d, copies(out, now, (hops + 1) as u8)) {
            rest_keeps(v, r, now);
        } else {
            step_keeps(v, source, r, recs, now, hops);
            let s = forward_step(v, source, r, recs, now, hops);
            assert forall|n: Seq<char>| #[trigger] s.topics.contains_key(n) implies s.topics[n].name
                == n by {
                assert(v.topics.contains_key(n));
            }
            forwarding_keeps(s, r.dest@, out, now, (hops + 1) as u8);
            kept_transitive(v, s, v2);
        }
        assert forall|n: Seq<char>| #[trigger] v2.topics.contains_key(n) implies v2.topics[n].name
            == n by {
            assert(v.topics.contains_key(n));
        }
        forwarding_along_keeps(v2, source, routers.drop_first(), recs, now, hops);
        kept_transitive(v, v2, forwarded_along(v, source, routers, recs, now, hops));
    }
}

/// Creating or changing a topic leaves every topic at rest.
pub proof fn put_keeps_quiet(v: EngineView, name: Seq<char>, config: TopicConfig, now: i64)
    requires
        v.ok(),
        v.quiet(),
        v.put_refusal(name, config) is None,
    ensures
        v.with_put(name, config, now).quiet(),
        v.with_put(name, config, now).ok(),
{
    let w = v.with_put(name, config, now);
    if v.topics.contains_key(name) {
        let t = TopicView { config: config.normalized(), ..v.topics[name] };
        retention_keeps(t, now);
    }
    assert forall|n: Seq<char>| #[trigger] w.topics.contains_key(n) implies w.topics[n].idle()
        && w.topics[n].ok() && w.topics[n].name == n by {
        if n != name {
            assert(v.topics.contains_key(n));
        }
    }
}

/// The topic of a write is at rest when admission is decided.
pub proof fn write_topic_rests(v: EngineView, name: Seq<char>, req: WriteRequest, now: i64)
    requires
        v.ok(),
        v.quiet(),
        v.begin(name, req, now).0 is Staged,
        v.topics.contains_key(name) ==> v.topics[name].room(
            req.records@.len(),
            bytes_in(batch(req.records@, req.node, now)),
        ),
    ensures
        v.resolved(name, req, now).ok(),
        v.resolved(name, req, now).quiet(),
        v.resolved(name, req, now).topics.contains_key(name),
        v.write_topic(name, req, now).ok(),
        v.write_topic(name, req, now).idle(),
        v.write_topic(name, req, now).name == name,
        v.write_topic(name, req, now).room(
            req.records@.len(),
            bytes_in(batch(req.records@, req.node, now)),
        ),
{
    batch_is_small(req.records@, req.node, now);
    if !v.topics.contains_key(name) {
        put_keeps_quiet(v, name, EngineView::write_config(req), now);
    }
    let t0 = v.resolved(name, req, now).topics[name];
    assert(t0.idle() && t0.ok() && t0.name == name);
    retention_keeps(t0, now);
    retention_keeps(t0.pruned(now), now);
}

/// Once its records are readable, the topic of a write is at rest again.
pub proof fn landed_rests(t: TopicView, recs: Seq<StoredRecord>, now: i64)
    requires
        t.ok(),
        t.idle(),
        t.room(recs.len(), bytes_in(recs)),
        forall|i: int|
            0 <= i < recs.len() ==> (#[trigger] recs[i]).ok() && !recs[i].deleted,
    ensures
        t.landed(recs, now).ok(),
        t.landed(recs, now).idle(),
        t.landed(recs, now).name == t.name,
{
    append_keeps(t, recs, now);
    let landed = t.staged(recs).ticketed().published(t.staging(recs), now).turned();
    let a = t.appended(recs, now);
    assert(landed == (TopicView { next_ticket: landed.next_ticket, turn: landed.turn, ..a }));
    retention_keeps(landed, now);
}

/// An engine whose topics are at rest stays so when one of them changes and is at
/// rest again.
pub proof fn change_keeps_quiet(v: EngineView, t: TopicView)
    requires
        v.quiet(),
        t.idle(),
    ensures
        v.with_topic(t).quiet(),
{
    let w = v.with_topic(t);
    assert forall|n: Seq<char>| #[trigger] w.topics.contains_key(n) implies w.topics[n].idle() by {
        if n != t.name {
            assert(v.topics.contains_key(n));
        }
    }
}

/// A queue that is at rest stays so when it is counted.
pub proof fn counting_rests(t: TopicView, now: i64)
    requires
        t.ok(),
        t.idle(),
    ensures
        t.counted(now).idle(),
{
    retention_keeps(t, now);
}

/// An engine whose topics are at rest stays so when one gives way to another.
pub proof fn topic_keeps_quiet(v: EngineView, t: TopicView, total: u64)
    requires
        v.ok(),
        v.quiet(),
        v.topics.contains_key(t.name),
        t.ok(),
        t.idle(),
    ensures
        (EngineView { total: total, ..v.with_topic(t) }).quiet(),
        forall|n: Seq<char>| #[trigger]
            v.with_topic(t).topics.contains_key(n) ==> v.with_topic(t).topics[n].ok()
                && v.with_topic(t).topics[n].name == n,
{
    let w = v.with_topic(t);
    assert forall|n: Seq<char>| #[trigger] w.topics.contains_key(n) implies w.topics[n].idle()
        && w.topics[n].ok() && w.topics[n].name == n by {
        if n != t.name {
            assert(v.topics.contains_key(n));
        }
    }
}

/// Before anything is forwarded, a write has left every topic at rest.
pub proof fn unforwarded_write_rests(
    v: EngineView,
    name: Seq<char>,
    req: WriteRequest,
    now: i64,
)
    requires
        v.ok(),
        v.quiet(),
        v.begin(name, req, now).0 is Staged,
        v.topics.contains_key(name) ==> v.topics[name].room(
            req.records@.len(),
            bytes_in(batch(req.records@, req.node, now)),
        ),
    ensures
        ({
            let u = v.write_done(name, req, now);
            &&& u.quiet()
            &&& forall|n: Seq<char>| #[trigger]
                u.topics.contains_key(n) ==> u.topics[n].ok() && u.topics[n].name == n
            &&& u.topics.contains_key(name)
        }),
{
    let recs = batch(req.records@, req.node, now);
    let r0 = v.resolved(name, req, now);
    let t = v.write_topic(name, req, now);
    write_topic_rests(v, name, req, now);
    landed_rests(t, recs, now);
    let b = v.begin(name, req, now).1;
    let last = t.wrote(recs, req.idempotency_key, now);
    assert(last.ok() && last.idle() && last.name == name);
    topic_keeps_quiet(r0, last, b.total);
    let u = v.write_done(name, req, now);
    assert(u.topics =~= r0.with_topic(last).topics);
}

/// A write leaves every topic at rest.
pub proof fn write_keeps_quiet(v: EngineView, name: Seq<char>, req: WriteRequest, now: i64)
    requires
        v.ok(),
        v.quiet(),
        v.begin(name, req, now).0 is Staged,
        v.topics.contains_key(name) ==> v.topics[name].room(
            req.records@.len(),
            bytes_in(batch(req.records@, req.node, now)),
        ),
    ensures
        v.written(name, req, now).quiet(),
        forall|n: Seq<char>| #[trigger]
            v.written(name, req, now).topics.contains_key(n) ==> v.written(
                name,
                req,
                now,
            ).topics[n].ok(),
{
    let recs = batch(req.records@, req.node, now);
    let u = v.write_done(name, req, now);
    unforwarded_write_rests(v, name, req, now);
    forwarding_keeps(u, name, setting_out(recs), now, 0);
    let w = v.written(name, req, now);
    assert forall|n: Seq<char>| #[trigger] w.topics.contains_key(n) implies w.topics[n].idle()
        && w.topics[n].ok() by {
        assert(u.topics.contains_key(n));
    }
}

/// What is written can be read: each record of a write stands under its sequence
/// number as it was given, unless retention has dropped it since, which never
/// happens to a topic that keeps all.
pub proof fn written_record_is_readable(
    v: EngineView,
    name: Seq<char>,
    req: WriteRequest,
    now: i64,
    i: int,
)
    requires
        v.ok(),
        v.quiet(),
        v.begin(name, req, now).0 is Staged,
        v.topics.contains_key(name) ==> v.topics[name].room(
            req.records@.len(),
            bytes_in(batch(req.records@, req.node, now)),
        ),
        0 <= i < req.records@.len(),
    ensures
        ({
            let t = v.written(name, req, now).topics[name];
            let seq = (v.write_topic(name, req, now).head + 1 + i) as u64;
            let rec = req.records@[i];
            ||| seq < t.earliest() && !t.keeps_all()
            ||| {
                &&& t.has_live(seq)
                &&& seq <= t.head
                &&& t.rec(seq).data == Some(rec.data)
                &&& t.rec(seq).meta == rec.meta
                &&& t.rec(seq).tag == rec.tag
                &&& t.rec(seq).node == node_for(rec, req.node)
                &&& t.rec(seq).ts == now
            }
        }),
{
    let recs = batch(req.records@, req.node, now);
    let t0 = v.write_topic(name, req, now);
    let seq = (t0.head + 1 + i) as u64;
    let u = v.write_done(name, req, now);
    unforwarded_write_rests(v, name, req, now);
    forwarding_keeps(u, name, setting_out(recs), now, 0);
    let w = v.written(name, req, now);
    let l = t0.wrote(recs, req.idempotency_key, now);
    write_topic_rests(v, name, req, now);
    landed_record_is_readable(t0, recs, req.idempotency_key, now, i);
    assert(u.topics.contains_key(name));
    holds_on_same(l);
    assert(holds_on(l, w.topics[name]));
    reveal(holds_on);
    assert(recs[i] == stored_record(
        req.records@[i].data,
        req.records@[i].tag,
        node_for(req.records@[i], req.node),
        req.records@[i].meta,
        now,
        0,
    ));
    if l.has_live(seq) {
        assert(w.topics[name].still_holds(l, seq));
    }
}

proof fn landed_record_is_readable(
    t: TopicView,
    recs: Seq<StoredRecord>,
    key: Option<String>,
    now: i64,
    i: int,
)
    requires
        t.ok(),
        t.idle(),
        t.room(recs.len(), bytes_in(recs)),
        forall|i: int|
            0 <= i < recs.len() ==> (#[trigger] recs[i]).ok() && !recs[i].deleted,
        0 <= i < recs.len(),
    ensures
        ({
            let u = t.wrote(recs, key, now);
            let seq = (t.head + 1 + i) as u64;
            &&& seq <= u.head
            &&& u.has_live(seq) && u.rec(seq) == recs[i] || seq < u.earliest() && !u.keeps_all()
        }),
{
    append_keeps(t, recs, now);
    let a = t.staged(recs).ticketed().published(t.staging(recs), now).turned();
    let b = t.appended(recs, now);
    assert(a == (TopicView { next_ticket: a.next_ticket, turn: a.turn, ..b }));
    retention_keeps(a, now);
    retention_holds_on(a, now);
    let seq = (t.head + 1 + i) as u64;
    assert(b.rec((t.tail() + i) as u64) == recs[i]);
    assert(a.has_live(seq));
    reveal(holds_on);
    assert(a.retained(now).still_holds(a, seq));
}

/// Writes to a topic take turns: the records of a write that began later follow those
/// of the earlier one, and cannot be made readable before the log has answered for
/// the earlier one, whatever it answers; then they can.
pub proof fn writes_take_turns(
    v: EngineView,
    name: Seq<char>,
    first: WriteRequest,
    second: WriteRequest,
    now: i64,
    p: PendingWrite,
    q: PendingWrite,
    committed: bool,
)
    requires
        v.ok(),
        v.quiet(),
        v.begin(name, first, now).0 is Staged,
        v.begin(name, first, now).1.ok(),
        v.begin(name, first, now).1.begin(name, second, now).0 is Staged,
        v.begin(name, first, now).1.begin(name, second, now).1.ok(),
        v.topics.contains_key(name) ==> v.topics[name].room(
            first.records@.len() + second.records@.len(),
            bytes_in(batch(first.records@, first.node, now)) + bytes_in(
                batch(second.records@, second.node, now),
            ),
        ),
        p.from(v, name, first, now),
        q.from(v.begin(name, first, now).1, name, second, now),
    ensures
        ({
            let w = v.begin(name, first, now).1.begin(name, second, now).1;
            &&& q.staged.start == p.staged.start + p.staged.count
            &&& w.can_finish(p)
            &&& !w.can_finish(q)
            &&& w.finished(p, committed, now).can_finish(q)
        }),
{
    let a = batch(first.records@, first.node, now);
    let b = batch(second.records@, second.node, now);
    let t = v.write_topic(name, first, now);
    let v1 = v.begin(name, first, now).1;
    let w = v1.begin(name, second, now).1;
    let t2 = v1.write_topic(name, second, now);
    room_for_two(v, name, first, second, now);
    write_is_staged(v, name, first, now);
    write_is_staged(v1, name, second, now);
    staged_topic_waits(v1, name, second, now);
    staged_writes_take_turns(w, t, a, t2, b, now, p, q, committed);
}

/// A write that begins stages its records in its topic.
proof fn write_is_staged(v: EngineView, name: Seq<char>, req: WriteRequest, now: i64)
    requires
        v.ok(),
        v.begin(name, req, now).0 is Staged,
    ensures
        ({
            let w = v.begin(name, req, now).1;
            let t = v.write_topic(name, req, now);
            let recs = batch(req.records@, req.node, now);
            &&& w.topics.contains_key(name)
            &&& w.topics[name] == t.staged(recs).ticketed()
            &&& t.name == name
            &&& recs.len() > 0
        }),
{
    batch_is_small(req.records@, req.node, now);
}

/// Where there is room for two writes, there is when the first is staged.
proof fn room_for_two(
    v: EngineView,
    name: Seq<char>,
    first: WriteRequest,
    second: WriteRequest,
    now: i64,
)
    requires
        v.ok(),
        v.quiet(),
        v.begin(name, first, now).0 is Staged,
        request_refusal(second) is None,
        v.topics.contains_key(name) ==> v.topics[name].room(
            first.records@.len() + second.records@.len(),
            bytes_in(batch(first.records@, first.node, now)) + bytes_in(
                batch(second.records@, second.node, now),
            ),
        ),
    ensures
        v.write_topic(name, first, now).ok(),
        v.write_topic(name, first, now).idle(),
        v.write_topic(name, first, now).room(
            batch(first.records@, first.node, now).len() + batch(
                second.records@,
                second.node,
                now,
            ).len(),
            bytes_in(batch(first.records@, first.node, now)) + bytes_in(
                batch(second.records@, second.node, now),
            ),
        ),
{
    write_topic_rests(v, name, first, now);
    batch_is_small(first.records@, first.node, now);
    batch_is_small(second.records@, second.node, now);
    if v.topics.contains_key(name) {
        retention_keeps(v.topics[name], now);
        retention_keeps(v.topics[name].pruned(now), now);
    } else {
        put_keeps_quiet(v, name, EngineView::write_config(first), now);
        let t0 = v.resolved(name, first, now).topics[name];
        retention_keeps(t0, now);
        retention_keeps(t0.pruned(now), now);
    }
}

/// What holds of two staged runs holds of the writes that wait for them.
proof fn staged_writes_take_turns(
    w: EngineView,
    t: TopicView,
    a: Seq<StoredRecord>,
    t2: TopicView,
    b: Seq<StoredRecord>,
    now: i64,
    p: PendingWrite,
    q: PendingWrite,
    committed: bool,
)
    requires
        t.idle(),
        t.ok(),
        a.len() > 0,
        b.len() > 0,
        t.room(a.len() + b.len(), bytes_in(a) + bytes_in(b)),
        t2.tail() == t.tail() + a.len(),
        t2.head == t.head,
        t2.turn == t.turn,
        t2.next_ticket == t.ticketed().next_ticket,
        t2.live <= t.live,
        t2.bytes <= t.bytes,
        t2.name == t.name,
        t2.topic_id == t.topic_id,
        t2.staged(b).ticketed().ok(),
        w.topics.contains_key(t.name),
        w.topics[t.name] == t2.staged(b).ticketed(),
        p.name@ == t.name,
        p.topic_id == t.topic_id,
        p.ticket == t.next_ticket,
        p.staged == t.staging(a),
        q.name@ == t.name,
        q.topic_id == t.topic_id,
        q.ticket == t2.next_ticket,
        q.staged == t2.staging(b),
    ensures
        q.staged.start == p.staged.start + p.staged.count,
        w.can_finish(p),
        !w.can_finish(q),
        w.finished(p, committed, now).can_finish(q),
{
    staged_runs_take_turns(t, a, t2, b, now);
    let x = w.finished(p, committed, now);
    assert(w.still_there(p) && w.still_there(q));
    assert(x.topics.contains_key(t.name));
}

/// A topic in which a write is staged is the same to the next one, but for what
/// retention dropped.
proof fn staged_topic_waits(v: EngineView, name: Seq<char>, req: WriteRequest, now: i64)
    requires
        v.ok(),
        v.topics.contains_key(name),
    ensures
        ({
            let t = v.topics[name];
            let u = v.write_topic(name, req, now);
            &&& u.ok()
            &&& u.name == t.name
            &&& u.topic_id == t.topic_id
            &&& u.tail() == t.tail()
            &&& u.head == t.head
            &&& u.turn == t.turn
            &&& u.next_ticket == t.next_ticket
            &&& u.live <= t.live
            &&& u.bytes <= t.bytes
        }),
{
    retention_keeps(v.topics[name], now);
    retention_keeps(v.topics[name].pruned(now), now);
}

/// Where two runs are staged one after the other, the second follows the first, waits
/// for it, and comes to its turn with it.
proof fn staged_runs_take_turns(
    t: TopicView,
    a: Seq<StoredRecord>,
    t2: TopicView,
    b: Seq<StoredRecord>,
    now: i64,
)
    requires
        t.idle(),
        t.ok(),
        a.len() > 0,
        b.len() > 0,
        t.room(a.len() + b.len(), bytes_in(a) + bytes_in(b)),
        t2.tail() == t.tail() + a.len(),
        t2.head == t.head,
        t2.turn == t.turn,
        t2.next_ticket == t.ticketed().next_ticket,
        t2.live <= t.live,
        t2.bytes <= t.bytes,
        t2.staged(b).ticketed().ok(),
    ensures
        ({
            let p = t.staging(a);
            let q = t2.staging(b);
            let u = t2.staged(b).ticketed();
            let x = u.published(p, now).turned().retained(now);
            let y = u.taken_back(p);
            &&& q.start == p.start + p.count
            &&& u.turn == t.next_ticket
            &&& u.turn != t2.next_ticket
            &&& u.head < p.start
            &&& p.start + p.count <= u.tail()
            &&& u.bytes + p.added_bytes <= u64::MAX
            &&& u.live + p.count <= u64::MAX
            &&& x.turn == t2.next_ticket
            &&& x.name == u.name
            &&& x.topic_id == u.topic_id
            &&& x.head < q.start
            &&& q.start + q.count <= x.tail()
            &&& x.bytes + q.added_bytes <= u64::MAX
            &&& x.live + q.count <= u64::MAX
            &&& y.turn == t2.next_ticket
            &&& y.head < q.start
            &&& q.start + q.count <= y.tail()
            &&& y.bytes + q.added_bytes <= u64::MAX
            &&& y.live + q.count <= u64::MAX
        }),
{
    let u = t2.staged(b).ticketed();
    retention_keeps(u.published(t.staging(a), now).turned(), now);
}

/// A keyed write counts once: its retry within the window is recognised, changes no
/// record, and is answered with the sequence numbers of the first.
pub proof fn retried_write_is_recognised(
    v: EngineView,
    name: Seq<char>,
    req: WriteRequest,
    now: i64,
    again: WriteRequest,
    later: i64,
)
    requires
        v.ok(),
        v.quiet(),
        v.begin(name, req, now).0 is Staged,
        v.topics.contains_key(name) ==> v.topics[name].room(
            req.records@.len(),
            bytes_in(batch(req.records@, req.node, now)),
        ),
        req.idempotency_key is Some,
        again.idempotency_key is Some,
        again.idempotency_key->0@ == req.idempotency_key->0@,
        request_refusal(again) is None,
        later - now <= v.write_topic(name, req, now).config.idempotency_window_ms,
    ensures
        ({
            let w = v.written(name, req, now);
            let t = v.write_topic(name, req, now);
            let b = w.begin(name, again, later);
            &&& b.0 == Begun::Deduped(
                DedupeView {
                    seqs: run((t.head + 1) as u64, req.records@.len() as u64),
                    head_seq: (t.head + req.records@.len()) as u64,
                    created_ms: now,
                },
            )
            &&& b.1.topics[name].recs == w.topics[name].recs
            &&& b.1.topics[name].head == w.topics[name].head
        }),
{
    let recs = batch(req.records@, req.node, now);
    let t = v.write_topic(name, req, now);
    let w = v.written(name, req, now);
    let key = req.idempotency_key->0@;
    let e = DedupeView {
        seqs: run((t.head + 1) as u64, recs.len() as u64),
        head_seq: (t.head + recs.len()) as u64,
        created_ms: now,
    };
    let u = v.write_done(name, req, now);
    unforwarded_write_rests(v, name, req, now);
    forwarding_keeps(u, name, setting_out(recs), now, 0);
    assert(w.topics.contains_key(name));
    assert(w.topics[name].dedupe == u.topics[name].dedupe);
    assert(w.topics[name].dedupe.contains_key(key) && w.topics[name].dedupe[key] == e);
    assert(w.topics[name].config == t.config);
    assert(w.resolved(name, again, later) == w);
    let p = w.topics[name].pruned(later);
    assert(p.dedupe.contains_key(key));
    assert(p.dedupe[key] == e);
}

/// A write whose frames could not be logged is never readable: the head stays, and
/// so do number and size; and the bytes it had counted are given back.
pub proof fn failed_write_is_never_readable(v: EngineView, p: PendingWrite, now: i64, seq: u64)
    requires
        v.ok(),
        v.can_finish(p),
        p.staged.fits(),
        v.still_there(p),
    ensures
        ({
            let t = v.topics[p.name@];
            let u = v.finished(p, false, now).topics[p.name@];
            &&& u.head == t.head
            &&& u.live == t.live
            &&& u.bytes == t.bytes
            &&& v.finished(p, false, now).total == sat_sub(v.total, p.reserved)
            &&& p.staged.start <= seq < p.staged.start + p.staged.count ==> !u.has_live(seq)
            &&& !(p.staged.start <= seq < p.staged.start + p.staged.count) && t.has(seq)
                ==> u.rec(seq) == t.rec(seq)
        }),
{
    let t = v.topics[p.name@];
    assert(t.name == p.name@);
    if t.has(seq) {
        crate::topic_laws::rolled_back_run_is_unreadable(t, p.staged, seq);
    }
}

/// A read leaves every topic at rest.
pub proof fn read_keeps_quiet(v: EngineView, name: Seq<char>, now: i64)
    requires
        v.ok(),
        v.quiet(),
        v.topics.contains_key(name),
    ensures
        v.with_topic(v.read_topic(name, now)).quiet(),
{
    retention_keeps(v.topics[name], now);
    let w = v.with_topic(v.read_topic(name, now));
    assert forall|n: Seq<char>| #[trigger] w.topics.contains_key(n) implies w.topics[n].idle() by {
        if n != name {
            assert(v.topics.contains_key(n));
        }
    }
}

/// A deletion leaves every topic at rest.
pub proof fn delete_keeps_quiet(v: EngineView, name: Seq<char>, req: DeleteRequest, now: i64)
    requires
        v.ok(),
        v.quiet(),
        v.topics.contains_key(name),
    ensures
        v.with_topic(v.deleted_topic(name, req, now)).quiet(),
{
    let t0 = v.topics[name];
    retention_keeps(t0, now);
    let t = t0.retained(now);
    deletion_keeps(t.ticketed(), req.before_seq, req.match_, Some(after(t.head)), now);
    let w = v.with_topic(v.deleted_topic(name, req, now));
    assert forall|n: Seq<char>| #[trigger] w.topics.contains_key(n) implies w.topics[n].idle() by {
        if n != name {
            assert(v.topics.contains_key(n));
        }
    }
}

/// A read makes progress: as long as the head is not reached, it passes at least one
/// sequence number, so that no record can block a reader for ever.
pub proof fn read_makes_progress(
    t: TopicView,
    node: Option<NodeFilter>,
    now: i64,
    start: u64,
    limit: u64,
    budget: u64,
    seqs: Seq<u64>,
    next: u64,
)
    requires
        t.is_batch(node, now, start, limit, budget, seqs, next),
        limit > 0,
        start < t.head,
    ensures
        start < next,
{
    if seqs.len() > 0 {
        assert(start < seqs[0] <= next);
    }
}

/// Reading on where the last read stopped loses nothing and repeats nothing: the two
/// together return, in order, what a reader gets up to where the second stopped.
pub proof fn reading_on_loses_nothing(
    t: TopicView,
    node: Option<NodeFilter>,
    now: i64,
    start: u64,
    limit: u64,
    budget: u64,
    seqs1: Seq<u64>,
    next1: u64,
    seqs2: Seq<u64>,
    next2: u64,
)
    requires
        t.is_batch(node, now, start, limit, budget, seqs1, next1),
        t.is_batch(node, now, next1, limit, budget, seqs2, next2),
    ensures
        rising(seqs1 + seqs2),
        forall|s: u64|
            start < s <= next2 ==> (#[trigger] t.delivers(node, now, s) <==> (seqs1
                + seqs2).contains(s)),
{
    let all = seqs1 + seqs2;
    assert forall|i: int, j: int| 0 <= i < j < all.len() implies #[trigger] all[i]
        < #[trigger] all[j] by {
        if j < seqs1.len() {
            assert(seqs1[i] < seqs1[j]);
        } else if i >= seqs1.len() {
            assert(seqs2[i - seqs1.len()] < seqs2[j - seqs1.len()]);
        } else {
            assert(seqs1[i] <= next1);
            assert(next1 < seqs2[j - seqs1.len()]);
        }
    }
    assert forall|s: u64| start < s <= next2 implies (#[trigger] t.delivers(node, now, s)
        <==> all.contains(s)) by {
        if t.delivers(node, now, s) {
            if s <= next1 {
                assert(seqs1.contains(s));
                let i = choose|i: int| 0 <= i < seqs1.len() && seqs1[i] == s;
                assert(all[i] == s);
            } else {
                assert(seqs2.contains(s));
                let i = choose|i: int| 0 <= i < seqs2.len() && seqs2[i] == s;
                assert(all[seqs1.len() + i] == s);
            }
        }
        if all.contains(s) {
            let i = choose|i: int| 0 <= i < all.len() && all[i] == s;
            if i < seqs1.len() {
                assert(t.delivers(node, now, seqs1[i]));
            } else {
                assert(t.delivers(node, now, seqs2[i - seqs1.len()]));
            }
        }
    }
}

/// The size of a list is not smaller than that of a list it begins with.
proof fn size_of_prefix(t: TopicView, seqs: Seq<u64>, k: int)
    requires
        0 <= k <= seqs.len(),
    ensures
        t.size_of(seqs.take(k)) <= t.size_of(seqs),
    decreases seqs.len(),
{
    if k == seqs.len() {
        assert(seqs.take(k) =~= seqs);
    } else {
        size_of_prefix(t, seqs.drop_last(), k);
        assert(seqs.drop_last().take(k) =~= seqs.take(k));
    }
}

/// Of two ascending lists that agree up to a number, one begins with what the other
/// holds up to there.
proof fn agree_up_to(s: Seq<u64>, t: Seq<u64>, n: u64)
    requires
        rising(s),
        rising(t),
        forall|x: u64| x <= n ==> (s.contains(x) <==> t.contains(x)),
        forall|i: int| 0 <= i < s.len() ==> #[trigger] s[i] <= n,
    ensures
        s.len() <= t.len(),
        t.take(s.len() as int) == s,
    decreases s.len(),
{
    if s.len() > 0 {
        let k = s.len() - 1;
        let r = s.drop_last();
        let last = s[k];
        assert(s.contains(last));
        assert(t.contains(last));
        let m = choose|m: int| 0 <= m < t.len() && t[m] == last;
        let u = t.take(m);
        assert forall|x: u64| r.contains(x) <==> u.contains(x) by {
            if r.contains(x) {
                let i = choose|i: int| 0 <= i < r.len() && r[i] == x;
                assert(s[i] == x && s[i] < s[k]);
                assert(s.contains(x));
                let j = choose|j: int| 0 <= j < t.len() && t[j] == x;
                if j > m {
                    assert(t[m] < t[j]);
                }
                assert(u[j] == x);
            }
            if u.contains(x) {
                let j = choose|j: int| 0 <= j < u.len() && u[j] == x;
                assert(t[j] < t[m]);
                assert(t.contains(t[j]));
                assert(s.contains(x));
                let i = choose|i: int| 0 <= i < s.len() && s[i] == x;
                assert(r[i] == x);
            }
        }
        assert(r.to_set() =~= u.to_set());
        rising_unique(r, u);
        assert(m == k);
        assert(t.take(s.len() as int) =~= u.push(last));
        assert(s =~= r.push(last));
    } else {
        assert(t.take(0) =~= s);
    }
}

proof fn batch_not_shorter(
    t: TopicView,
    node: Option<NodeFilter>,
    now: i64,
    start: u64,
    limit: u64,
    budget: u64,
    seqs1: Seq<u64>,
    next1: u64,
    seqs2: Seq<u64>,
    next2: u64,
)
    requires
        t.is_batch(node, now, start, limit, budget, seqs1, next1),
        t.is_batch(node, now, start, limit, budget, seqs2, next2),
        next1 <= next2,
    ensures
        next1 == next2,
        seqs1 == seqs2,
{
    assert forall|x: u64| x <= next1 implies (seqs1.contains(x) <==> seqs2.contains(x)) by {
        if seqs1.contains(x) {
            let i = choose|i: int| 0 <= i < seqs1.len() && seqs1[i] == x;
            assert(t.delivers(node, now, seqs1[i]));
        }
        if seqs2.contains(x) {
            let i = choose|i: int| 0 <= i < seqs2.len() && seqs2[i] == x;
            assert(t.delivers(node, now, seqs2[i]));
        }
    }
    agree_up_to(seqs1, seqs2, next1);
    if next1 == next2 {
        agree_up_to(seqs2, seqs1, next2);
        assert(seqs2.take(seqs1.len() as int) =~= seqs2);
    } else if seqs1.len() == limit {
        assert(seqs2.take(seqs1.len() as int) =~= seqs2);
    } else {
        let n = (next1 + 1) as u64;
        assert(t.delivers(node, now, n));
        assert(seqs2.contains(n));
        let longer = seqs1.push(n);
        assert forall|x: u64| x <= n implies (longer.contains(x) <==> seqs2.contains(x)) by {
            if longer.contains(x) {
                let i = choose|i: int| 0 <= i < longer.len() && longer[i] == x;
                if i < seqs1.len() {
                    assert(seqs1[i] == x);
                    assert(seqs1.contains(x));
                }
            }
            if seqs2.contains(x) {
                if x == n {
                    assert(longer[seqs1.len() as int] == x);
                } else {
                    assert(seqs1.contains(x));
                    let i = choose|i: int| 0 <= i < seqs1.len() && seqs1[i] == x;
                    assert(longer[i] == x);
                }
            }
        }
        assert(rising(longer));
        agree_up_to(longer, seqs2, n);
        size_of_prefix(t, seqs2, longer.len() as int);
        assert(longer.drop_last() =~= seqs1);
    }
}

/// There is one answer to a read: what is returned and where it stops is determined.
pub proof fn read_is_determined(
    t: TopicView,
    node: Option<NodeFilter>,
    now: i64,
    start: u64,
    limit: u64,
    budget: u64,
    seqs1: Seq<u64>,
    next1: u64,
    seqs2: Seq<u64>,
    next2: u64,
)
    requires
        t.is_batch(node, now, start, limit, budget, seqs1, next1),
        t.is_batch(node, now, start, limit, budget, seqs2, next2),
    ensures
        next1 == next2,
        seqs1 == seqs2,
{
    if next1 <= next2 {
        batch_not_shorter(t, node, now, start, limit, budget, seqs1, next1, seqs2, next2);
    } else {
        batch_not_shorter(t, node, now, start, limit, budget, seqs2, next2, seqs1, next1);
    }
}

/// Taking one job out of a queue ends it and no other, and leaves every topic at
/// rest.
pub proof fn one_job_is_done(v: EngineView, name: Seq<char>, seq: u64)
    requires
        v.topics.contains_key(name),
        v.topics[name].name == name,
        v.topics[name].ok(),
    ensures
        ({
            let t = v.topics[name];
            let u = v.without_job(name, seq).topics[name];
            &&& u.ok()
            &&& u.name == name
            &&& u.head == t.head
            &&& u.tail() == t.tail()
            &&& !u.has_live(seq)
            &&& t.idle() ==> u.idle()
            &&& forall|s: u64| #[trigger] u.has_live(s) ==> t.has_live(s)
            &&& forall|s: u64|
                s != seq && s >= t.floors.earliest(t.seq_base, t.head) && #[trigger] t.has_live(s)
                    ==> u.has_live(s) && u.rec(s) == t.rec(s)
            &&& u.floors == t.floors
            &&& u.seq_base == t.seq_base
            &&& u.queue == t.queue
        }),
{
    let t = v.topics[name];
    let w = t.without(set![seq]);
    let u = v.without_job(name, seq).topics[name];
    delete_seqs_keeps(t, set![seq]);
    without_keeps(t, set![seq]);
    assert(u == w.reclaimed());
    assert forall|s: u64| #[trigger] u.has_live(s) implies t.has_live(s) && s != seq by {
        reclaim_revives_nothing(w, s);
        assert((t.base + (s - t.base)) as u64 == s);
    }
    assert forall|s: u64|
        s != seq && s >= t.floors.earliest(t.seq_base, t.head) && #[trigger] t.has_live(
            s,
        ) implies u.has_live(s) && u.rec(s) == t.rec(s) by {
        assert((t.base + (s - t.base)) as u64 == s);
        assert(w.recs[s - t.base] == t.recs[s - t.base]);
        reclaim_spares(w, s);
    }
}

/// Acknowledged jobs are done for good, and no other job is: none of them is live
/// any more, and a live job above every floor that is not among them stays as it
/// is.
pub proof fn acknowledged_jobs_are_done(v: EngineView, name: Seq<char>, seqs: Seq<u64>)
    requires
        v.topics.contains_key(name),
        v.topics[name].name == name,
        v.topics[name].ok(),
    ensures
        ({
            let t = v.topics[name];
            let w = v.without_jobs(name, seqs, Set::empty());
            let u = w.topics[name];
            &&& w.topics.contains_key(name)
            &&& u.ok()
            &&& u.name == name
            &&& t.idle() ==> u.idle()
            &&& u.head == t.head
            &&& u.floors == t.floors
            &&& u.seq_base == t.seq_base
            &&& u.queue == t.queue
            &&& forall|s: u64| #[trigger] u.has_live(s) ==> t.has_live(s) && !seqs.contains(s)
            &&& forall|s: u64|
                !seqs.contains(s) && s >= t.floors.earliest(t.seq_base, t.head)
                    && #[trigger] t.has_live(s) ==> u.has_live(s) && u.rec(s) == t.rec(s)
        }),
    decreases seqs.len(),
{
    if seqs.len() > 0 {
        let rest = seqs.drop_last();
        let m = v.without_jobs(name, rest, Set::empty());
        let t = v.topics[name];
        let u = v.without_jobs(name, seqs, Set::empty()).topics[name];
        acknowledged_jobs_are_done(v, name, rest);
        one_job_is_done(m, name, seqs.last());
        assert(seqs =~= rest.push(seqs.last()));
        assert forall|s: u64| #[trigger] u.has_live(s) implies t.has_live(s) && !seqs.contains(
            s,
        ) by {
            assert(m.topics[name].has_live(s));
            if seqs.contains(s) {
                let i = choose|i: int| 0 <= i < seqs.len() && seqs[i] == s;
                if i < rest.len() {
                    assert(rest[i] == s);
                }
            }
        }
        assert forall|s: u64|
            !seqs.contains(s) && s >= t.floors.earliest(t.seq_base, t.head) && #[trigger] t.has_live(
                s,
            ) implies u.has_live(s) && u.rec(s) == t.rec(s) by {
            if rest.contains(s) {
                let i = choose|i: int| 0 <= i < rest.len() && rest[i] == s;
                assert(seqs[i] == s);
            }
            assert(seqs[seqs.len() - 1] == seqs.last());
            assert(m.topics[name].has_live(s));
        }
    }
}

/// Jobs that left their queue leave every topic at rest.
pub proof fn without_jobs_keeps_quiet(v: EngineView, name: Seq<char>, seqs: Seq<u64>)
    requires
        v.quiet(),
        v.topics.contains_key(name),
        v.topics[name].name == name,
        v.topics[name].ok(),
    ensures
        v.without_jobs(name, seqs, Set::empty()).quiet(),
        v.without_jobs(name, seqs, Set::empty()).topics.dom() =~= v.topics.dom(),
        forall|n: Seq<char>|
            n != name ==> #[trigger] v.without_jobs(name, seqs, Set::empty()).topics[n]
                == v.topics[n],
    decreases seqs.len(),
{
    acknowledged_jobs_are_done(v, name, seqs);
    if seqs.len() > 0 {
        let rest = seqs.drop_last();
        let m = v.without_jobs(name, rest, Set::empty());
        without_jobs_keeps_quiet(v, name, rest);
        acknowledged_jobs_are_done(v, name, rest);
        let w = v.without_jobs(name, seqs, Set::empty());
        one_job_is_done(m, name, seqs.last());
        assert(w.topics == m.topics.insert(name, w.topics[name]));
        assert forall|n: Seq<char>| #[trigger] w.topics.contains_key(n) implies w.topics[n].idle() by {
            if n != name {
                assert(m.topics.contains_key(n));
            }
        }
    }
}

/// Jobs that go to the dead-letter topic, or back to the queue, leave every topic at
/// rest.
pub proof fn dead_lettering_keeps_quiet(
    v: EngineView,
    name: Seq<char>,
    dl: Seq<char>,
    seqs: Seq<u64>,
    copies: Seq<StoredRecord>,
    now: i64,
)
    requires
        v.ok(),
        v.quiet(),
        v.topics.contains_key(name),
        forall|i: int|
            0 <= i < copies.len() ==> (#[trigger] copies[i]).ok() && !copies[i].deleted,
    ensures
        v.moves_dead_letters(name, dl, seqs, copies, now).quiet(),
{
    let w = v.with_dead_letter(dl, now);
    if !v.topics.contains_key(dl) && v.put_refusal(dl, default_config()) is None {
        put_keeps_quiet(v, dl, default_config(), now);
    }
    if !w.takes_dead_letters(dl, copies) {
        let t = w.topics[name].diverted_back(seqs);
        let u = w.with_topic(t);
        assert forall|n: Seq<char>| #[trigger] u.topics.contains_key(n) implies u.topics[n].idle() by {
            if n != name {
                assert(w.topics.contains_key(n));
            }
        }
    } else if copies.len() > 0 {
        let d = w.topics[dl];
        landed_rests(d, copies, now);
        topic_keeps_quiet(w, d.landed(copies, now), w.total);
        let u = w.with_topic(d.landed(copies, now));
        assert(u.topics.contains_key(name));
        without_jobs_keeps_quiet(u, name, seqs);
    } else {
        without_jobs_keeps_quiet(w, name, seqs);
    }
}

/// No job is lost on its way to the dead-letter topic: either each copy can be read
/// there, unless retention has dropped it since, and the jobs have left their queue;
/// or every job is up for reclaim in its queue, whose records are as they were.
pub proof fn dead_letters_are_not_lost(
    v: EngineView,
    name: Seq<char>,
    dl: Seq<char>,
    seqs: Seq<u64>,
    copies: Seq<StoredRecord>,
    now: i64,
    i: int,
    seq: u64,
)
    requires
        v.ok(),
        v.quiet(),
        v.topics.contains_key(name),
        dl != name,
        forall|k: int|
            0 <= k < copies.len() ==> (#[trigger] copies[k]).ok() && !copies[k].deleted,
        0 <= i < copies.len(),
        seqs.contains(seq),
    ensures
        ({
            let w = v.with_dead_letter(dl, now);
            let u = v.moves_dead_letters(name, dl, seqs, copies, now);
            if w.takes_dead_letters(dl, copies) {
                let at = (w.topics[dl].head + 1 + i) as u64;
                &&& u.topics[dl].has_live(at) && u.topics[dl].rec(at) == copies[i] || at
                    < u.topics[dl].earliest() && !u.topics[dl].keeps_all()
                &&& !u.topics[name].has_live(seq)
            } else {
                &&& u.topics[name].queue->0.reclaim.contains(seq)
                &&& u.topics[name].recs == v.topics[name].recs
            }
        }),
{
    let w = v.with_dead_letter(dl, now);
    if !v.topics.contains_key(dl) && v.put_refusal(dl, default_config()) is None {
        put_keeps_quiet(v, dl, default_config(), now);
    }
    if w.takes_dead_letters(dl, copies) {
        let d = w.topics[dl];
        landed_rests(d, copies, now);
        landed_record_is_readable(d, copies, None, now, i);
        topic_keeps_quiet(w, d.landed(copies, now), w.total);
        let x = w.with_topic(d.landed(copies, now));
        assert(x.topics.contains_key(name));
        without_jobs_keeps_quiet(x, name, seqs);
        acknowledged_jobs_are_done(x, name, seqs);
        let u = x.without_jobs(name, seqs, Set::empty());
        assert(u.topics[dl] == x.topics[dl]);
    }
}

/// A record that can be read reaches its reader: what is live, not too old and not
/// the reader's own is in the batch that passes its sequence number.
pub proof fn live_record_reaches_the_reader(
    t: TopicView,
    node: Option<NodeFilter>,
    now: i64,
    start: u64,
    limit: u64,
    budget: u64,
    seqs: Seq<u64>,
    next: u64,
    seq: u64,
)
    requires
        t.is_batch(node, now, start, limit, budget, seqs, next),
        start < seq <= next,
        t.has_live(seq),
        t.config.ttl_ms == 0 || now - t.rec(seq).ts <= t.config.ttl_ms,
        !own_record(t.reader(node), t.rec(seq).node),
    ensures
        seqs.contains(seq),
{
    assert(t.delivers(node, now, seq));
}

/// A reader never gets the records of the nodes it stands for, unless the topic is
/// set to deliver them.
pub proof fn own_records_are_not_delivered(
    t: TopicView,
    node: NodeFilter,
    now: i64,
    seq: u64,
)
    requires
        t.config.dedupe_node,
        t.has(seq),
        t.rec(seq).node is Some,
        node.covers(t.rec(seq).node->0@),
    ensures
        !t.delivers(Some(node), now, seq),
{
}

/// A reader is told of a gap exactly where it is ahead of the topic, or something
/// beyond its cursor was lost.
pub proof fn gap_is_reported_exactly(t: TopicView, from_seq: u64)
    ensures
        t.gap(from_seq) is None <==> from_seq <= t.head && after(from_seq) >= t.first_kept(),
{
}

/// A topic that lost nothing reports no gap to a reader who is not ahead of it.
pub proof fn no_loss_no_gap(t: TopicView, from_seq: u64)
    requires
        t.floors.lost() == 0,
        t.seq_base == SEQ_BASE,
        from_seq <= t.head,
    ensures
        t.gap(from_seq) is None,
{
}

/// A router keeps the order of what it forwards.
pub proof fn forwarding_keeps_order(r: Router, a: Seq<ForwardRecord>, b: Seq<ForwardRecord>)
    ensures
        carried_all(r, a + b) == carried_all(r, a) + carried_all(r, b),
    decreases b.len(),
{
    if b.len() == 0 {
        assert(a + b =~= a);
        assert(carried_all(r, a) + carried_all(r, b) =~= carried_all(r, a));
    } else {
        forwarding_keeps_order(r, a, b.drop_last());
        assert((a + b).drop_last() =~= a + b.drop_last());
        assert((a + b).last() == b.last());
        assert(carried_all(r, a + b) =~= carried_all(r, a) + carried_all(r, b));
    }
}

/// A record that was accepted once is never refused on its way along a router
/// without a filter.
pub proof fn forwarding_refuses_nothing(r: Router, rec: ForwardRecord)
    requires
        record_refusal(rec.data, rec.tag, rec.node, rec.meta) is None,
        r.filter is None,
    ensures
        passes(r, rec),
        r.preserve_node ==> carried(r, rec).node == rec.node,
{
}

/// The sequence number that a router's next record gets follows on what the router
/// has forwarded.
pub proof fn dest_seqs_follow_on(g: RouterView, name: Seq<char>, head: u64, count: u64)
    requires
        number(g.totals, name) + count <= u64::MAX,
    ensures
        ({
            let h = g.noted(name, head, count);
            &&& number(h.bases, name) + number(h.totals, name) + 1 == number(g.bases, name)
                + number(g.totals, name) + 1 + count
            &&& number(h.cursors, name) == head
        }),
{
}

/// The number of topics stays within the limit.
pub proof fn topics_stay_within_limit(v: EngineView, name: Seq<char>, config: TopicConfig, now: i64)
    requires
        v.ok(),
        v.limits.max_topics != 0,
        v.topics.dom().len() <= v.limits.max_topics,
        v.put_refusal(name, config) is None,
    ensures
        v.with_put(name, config, now).topics.dom().len() <= v.limits.max_topics,
{
    let w = v.with_put(name, config, now);
    if v.topics.contains_key(name) {
        assert(w.topics.dom() =~= v.topics.dom());
    } else {
        assert(w.topics.dom() =~= v.topics.dom().insert(name));
    }
}

/// The bytes that count stay within the quota.
pub proof fn bytes_stay_within_quota(v: EngineView, name: Seq<char>, req: WriteRequest, now: i64)
    requires
        v.limits.max_total_bytes != 0,
        v.total <= v.limits.max_total_bytes,
    ensures
        v.begin(name, req, now).1.total <= v.limits.max_total_bytes,
{
}

/// Once a topic is deleted no router has an end at it, and no other router is gone.
pub proof fn deletion_cascades(v: EngineView, name: Seq<char>, n: Seq<char>)
    requires
        v.routers.routers.contains_key(n),
    ensures
        ({
            let r = v.routers.routers[n];
            let gone = r.source@ == name || r.dest@ == name;
            v.without_topic(name).routers.routers.contains_key(n) <==> !gone
        }),
{
}

/// The type of a topic never changes, nor whether its records live in memory alone.
pub proof fn type_is_immutable(v: EngineView, name: Seq<char>, config: TopicConfig)
    requires
        v.topics.contains_key(name),
        v.put_refusal(name, config) is None,
    ensures
        v.topics[name].config.topic_type == config.topic_type,
        (v.topics[name].config.class() == Durability::Memory) == (config.class()
            == Durability::Memory),
{
}

/// Settings that were written out say the same again, and `durable` says whether
/// the class is that of the disk flush.
pub proof fn settings_agree(c: TopicConfig)
    ensures
        c.normalized().normalized() == c.normalized(),
        c.normalized().durable <==> c.normalized().class() == Durability::Fsync,
        c.normalized().class() == c.class(),
{
}

} // verus!
