//! What forwarding is for: what a router carries on, and what arrives.
use crate::append::PendingAppend;
use crate::engine::EngineView;
use crate::engine_laws::copies_are_live;
use crate::forward::{carried, carried_all, copies, forward_step, forwarded, forwarded_along, head_of,
    passes, ready_dest, routes, setting_out, takes, ForwardRecord, PendingForward};
use crate::router::{number, reading};
use crate::topic_index::{bytes_in, StoredRecord};
use crate::topic_laws::append_keeps;
use crate::topic_state::TopicView;
use crate::types::{Durability, FilterOp, Router};
use crate::write::{batch, WriteRequest};
use crate::write_laws::{each_record_is_stored_as_given, utf8_len};
use vstd::prelude::*;

verus! {

/// What a router carries on has the data and the meta of the record it was made from; its
/// node where the router preserves nodes, and its tag where it preserves tags, and else
/// none.
pub proof fn what_a_router_carries(r: Router, rec: ForwardRecord)
    ensures
        ({
            let c = carried(r, rec);
            &&& c.data == rec.data
            &&& c.meta == rec.meta
            &&& r.preserve_node ==> c.node == rec.node
            &&& !r.preserve_node ==> c.node is None
            &&& r.preserve_tag ==> c.tag == rec.tag
            &&& !r.preserve_tag ==> c.tag is None
        }),
{
}

/// A filter selects a tag: it is the value, or begins with it.
pub open spec fn picks(op: FilterOp, value: Seq<char>, tag: Seq<char>) -> bool {
    match op {
        FilterOp::Eq => tag == value,
        FilterOp::Glob => tag.len() >= value.len() && tag.take(value.len() as int) == value,
    }
}

/// A router lets a record pass exactly where it has no filter, or the record has a tag that
/// the filter selects; and what it carries on is within the limits of a record.
pub proof fn what_a_router_lets_pass(r: Router, rec: ForwardRecord)
    requires
        utf8_len(rec.data.text@) + (match rec.meta {
            Some(m) => utf8_len(m.text@),
            None => 0,
        }) <= 1048576,
        rec.meta is Some ==> utf8_len(rec.meta->0.text@) <= 16384,
        rec.meta is Some && rec.meta->0.keys is Some ==> rec.meta->0.keys->0 <= 64,
        rec.tag is Some ==> utf8_len(rec.tag->0@) <= 256,
        rec.node is Some ==> utf8_len(rec.node->0@) <= 128,
    ensures
        passes(r, rec) <==> match r.filter {
            None => true,
            Some(f) => rec.tag is Some && picks(f.op, f.value@, rec.tag->0@),
        },
{
    if r.filter is Some && rec.tag is Some {
        let (value, tag) = (r.filter->0.value@, rec.tag->0@);
        if value.is_prefix_of(tag) {
            assert(tag.take(value.len() as int) =~= value);
        }
        if tag.len() >= value.len() && tag.take(value.len() as int) == value {
            assert(value.is_prefix_of(tag));
        }
    }
}

/// What a router carries on of a list is what it carries on of each of its records that it
/// lets pass, in their order, and nothing else.
pub proof fn a_router_carries_one_by_one(
    r: Router,
    recs: Seq<ForwardRecord>,
    rec: ForwardRecord,
)
    ensures
        carried_all(r, Seq::<ForwardRecord>::empty()) == Seq::<ForwardRecord>::empty(),
        passes(r, rec) ==> {
            let out = carried_all(r, recs.push(rec));
            &&& out.len() == carried_all(r, recs).len() + 1
            &&& out.drop_last() == carried_all(r, recs)
            &&& out.last().data == rec.data
            &&& out.last().meta == rec.meta
            &&& r.preserve_node ==> out.last().node == rec.node
            &&& r.preserve_tag ==> out.last().tag == rec.tag
        },
        !passes(r, rec) ==> carried_all(r, recs.push(rec)) == carried_all(r, recs),
{
    assert(recs.push(rec).drop_last() =~= recs);
    let out = carried_all(r, recs.push(rec));
    if passes(r, rec) {
        assert(out.drop_last() =~= carried_all(r, recs));
    }
}

/// A router without a filter carries everything on that is within the limits of a record:
/// each with its data and its meta.
pub proof fn a_router_without_a_filter_carries_all(r: Router, recs: Seq<ForwardRecord>)
    requires
        forall|i: int| 0 <= i < recs.len() ==> passes(r, #[trigger] recs[i]),
    ensures
        carried_all(r, recs).len() == recs.len(),
        forall|i: int|
            0 <= i < recs.len() ==> {
                let c = carried_all(r, recs)[i];
                &&& c.data == (#[trigger] recs[i]).data
                &&& c.meta == recs[i].meta
                &&& r.preserve_node ==> c.node == recs[i].node
                &&& r.preserve_tag ==> c.tag == recs[i].tag
            },
    decreases recs.len(),
{
    if recs.len() > 0 {
        let p = recs.drop_last();
        assert forall|i: int| 0 <= i < p.len() implies passes(r, #[trigger] p[i]) by {
            assert(p[i] == recs[i]);
        }
        a_router_without_a_filter_carries_all(r, p);
        a_router_carries_one_by_one(r, p, recs.last());
        assert(p.push(recs.last()) =~= recs);
        let out = carried_all(r, recs);
        assert(passes(r, recs[recs.len() - 1]));
        assert forall|i: int| 0 <= i < recs.len() implies {
            let c = out[i];
            &&& c.data == (#[trigger] recs[i]).data
            &&& c.meta == recs[i].meta
            &&& r.preserve_node ==> c.node == recs[i].node
            &&& r.preserve_tag ==> c.tag == recs[i].tag
        } by {
            if i < p.len() {
                assert(out.drop_last()[i] == out[i]);
                assert(p[i] == recs[i]);
            }
        }
    }
}

/// What sets out along the routers is what was stored: data, meta, node and tag of each
/// record, in order.
pub proof fn what_sets_out_is_what_was_stored(recs: Seq<StoredRecord>, i: int)
    requires
        0 <= i < recs.len(),
        recs[i].data is Some,
    ensures
        setting_out(recs).len() == recs.len(),
        Some(setting_out(recs)[i].data) == recs[i].data,
        setting_out(recs)[i].meta == recs[i].meta,
        setting_out(recs)[i].node == recs[i].node,
        setting_out(recs)[i].tag == recs[i].tag,
{
}

/// A copy is stored in the destination with the data, the meta, the node and the tag that
/// were carried on, at the time of the forwarding.
pub proof fn a_copy_is_stored_as_carried(recs: Seq<ForwardRecord>, now: i64, hops: u8, i: int)
    requires
        0 <= i < recs.len(),
    ensures
        copies(recs, now, hops).len() == recs.len(),
        ({
            let s = copies(recs, now, hops)[i];
            &&& s.data == Some(recs[i].data)
            &&& s.meta == recs[i].meta
            &&& s.node == recs[i].node
            &&& s.tag == recs[i].tag
            &&& s.ts == now
            &&& s.hops == hops
            &&& !s.deleted
            &&& s.payload_resident
        }),
{
}

/// A destination takes copies where it drops old records, or they are within its caps.
pub proof fn what_a_destination_takes(
    v: EngineView,
    r: Router,
    d: TopicView,
    recs: Seq<StoredRecord>,
)
    requires
        d.room(recs.len(), bytes_in(recs) + 1),
        number(v.routers.totals, r.name@) + recs.len() <= u64::MAX,
        d.live + recs.len() < u64::MAX,
    ensures
        takes(v, r, d, recs) <==> d.config.discard == crate::types::Discard::Old || ((
        d.config.cap_records == 0 || d.live + recs.len() <= d.config.cap_records) && (
        d.config.cap_bytes == 0 || d.bytes + bytes_in(recs) <= d.config.cap_bytes)),
{
}

/// Forwarding puts the copies behind the last record of the destination, in order, and
/// makes them readable; the router counts them, and has read up to the head of its source;
/// no other topic changes, and what was in the destination stays.
pub proof fn copies_arrive_behind_the_rest(
    v: EngineView,
    source: Seq<char>,
    r: Router,
    recs: Seq<ForwardRecord>,
    now: i64,
    hops: u8,
    i: int,
)
    requires
        v.topics.contains_key(r.dest@),
        v.topics[r.dest@].name == r.dest@,
        v.topics[r.dest@].ok(),
        v.topics[r.dest@].tail() == v.topics[r.dest@].head + 1,
        v.topics[r.dest@].config.ttl_ms == 0,
        v.topics[r.dest@].config.cap_records == 0,
        v.topics[r.dest@].config.cap_bytes == 0,
        takes(v, r, v.topics[r.dest@], copies(carried_all(r, recs), now, (hops + 1) as u8)),
        r.dest@ != source,
        0 <= i < carried_all(r, recs).len(),
    ensures
        ({
            let d = v.topics[r.dest@];
            let out = carried_all(r, recs);
            let w = forward_step(v, source, r, recs, now, hops);
            let u = w.topics[r.dest@];
            let seq = (d.head + 1 + i) as u64;
            &&& u.head == d.head + out.len()
            &&& u.live == d.live + out.len()
            &&& u.has_live(seq)
            &&& u.rec(seq).data == Some(out[i].data)
            &&& u.rec(seq).meta == out[i].meta
            &&& u.rec(seq).node == out[i].node
            &&& u.rec(seq).tag == out[i].tag
            &&& u.rec(seq).ts == now
            &&& forall|s: u64| #[trigger] d.has(s) ==> u.has(s) && u.rec(s) == d.rec(s)
            &&& forall|n: Seq<char>|
                n != r.dest@ ==> (#[trigger] w.topics.contains_key(n)
                    <==> v.topics.contains_key(n)) && w.topics[n] == v.topics[n]
            &&& number(w.routers.totals, r.name@) == number(v.routers.totals, r.name@) + out.len()
            &&& number(w.routers.cursors, r.name@) == head_of(v, source)
            &&& w.routers.routers == v.routers.routers
        }),
{
    let d = v.topics[r.dest@];
    let out = carried_all(r, recs);
    let stored = copies(out, now, (hops + 1) as u8);
    copies_are_live(out, now, (hops + 1) as u8);
    append_keeps(d, stored, now);
    let a = d.staged(stored).ticketed().published(d.staging(stored), now).turned();
    let b = d.appended(stored, now);
    assert(a == (TopicView { next_ticket: a.next_ticket, turn: a.turn, ..b }));
    assert(b.rec((d.tail() + i) as u64) == stored[i]);
    let w = forward_step(v, source, r, recs, now, hops);
    assert(w.topics == v.topics.insert(r.dest@, a));
}

/// Forwarding along a single router whose destination nobody reads from is one step of that
/// router; without a router that reads from the source nothing changes; and beyond eight
/// hops nothing goes on.
pub proof fn forwarding_goes_along_the_routers(
    v: EngineView,
    source: Seq<char>,
    r: Router,
    recs: Seq<ForwardRecord>,
    now: i64,
    hops: u8,
)
    ensures
        hops >= 8 ==> forwarded(v, source, recs, now, hops) == v,
        routes(v, source).len() == 0 ==> forwarded(v, source, recs, now, hops) == v,
        hops < 8 && routes(v, source) == seq![r] && v.topics.contains_key(r.dest@) && carried_all(
            r,
            recs,
        ).len() > 0 && takes(
            v,
            r,
            ready_dest(v, r, now),
            copies(carried_all(r, recs), now, (hops + 1) as u8),
        ) && reading(v.routers.routers, r.dest@) == Set::<Seq<char>>::empty() ==> forwarded(
            v,
            source,
            recs,
            now,
            hops,
        ) == forward_step(v, source, r, recs, now, hops),
{
    if hops < 8 && routes(v, source) == seq![r] && v.topics.contains_key(r.dest@) && carried_all(
        r,
        recs,
    ).len() > 0 && takes(
        v,
        r,
        ready_dest(v, r, now),
        copies(carried_all(r, recs), now, (hops + 1) as u8),
    ) && reading(v.routers.routers, r.dest@) == Set::<Seq<char>>::empty() {
        let w = forward_step(v, source, r, recs, now, hops);
        let out = carried_all(r, recs);
        crate::names::in_order_is(Seq::<Seq<char>>::empty());
        assert(Seq::<Seq<char>>::empty().to_set() =~= Set::<Seq<char>>::empty());
        assert(w.routers.routers == v.routers.routers);
        assert(routes(w, r.dest@).len() == 0);
        assert(forwarded(w, r.dest@, out, now, (hops + 1) as u8) == w);
        let rest = seq![r].drop_first();
        assert(rest.len() == 0);
        assert(forwarded_along(w, source, rest, recs, now, hops) == w);
        assert(forwarded_along(v, source, seq![r], recs, now, hops) == w);
    }
}

/// What is written to a topic arrives at the destination of its router: the record of a
/// write that the router lets pass is carried on with its data and its meta, with its node
/// or else that of the request, and with its tag, where the router preserves them.
pub proof fn what_is_written_is_carried_on(
    r: Router,
    req: WriteRequest,
    now: i64,
    i: int,
)
    requires
        0 <= i < req.records@.len(),
    ensures
        ({
            let rec = req.records@[i];
            let c = carried(r, setting_out(batch(req.records@, req.node, now))[i]);
            &&& c.data == rec.data
            &&& c.meta == rec.meta
            &&& r.preserve_tag ==> c.tag == rec.tag
            &&& r.preserve_node && rec.node is Some ==> c.node == rec.node
            &&& r.preserve_node && rec.node is None ==> c.node == req.node
        }),
{
    let recs = batch(req.records@, req.node, now);
    each_record_is_stored_as_given(req, now, i);
    what_sets_out_is_what_was_stored(recs, i);
    what_a_router_carries(r, setting_out(recs)[i]);
}

/// Copies that wait for the log are those that the router carries on, and the router moves
/// on only where they can be read.
pub proof fn a_router_moves_on_with_its_copies(
    v: EngineView,
    p: PendingForward,
    committed: bool,
    now: i64,
)
    requires
        v.forward_ready(p),
    ensures
        ({
            let w = v.forward_done(p, committed, now);
            let there = v.topics.contains_key(p.append.name@) && v.topics[p.append.name@].topic_id
                == p.append.topic_id;
            &&& !(committed && there) ==> w.routers == v.routers
            &&& committed && there ==> number(w.routers.totals, p.router@) == number(
                v.routers.totals,
                p.router@,
            ) + p.append.staged.count
            &&& w.routers.routers == v.routers.routers
        }),
{
}

/// Copies that set out wait behind all that their destination holds, each with one hop more
/// than the record it was made from, and cannot be read yet; where the router forwards
/// nothing, nothing waits.
pub proof fn copies_wait_for_the_log(
    v: EngineView,
    r: Router,
    recs: Seq<ForwardRecord>,
    now: i64,
    hops: u8,
)
    requires
        v.topics.contains_key(r.dest@),
        v.topics[r.dest@].name == r.dest@,
        v.topics[r.dest@].ok(),
        hops < 255,
    ensures
        ({
            let d = ready_dest(v, r, now);
            let u = v.forward_begun(r, recs, now, hops).topics[r.dest@];
            let out = carried_all(r, recs);
            &&& u.head == v.topics[r.dest@].head
            &&& v.forwards(r, recs, now, hops) ==> {
                &&& u.live == d.live
                &&& u.bytes == d.bytes
                &&& u.recs.len() == d.recs.len() + out.len()
                &&& u.recs.take(d.recs.len() as int) == d.recs
                &&& forall|i: int|
                    0 <= i < out.len() ==> {
                        let c = #[trigger] u.recs[d.recs.len() + i];
                        &&& c.data == Some(out[i].data)
                        &&& c.meta == out[i].meta
                        &&& c.tag == out[i].tag
                        &&& c.node == out[i].node
                        &&& c.hops == hops + 1
                        &&& c.ts == now
                        &&& !c.deleted
                    }
            }
            &&& !v.forwards(r, recs, now, hops) ==> u == d || u == v.topics[r.dest@]
        }),
{
    crate::topic_laws::retention_keeps(v.topics[r.dest@], now);
    let d = ready_dest(v, r, now);
    let u = v.forward_begun(r, recs, now, hops).topics[r.dest@];
    if v.forwards(r, recs, now, hops) {
        assert(u.recs.take(d.recs.len() as int) =~= d.recs);
    }
}

/// Copies that wait for the log wait under the number of their destination, with its next
/// ticket, behind its last slot, one frame for each, unless it lives in memory alone; and the
/// disk is waited for only where the destination asks for that.
pub proof fn what_copies_wait_with(p: PendingAppend, t: TopicView, recs: Seq<StoredRecord>)
    requires
        p.stages(t, recs),
        recs.len() > 0,
        t.tail() + recs.len() <= u64::MAX,
    ensures
        p.name@ == t.name,
        p.topic_id == t.topic_id,
        p.ticket == t.next_ticket,
        p.staged.start == t.tail(),
        p.staged.count == recs.len(),
        bytes_in(recs) <= u64::MAX ==> p.staged.added_bytes == bytes_in(recs),
        t.config.durability is Some ==> (p.durable <==> t.config.durability == Some(
            Durability::Fsync,
        )),
        t.config.durability == Some(Durability::Memory) ==> p.frames@.len() == 0,
        t.config.durability is Some && t.config.durability != Some(Durability::Memory)
            ==> p.frames@.len() == recs.len(),
{
}

/// What a router has on its way goes to the routers behind it as it carried it, not as it was.
pub proof fn what_goes_on_from_a_destination(
    p: PendingForward,
    v: EngineView,
    source: Seq<char>,
    r: Router,
    recs: Seq<ForwardRecord>,
    now: i64,
    hops: u8,
    i: int,
)
    requires
        p.from(v, source, r, recs, now, hops),
        0 <= i < p.next@.len(),
    ensures
        p.router@ == r.name@,
        p.source@ == source,
        !r.preserve_node ==> p.next@[i].node is None,
        !r.preserve_tag ==> p.next@[i].tag is None,
        p.append.topic_id == ready_dest(v, r, now).topic_id,
        p.next@.len() <= u64::MAX ==> p.append.staged.count == p.next@.len(),
{
    carried_stays_carried(r, recs, i);
}

proof fn carried_stays_carried(r: Router, recs: Seq<ForwardRecord>, i: int)
    requires
        0 <= i < carried_all(r, recs).len(),
    ensures
        !r.preserve_node ==> carried_all(r, recs)[i].node is None,
        !r.preserve_tag ==> carried_all(r, recs)[i].tag is None,
    decreases recs.len(),
{
    if recs.len() > 0 {
        let earlier = carried_all(r, recs.drop_last());
        if i < earlier.len() {
            carried_stays_carried(r, recs.drop_last(), i);
        }
    }
}

/// A write reaches the destination of the router that reads from its topic: behind all that is
/// there, what the router carries on of the write can be read, in order, with the time of the
/// write.
pub proof fn a_write_reaches_the_destination(
    v: EngineView,
    name: Seq<char>,
    req: WriteRequest,
    now: i64,
    r: Router,
    i: int,
)
    requires
        v.begin(name, req, now).0 is Staged,
        v.topics.contains_key(name) ==> v.topics[name].name == name,
        reading(v.routers.routers, name) == set![r.name@],
        v.routers.routers[r.name@] == r,
        reading(v.routers.routers, r.dest@) == Set::<Seq<char>>::empty(),
        r.dest@ != name,
        v.topics.contains_key(r.dest@),
        v.topics[r.dest@].name == r.dest@,
        v.topics[r.dest@].ok(),
        v.topics[r.dest@].tail() == v.topics[r.dest@].head + 1,
        v.topics[r.dest@].config.ttl_ms == 0,
        v.topics[r.dest@].config.cap_records == 0,
        v.topics[r.dest@].config.cap_bytes == 0,
        takes(
            v.write_done(name, req, now),
            r,
            v.topics[r.dest@],
            copies(carried_all(r, setting_out(batch(req.records@, req.node, now))), now, 1),
        ),
        0 <= i < carried_all(r, setting_out(batch(req.records@, req.node, now))).len(),
    ensures
        ({
            let out = carried_all(r, setting_out(batch(req.records@, req.node, now)));
            let d = v.topics[r.dest@];
            let u = v.written(name, req, now).topics[r.dest@];
            let seq = (d.head + 1 + i) as u64;
            &&& u.head == d.head + out.len()
            &&& u.has_live(seq)
            &&& u.rec(seq).data == Some(out[i].data)
            &&& u.rec(seq).meta == out[i].meta
            &&& u.rec(seq).node == out[i].node
            &&& u.rec(seq).tag == out[i].tag
            &&& u.rec(seq).ts == now
            &&& u.rec(seq).hops == 1
        }),
{
    let u = v.write_done(name, req, now);
    let recs = setting_out(batch(req.records@, req.node, now));
    assert(u.topics[r.dest@] == v.topics[r.dest@]);
    assert(u.routers == v.routers);
    assert(reading(v.routers.routers, name).contains(r.name@));
    let one = seq![r.name@];
    assert(one.to_set() =~= set![r.name@]) by {
        assert forall|n: Seq<char>| one.to_set().contains(n) implies set![r.name@].contains(n) by {}
        assert(one[0] == r.name@);
    }
    crate::names::in_order_is(one);
    assert(routes(u, name) =~= seq![r]);
    assert(ready_dest(u, r, now) == v.topics[r.dest@]);
    forwarding_goes_along_the_routers(u, name, r, recs, now, 0);
    copies_arrive_behind_the_rest(u, name, r, recs, now, 0, i);
    let out = carried_all(r, recs);
    let d = v.topics[r.dest@];
    let stored = copies(out, now, 1);
    let w = v.written(name, req, now).topics[r.dest@];
    assert(w == d.landed(stored, now));
    assert(w.recs[d.recs.len() + i] == stored[i]);
}

} // verus!
