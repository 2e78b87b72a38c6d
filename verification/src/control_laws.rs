//! What the requests around topics and routers are for: creating, describing, listing and
//! removing them.
use crate::config::{is_name_char, valid_name, valid_router_name, SEQ_BASE};
use crate::engine::{allowed, answers_put, answers_removal, BoxDeleteResponse, EngineView};
use crate::listing::{first_page, name_listed, next_token, page_of, router_listed,
    router_summarises, start_after, summarises, watch_starts, BoxSummary, RouterSummary, WatchBoxOptions};
use crate::names::in_order_lists;
use crate::payload::{token, token_fits};
use crate::router::{closes_cycle, edges, fans_in, leads, number, path_in, reading, touching};
use crate::routing::{asks_for, RouterCreateRequest};
use crate::state::{describes, BoxStateResponse};
use crate::text::{text_lt, texts};
use crate::topic_state::{fresh_topic, TopicView, TS_NEVER};
use crate::types::{default_config, Discard, Durability, Error, ErrorCode, ErrorDetail, Router,
    RouterGuarantee, TopicConfig, TopicType};
use vstd::prelude::*;

verus! {

/// A name is made of letters, digits and a few signs, and has between one and 256 of them;
/// that of a router may hold `>` as well.
pub proof fn what_a_name_is(s: Seq<char>)
    ensures
        valid_name(s) <==> 1 <= s.len() <= 256 && forall|i: int|
            0 <= i < s.len() ==> sign_of_a_name(#[trigger] s[i]),
        valid_router_name(s) <==> 1 <= s.len() <= 256 && forall|i: int|
            0 <= i < s.len() ==> (sign_of_a_name(#[trigger] s[i]) || s[i] == '>'),
{
    assert forall|i: int| 0 <= i < s.len() implies is_name_char(#[trigger] s[i])
        == sign_of_a_name(s[i]) by {}
}

/// A letter, a digit, or one of `-`, `_`, `.`, `:`, `/` and `$`.
pub open spec fn sign_of_a_name(c: char) -> bool {
    ||| 'a' <= c && c <= 'z'
    ||| 'A' <= c && c <= 'Z'
    ||| '0' <= c && c <= '9'
    ||| c == '-' || c == '_' || c == '.'
    ||| c == ':' || c == '/' || c == '$'
}

/// A topic is created empty, with its settings, under a number of its own; a topic that is
/// there gets the new settings and keeps its records, as far as they allow it. No other
/// topic changes, and no router.
pub proof fn a_topic_is_created_or_changed(
    v: EngineView,
    name: Seq<char>,
    config: TopicConfig,
    now: i64,
)
    requires
        v.next_topic_id < u64::MAX,
        v.topics.contains_key(name) ==> v.topics[name].name == name && v.topics[name].ok(),
    ensures
        ({
            let w = v.with_put(name, config, now);
            let t = w.topics[name];
            &&& w.topics.contains_key(name)
            &&& t.name == name
            &&& t.config.ttl_ms == config.ttl_ms
            &&& t.config.cap_records == config.cap_records
            &&& t.config.cap_bytes == config.cap_bytes
            &&& t.config.discard == config.discard
            &&& t.config.topic_type == config.topic_type
            &&& t.config.idempotency_window_ms == config.idempotency_window_ms
            &&& t.config.dedupe_node == config.dedupe_node
            &&& t.config.auto_create == config.auto_create
            &&& t.config.lease_ms == config.lease_ms
            &&& t.config.max_deliveries == config.max_deliveries
            &&& t.config.dead_letter == config.dead_letter
            &&& t.config.leases_durable == config.leases_durable
            &&& t.config.claim_jitter_ms == config.claim_jitter_ms
            &&& t.config.priority == config.priority
            &&& t.config.auto_priority == config.auto_priority
            &&& t.config.durability is Some
            &&& config.durability is Some ==> t.config.durability == config.durability
            &&& config.durability is None && config.durable ==> t.config.durability == Some(
                Durability::Fsync,
            )
            &&& config.durability is None && !config.durable ==> t.config.durability == Some(
                Durability::Disk,
            )
            &&& t.config.durable <==> t.config.durability == Some(Durability::Fsync)
            &&& !v.topics.contains_key(name) ==> {
                &&& t.recs.len() == 0
                &&& t.head == 0
                &&& t.live == 0
                &&& t.bytes == 0
                &&& t.tail() == 1
                &&& t.topic_id == v.next_topic_id
                &&& w.next_topic_id == v.next_topic_id + 1
                &&& t.last_write == TS_NEVER
                &&& t.last_read == TS_NEVER
                &&& t.queue is Some <==> config.topic_type == TopicType::Queue
                &&& t.queue is Some ==> t.queue->0.leases.dom() == Set::<u64>::empty()
                    && t.queue->0.reclaim == Set::<u64>::empty() && t.queue->0.claim_cursor == 1
            }
            &&& v.topics.contains_key(name) ==> {
                &&& t.topic_id == v.topics[name].topic_id
                &&& t.head == v.topics[name].head
                &&& t.queue == v.topics[name].queue
                &&& w.next_topic_id == v.next_topic_id
                &&& config.ttl_ms == 0 && config.cap_records == 0 && config.cap_bytes == 0
                    ==> t.recs == v.topics[name].recs && t.live == v.topics[name].live
            }
            &&& forall|n: Seq<char>|
                n != name ==> (#[trigger] w.topics.contains_key(n) <==> v.topics.contains_key(n))
                    && w.topics[n] == v.topics[n]
            &&& w.routers == v.routers
            &&& w.total == v.total
            &&& w.limits == v.limits
        }),
{
}

/// What a topic is refused for: a name that is none, a queue that is its own place for dead
/// letters, another type or another home than the topic has, and a topic too many.
pub proof fn what_a_topic_is_refused_for(v: EngineView, name: Seq<char>, config: TopicConfig)
    ensures
        ({
            let r = v.put_refusal(name, config);
            let memory = config.durability == Some(Durability::Memory);
            let own = config.topic_type == TopicType::Queue && config.dead_letter is Some
                && config.dead_letter->0@ == name;
            if !valid_name(name) || own {
                r == Some(ErrorCode::InvalidRequest)
            } else if v.topics.contains_key(name) {
                let was = v.topics[name].config;
                let was_memory = was.durability == Some(Durability::Memory);
                if was.topic_type != config.topic_type || was_memory != memory {
                    r == Some(ErrorCode::TopicExistsIncompatible)
                } else {
                    r is None
                }
            } else if v.limits.max_topics > 0 && v.topics.dom().len() >= v.limits.max_topics {
                r == Some(ErrorCode::Throttled)
            } else {
                r is None
            }
        }),
{
}

/// The settings a topic has when nothing is said of it: a log on the disk that keeps
/// everything, drops nothing it was not asked to, and keeps a node's own records from it.
pub proof fn what_the_default_is()
    ensures
        ({
            let c = default_config();
            &&& c.topic_type == TopicType::Log
            &&& c.ttl_ms == 0 && c.cap_records == 0 && c.cap_bytes == 0
            &&& c.class() == Durability::Disk
            &&& c.auto_create && c.dedupe_node
            &&& c.idempotency_window_ms == 120000
            &&& c.lease_ms == 30000
            &&& c.max_deliveries == 0 && c.dead_letter is None && !c.leases_durable
            &&& c.discard == Discard::Old
            &&& c.priority is None && c.auto_priority
            &&& c.claim_jitter_ms == 0
        }),
{
}

/// A topic that is removed is gone, with the routers that have an end at it, and what it
/// held no longer counts; every other topic and every other router stays.
pub proof fn a_topic_is_removed(v: EngineView, name: Seq<char>)
    requires
        v.topics.contains_key(name),
    ensures
        ({
            let w = v.without_topic(name);
            &&& !w.topics.contains_key(name)
            &&& forall|n: Seq<char>|
                n != name ==> (#[trigger] w.topics.contains_key(n) <==> v.topics.contains_key(n))
                    && w.topics[n] == v.topics[n]
            &&& forall|n: Seq<char>| #[trigger]
                w.routers.routers.contains_key(n) <==> v.routers.routers.contains_key(n)
                    && v.routers.routers[n].source@ != name && v.routers.routers[n].dest@ != name
            &&& forall|n: Seq<char>| #[trigger]
                w.routers.routers.contains_key(n) ==> w.routers.routers[n]
                    == v.routers.routers[n] && number(w.routers.cursors, n) == number(
                    v.routers.cursors,
                    n,
                ) && number(w.routers.totals, n) == number(v.routers.totals, n)
            &&& v.topics[name].bytes <= v.total ==> w.total == v.total - v.topics[name].bytes
            &&& w.next_topic_id == v.next_topic_id
        }),
{
}

/// A topic is described as it is: its type and settings, its head and the number that comes
/// next, the first number that can be read, how much it holds, when it was last written to
/// and read, if ever, and, of a queue, its counters.
pub proof fn a_topic_is_described_as_it_is(
    r: BoxStateResponse,
    t: TopicView,
    u: TopicView,
    now: i64,
)
    requires
        describes(r, t, u, now),
        t.head < u64::MAX,
    ensures
        r.topic_type == t.config.topic_type,
        r.config == t.config,
        r.head_seq == t.head,
        r.next_seq == t.head + 1,
        r.earliest_seq == t.earliest(),
        r.count == u.live,
        r.bytes == u.bytes,
        t.last_write == i64::MIN ==> r.last_write_ts is None,
        t.last_write != i64::MIN ==> r.last_write_ts == Some(t.last_write),
        t.last_read == i64::MIN ==> r.last_read_ts is None,
        t.last_read != i64::MIN ==> r.last_read_ts == Some(t.last_read),
        r.queue is Some <==> t.queue is Some,
        r.queue is Some ==> r.queue->0 == u.counters(now),
{
}

/// To look at a topic enforces retention, and counts as reading it only where that is asked
/// for.
pub proof fn looking_counts_as_reading_where_asked(
    v: EngineView,
    name: Seq<char>,
    touch: bool,
    now: i64,
)
    ensures
        ({
            let t = v.topics[name].retained(now);
            let s = v.seen_topic(name, touch, now);
            let g = v.glance(name, touch, now);
            &&& !touch ==> s == t && g == t
            &&& touch ==> s == (TopicView { last_read: now, last_consumed: now, ..t })
            &&& touch ==> g == (TopicView { last_consumed: now, ..t })
        }),
        ({
            let t = v.topics[name];
            let c = t.counted(now);
            &&& c == (TopicView { queue: c.queue, ..t.retained(now) })
            &&& c.queue == Some(t.queue->0.swept(now))
        }),
{
}

/// A listing shows a topic exactly where its name begins with the prefix asked for, begins
/// with one of those allowed, if any are named, and comes after the name to go on from.
pub proof fn what_a_listing_shows(
    n: Seq<char>,
    prefix: Option<Seq<char>>,
    allow: Seq<Seq<char>>,
    after: Option<Seq<char>>,
)
    ensures
        name_listed(n, prefix, allow, after) <==> {
            &&& prefix is Some ==> begins_with(n, prefix->0)
            &&& allow.len() == 0 || exists|i: int|
                0 <= i < allow.len() && begins_with(n, #[trigger] allow[i])
            &&& after is Some ==> text_lt(after->0, n)
        },
{
    if prefix is Some {
        begins(n, prefix->0);
    }
    assert forall|i: int| 0 <= i < allow.len() implies (#[trigger] allow[i]).is_prefix_of(n)
        == begins_with(n, allow[i]) by {
        begins(n, allow[i]);
    }
    if allow.len() > 0 {
        if allowed(n, allow) {
            let i = choose|i: int| 0 <= i < allow.len() && (#[trigger] allow[i]).is_prefix_of(n);
            assert(begins_with(n, allow[i]));
        }
        if exists|i: int| 0 <= i < allow.len() && begins_with(n, #[trigger] allow[i]) {
            let i = choose|i: int| 0 <= i < allow.len() && begins_with(n, #[trigger] allow[i]);
            assert(allow[i].is_prefix_of(n));
        }
    }
}

/// A text begins with another.
pub open spec fn begins_with(n: Seq<char>, p: Seq<char>) -> bool {
    n.len() >= p.len() && n.take(p.len() as int) == p
}

proof fn begins(n: Seq<char>, p: Seq<char>)
    ensures
        p.is_prefix_of(n) == begins_with(n, p),
{
    if p.is_prefix_of(n) {
        assert(n.take(p.len() as int) =~= p);
    }
    if begins_with(n, p) {
        assert(p.is_prefix_of(n));
    }
}

/// A listing shows a router exactly where its name would be shown, both its ends begin with
/// one of the prefixes allowed, and they are the ones asked for.
pub proof fn what_a_listing_of_routers_shows(
    r: Router,
    prefix: Option<Seq<char>>,
    source: Option<Seq<char>>,
    dest: Option<Seq<char>>,
    allow: Seq<Seq<char>>,
    after: Option<Seq<char>>,
)
    ensures
        router_listed(r, prefix, source, dest, allow, after) <==> {
            &&& name_listed(r.name@, prefix, allow, after)
            &&& name_listed(r.source@, None, allow, None)
            &&& name_listed(r.dest@, None, allow, None)
            &&& source is Some ==> r.source@ == source->0
            &&& dest is Some ==> r.dest@ == dest->0
        },
{
}

/// One text comes before another where it is a proper beginning of it, or has the lower
/// character at the first place where they differ.
pub proof fn how_texts_are_ordered(a: Seq<char>, b: Seq<char>)
    ensures
        text_lt(a, b) <==> exists|k: int|
            #![trigger a.take(k)]
            {
                &&& 0 <= k <= a.len()
                &&& k < b.len()
                &&& a.take(k) == b.take(k)
                &&& k == a.len() || (a[k] as u32) < (b[k] as u32)
            },
    decreases a.len(),
{
    if b.len() == 0 {
    } else if a.len() == 0 {
        assert(a.take(0) =~= b.take(0));
    } else if a[0] != b[0] {
        if (a[0] as u32) < (b[0] as u32) {
            assert(a.take(0) =~= b.take(0));
        }
        if exists|k: int|
            #![trigger a.take(k)]
            0 <= k <= a.len() && k < b.len() && a.take(k) == b.take(k) && (k == a.len() || (
            a[k] as u32) < (b[k] as u32)) {
            let k = choose|k: int|
                #![trigger a.take(k)]
                0 <= k <= a.len() && k < b.len() && a.take(k) == b.take(k) && (k == a.len() || (
                a[k] as u32) < (b[k] as u32));
            if k > 0 {
                assert(a.take(k)[0] == b.take(k)[0]);
            }
        }
    } else {
        let (x, y) = (a.drop_first(), b.drop_first());
        how_texts_are_ordered(x, y);
        if text_lt(x, y) {
            let k = choose|k: int|
                #![trigger x.take(k)]
                {
                    &&& 0 <= k <= x.len()
                    &&& k < y.len()
                    &&& x.take(k) == y.take(k)
                    &&& k == x.len() || (x[k] as u32) < (y[k] as u32)
                };
            assert(a.take(k + 1) =~= seq![a[0]] + x.take(k));
            assert(b.take(k + 1) =~= seq![b[0]] + y.take(k));
            assert(a.take(k + 1) == b.take(k + 1));
        }
        if exists|k: int|
            #![trigger a.take(k)]
            0 <= k <= a.len() && k < b.len() && a.take(k) == b.take(k) && (k == a.len() || (
            a[k] as u32) < (b[k] as u32)) {
            let k = choose|k: int|
                #![trigger a.take(k)]
                0 <= k <= a.len() && k < b.len() && a.take(k) == b.take(k) && (k == a.len() || (
                a[k] as u32) < (b[k] as u32));
            assert(k > 0) by {
                if k == 0 {
                    assert(a[0] == b[0]);
                }
            }
            assert(x.take(k - 1) =~= a.take(k).drop_first());
            assert(y.take(k - 1) =~= b.take(k).drop_first());
            assert(x.take(k - 1) == y.take(k - 1));
        }
    }
}

/// A page holds as many entries as asked for, between one and a thousand, from the start of
/// what is left; and all of it where that is less.
pub proof fn how_large_a_page_is(all: Seq<Seq<char>>, page_size: usize)
    ensures
        page_size == 0 ==> page_of(page_size) == 1,
        1 <= page_size <= 1000 ==> page_of(page_size) == page_size,
        page_size > 1000 ==> page_of(page_size) == 1000,
        first_page(all, page_size).len() == (if all.len() > page_of(page_size) {
            page_of(page_size)
        } else {
            all.len() as int
        }),
        forall|i: int|
            0 <= i < first_page(all, page_size).len() ==> #[trigger] first_page(all, page_size)[i]
                == all[i],
{
}

/// An entry of a listing shows the topic as it is.
pub proof fn an_entry_shows_its_topic(s: BoxSummary, t: TopicView)
    requires
        summarises(s, t),
    ensures
        s.box_name@ == t.name,
        s.head_seq == t.head,
        s.earliest_seq == t.earliest(),
        s.count == t.live,
        s.bytes == t.bytes,
        s.durable == t.config.durable,
{
}

/// An entry of a listing shows the router as it is.
pub proof fn an_entry_shows_its_router(s: RouterSummary, v: EngineView, name: Seq<char>)
    requires
        router_summarises(s, v, name),
    ensures
        s.router == v.routers.routers[name].name,
        s.source == v.routers.routers[name].source,
        s.dest == v.routers.routers[name].dest,
        v.routers.totals.contains_key(name) ==> s.forwarded_total == v.routers.totals[name],
        !v.routers.totals.contains_key(name) ==> s.forwarded_total == 0,
{
}

/// A topic is watched from its head, where only what comes next is asked for, and else from
/// the cursor given; a topic that is not there is left out.
pub proof fn where_a_watch_starts(
    v: EngineView,
    boxes: Seq<(String, WatchBoxOptions)>,
    b: (String, WatchBoxOptions),
    now: i64,
)
    requires
        v.topics.contains_key(b.0@) ==> v.topics[b.0@].ok(),
    ensures
        watch_starts(v, Seq::<(String, WatchBoxOptions)>::empty(), now).len() == 0,
        !v.topics.contains_key(b.0@) ==> watch_starts(v, boxes.push(b), now) == watch_starts(
            v,
            boxes,
            now,
        ),
        v.topics.contains_key(b.0@) ==> {
            let all = watch_starts(v, boxes.push(b), now);
            let w = all.last();
            &&& all.len() == watch_starts(v, boxes, now).len() + 1
            &&& all.drop_last() == watch_starts(v, boxes, now)
            &&& w.0 == b.0
            &&& b.1.tail ==> w.1.from_seq == v.topics[b.0@].head
            &&& !b.1.tail ==> w.1.from_seq == b.1.from_seq
            &&& w.1.head_seq == v.topics[b.0@].head
            &&& w.1.earliest_seq == v.topics[b.0@].retained(now).earliest()
        },
{
    assert(boxes.push(b).drop_last() =~= boxes);
    let all = watch_starts(v, boxes.push(b), now);
    if v.topics.contains_key(b.0@) {
        crate::topic_laws::retention_keeps(v.topics[b.0@], now);
        assert(all.drop_last() =~= watch_starts(v, boxes, now));
    }
}

/// A router is what was asked for.
pub proof fn a_router_is_what_was_asked_for(r: Router, name: Seq<char>, req: RouterCreateRequest)
    requires
        asks_for(r, name, req),
    ensures
        r.name@ == name,
        r.source == req.source,
        r.dest == req.dest,
        r.preserve_node == req.preserve_node,
        r.preserve_tag == req.preserve_tag,
        r.create_dest == req.create_dest,
        r.filter == req.filter,
        r.allow_cycle == req.allow_cycle,
        r.guarantee == RouterGuarantee::AtLeastOnce,
{
}

/// What a router is refused for, in this order: names that are none, or a source that is its
/// destination; a destination that is not there and may not be created; a router too many;
/// a cycle, unless cycles are asked for; and a second source for its destination, unless
/// that is permitted.
pub proof fn what_a_router_is_refused_for(
    v: EngineView,
    name: Seq<char>,
    req: RouterCreateRequest,
)
    ensures
        ({
            let r = v.router_refusal(name, req);
            let rs = v.routers.routers;
            let (a, b) = (req.source@, req.dest@);
            let cycle = a == b || exists|p: Seq<Seq<char>>| #[trigger]
                path_in(edges(rs, Some(name)), p) && p[0] == b && p.last() == a;
            let second = exists|n: Seq<char>| #[trigger]
                rs.contains_key(n) && n != name && rs[n].dest@ == b && rs[n].source@ != a;
            if !valid_router_name(name) || !valid_name(a) || !valid_name(b) || a == b {
                r == Some(ErrorCode::InvalidRequest)
            } else if !v.topics.contains_key(b) && !req.create_dest {
                r == Some(ErrorCode::TopicNotFound)
            } else if !rs.contains_key(name) && v.limits.max_routers > 0 && rs.dom().len()
                >= v.limits.max_routers {
                r == Some(ErrorCode::Throttled)
            } else if cycle && !req.allow_cycle {
                r == Some(ErrorCode::RouterCycle)
            } else if second && !v.fan_in {
                r == Some(ErrorCode::TopicExistsIncompatible)
            } else {
                r is None
            }
        }),
{
    let rs = v.routers.routers;
    let (a, b) = (req.source@, req.dest@);
    assert(closes_cycle(rs, Some(name), a, b) == (a == b || leads(edges(rs, Some(name)), b, a)));
    if fans_in(rs, name, a, b) {
        let n = choose|n: Seq<char>|
            n != name && #[trigger] rs.contains_key(n) && rs[n].dest@ == b && rs[n].source@ != a;
        assert(rs.contains_key(n));
    }
}

/// A step along the routers: one of them, other than the one left out, reads there and
/// writes here.
pub proof fn what_an_edge_is(
    routers: Map<Seq<char>, Router>,
    skip: Option<Seq<char>>,
    a: Seq<char>,
    b: Seq<char>,
)
    ensures
        edges(routers, skip)(a, b) <==> exists|n: Seq<char>| #[trigger]
            routers.contains_key(n) && Some(n) != skip && routers[n].source@ == a
                && routers[n].dest@ == b,
{
}

/// A router that is taken in reads on from the head of its source, so that it forwards what
/// comes next; what it has forwarded before still counts; no other router and no topic
/// changes.
pub proof fn a_router_starts_at_the_head(v: EngineView, r: Router)
    ensures
        ({
            let w = v.with_router(r);
            &&& w.routers.routers.contains_key(r.name@)
            &&& w.routers.routers[r.name@] == r
            &&& v.topics.contains_key(r.source@) ==> number(w.routers.cursors, r.name@)
                == v.topics[r.source@].head
            &&& !v.topics.contains_key(r.source@) ==> number(w.routers.cursors, r.name@) == 0
            &&& number(w.routers.totals, r.name@) == number(v.routers.totals, r.name@)
            &&& w.topics == v.topics
            &&& forall|n: Seq<char>|
                n != r.name@ ==> (#[trigger] w.routers.routers.contains_key(n)
                    <==> v.routers.routers.contains_key(n)) && w.routers.routers[n]
                    == v.routers.routers[n] && number(w.routers.cursors, n) == number(
                    v.routers.cursors,
                    n,
                )
        }),
{
}

/// The routers that read from a topic, and those that have an end at it.
pub proof fn which_routers_a_topic_has(
    routers: Map<Seq<char>, Router>,
    topic: Seq<char>,
    n: Seq<char>,
)
    ensures
        reading(routers, topic).contains(n) <==> routers.contains_key(n) && routers[n].source@
            == topic,
        touching(routers, topic).contains(n) <==> routers.contains_key(n) && (routers[n].source@
            == topic || routers[n].dest@ == topic),
{
}

/// A topic that is missing is created with the settings of one of which nothing is said,
/// unless there are as many topics as there may be.
pub proof fn a_missing_end_is_created(v: EngineView, name: Seq<char>, now: i64)
    ensures
        v.topics.contains_key(name) ==> v.with_missing(name, now) == v && !v.blocks(name),
        !v.topics.contains_key(name) ==> {
            let w = v.with_missing(name, now);
            &&& w.topics.contains_key(name)
            &&& w.topics[name].recs.len() == 0
            &&& w.topics[name].config == (TopicConfig {
                durability: Some(Durability::Disk),
                ..default_config()
            })
            &&& v.blocks(name) <==> v.limits.max_topics > 0 && v.topics.dom().len()
                >= v.limits.max_topics
        },
{
}

/// A topic that was created or changed is answered with whether it is new, and its settings
/// as they are, with the class written out.
pub proof fn the_answer_to_a_put(
    v: EngineView,
    name: Seq<char>,
    config: TopicConfig,
    p: (bool, TopicConfig),
    now: i64,
)
    requires
        answers_put(v, name, config, p),
        v.topics.contains_key(name) ==> v.topics[name].name == name && v.topics[name].ok(),
    ensures
        p.0 <==> !v.topics.contains_key(name),
        p.1 == v.with_put(name, config, now).topics[name].config,
        p.1.durability is Some,
        config.durability is Some ==> p.1.durability == config.durability,
        p.1.durable <==> p.1.durability == Some(Durability::Fsync),
        p.1 == (TopicConfig { durability: p.1.durability, durable: p.1.durable, ..config }),
{
}

/// A topic is removed, with the routers that have an end at it, named in order; one that is
/// not there is no error; and where only an empty one is to go, one that holds records stays,
/// and the answer says how many.
pub proof fn the_answer_to_a_removal(
    v: EngineView,
    name: Seq<char>,
    if_empty: bool,
    now: i64,
    r: Result<BoxDeleteResponse, Error>,
    v2: EngineView,
)
    requires
        v.ok(),
        answers_removal(v, name, if_empty, now, r, v2),
    ensures
        !v.topics.contains_key(name) ==> r is Ok && !r->Ok_0.deleted && v2 == v,
        v.topics.contains_key(name) && !if_empty ==> r is Ok && r->Ok_0.deleted,
        v.topics.contains_key(name) && if_empty ==> {
            let live = v.topics[name].retained(now).live;
            &&& live == 0 ==> r is Ok && r->Ok_0.deleted
            &&& live > 0 ==> r is Err && r->Err_0.code == ErrorCode::TopicNotEmpty
                && r->Err_0.detail == ErrorDetail::Count(live) && v2.topics.contains_key(name)
        },
        v.topics.contains_key(name) && r is Ok ==> {
            &&& !v2.topics.contains_key(name)
            &&& forall|n: Seq<char>|
                n != name ==> (#[trigger] v2.topics.contains_key(n) <==> v.topics.contains_key(n))
                    && v2.topics[n] == v.topics[n]
            &&& forall|n: Seq<char>| #[trigger]
                texts(r->Ok_0.routers_removed@).contains(n) <==> v.routers.routers.contains_key(n)
                    && (v.routers.routers[n].source@ == name || v.routers.routers[n].dest@ == name)
            &&& forall|n: Seq<char>| #[trigger]
                v2.routers.routers.contains_key(n) <==> v.routers.routers.contains_key(n)
                    && v.routers.routers[n].source@ != name && v.routers.routers[n].dest@ != name
        },
{
    if v.topics.contains_key(name) && r is Ok {
        let gone = touching(v.routers.routers, name);
        assert(gone.subset_of(v.routers.routers.dom()));
        vstd::set_lib::lemma_set_subset_finite(v.routers.routers.dom(), gone);
        in_order_lists(gone);
    }
}

/// Settings that are refused are told why: of a topic that is of another type, the type it
/// has and the one asked for; of one that lives in memory alone where the other would not,
/// the two classes; of the limit on topics, the limit.
pub proof fn what_a_refused_topic_is_told(v: EngineView, name: Seq<char>, config: TopicConfig)
    ensures
        ({
            let r = v.put_refusal(name, config);
            let d = v.put_detail(name, config);
            let was = v.topics[name].config;
            &&& r == Some(ErrorCode::Throttled) ==> d == ErrorDetail::Limit(v.limits.max_topics)
            &&& r == Some(ErrorCode::TopicExistsIncompatible) && was.topic_type
                != config.topic_type ==> d == (ErrorDetail::Type {
                existing: was.topic_type,
                requested: config.topic_type,
            })
            &&& r == Some(ErrorCode::TopicExistsIncompatible) && was.topic_type
                == config.topic_type ==> d == (ErrorDetail::Class {
                present: was.class(),
                wanted: config.class(),
            })
            &&& r == Some(ErrorCode::InvalidRequest) ==> d == ErrorDetail::Plain
        }),
{
}

/// A new topic holds nothing: its first record gets the first number, nothing was lost, read
/// or written; a queue holds no job, has handed out none, and has given up none.
pub proof fn a_new_topic_is_empty(name: Seq<char>, id: u64, config: TopicConfig, epoch: u64)
    ensures
        ({
            let t = fresh_topic(name, id, config, SEQ_BASE, epoch);
            &&& t.name == name
            &&& t.topic_id == id
            &&& t.config == config
            &&& t.epoch == epoch
            &&& t.head == 0
            &&& t.tail() == 1
            &&& t.earliest() == 1
            &&& t.live == 0
            &&& t.bytes == 0
            &&& t.floors.lost() == 0
            &&& t.floors.delete_floor == 0
            &&& t.dedupe.dom() =~= Set::<Seq<char>>::empty()
            &&& t.last_write == TS_NEVER && t.last_read == TS_NEVER && t.last_consumed == TS_NEVER
            &&& t.queue is Some <==> config.topic_type == TopicType::Queue
            &&& t.queue is Some ==> {
                let q = t.queue->0;
                &&& q.claim_cursor == 1
                &&& q.dead_lettered == 0
                &&& q.next_lease_id == 1
                &&& q.leases.dom() =~= Set::<u64>::empty()
                &&& q.deliveries.dom() =~= Set::<u64>::empty()
                &&& q.reclaim =~= Set::<u64>::empty()
                &&& q.delayed.len() == 0
            }
            &&& t.idle()
        }),
{
}

/// A listing enforces retention on the topics it shows, and counts as reading them where that
/// is asked for; of the others it changes nothing.
pub proof fn a_listing_looks_at_what_it_shows(
    v: EngineView,
    names: Set<Seq<char>>,
    touch: bool,
    now: i64,
    n: Seq<char>,
)
    requires
        v.topics.contains_key(n),
    ensures
        ({
            let w = v.glanced(names, touch, now);
            let u = w.topics[n];
            &&& w.topics.contains_key(n)
            &&& !names.contains(n) ==> u == v.topics[n]
            &&& names.contains(n) ==> {
                &&& u.recs == v.topics[n].retained(now).recs
                &&& u.floors == v.topics[n].retained(now).floors
                &&& touch ==> u.last_consumed == now
                &&& !touch ==> u == v.topics[n].retained(now)
            }
            &&& w.routers == v.routers
            &&& w.next_topic_id == v.next_topic_id
        }),
{
}

/// A listing that does not fit a page says where the next one starts: after the last name it
/// shows. One that does says nothing. Without a token, or with an empty one, a listing starts
/// at the start.
pub proof fn where_the_next_page_starts(all: Seq<Seq<char>>, page_size: usize)
    requires
        1 <= page_size <= 1000,
    ensures
        all.len() <= page_size ==> next_token(all, page_size) is None && first_page(all, page_size)
            == all,
        all.len() > page_size && token_fits(all[page_size - 1]) ==> next_token(all, page_size)
            == Some(token(all[page_size - 1])) && first_page(all, page_size) == all.take(
            page_size as int,
        ),
        start_after(None) == Some(None::<Seq<char>>),
        forall|c: &str| #![trigger start_after(Some(c))]
            c@.len() == 0 ==> start_after(Some(c)) == Some(None::<Seq<char>>),
{
}

} // verus!
