//! What replaying the log leads to, however the log is spread over shards.
use crate::checkpoint::{is_snapshot_of, payloads_for, Snapshot};
use crate::config::SEQ_BASE;
use crate::engine::EngineView;
use crate::eviction::{max64, sat_sub};
use crate::jobs::Fetched;
use crate::names::{ascending_distinct, in_order, in_order_lists, take_one_more};
use crate::payload::json_parts;
use crate::recovery::{logged_record, name_of_finds, time_of, with_head_reserved};
use crate::replay::{all_placed, is_divided, is_replay_plan, of_topic, placed, records_for, speaks_of,
    topic_is_replayed_as_logged};
use crate::router::{a_snapshot_gives_the_routers_back, no_routers, touching, RouterView};
use crate::snapshot::{captures, comes_back, kept_router, restored, router_survives_the_snapshot,
    shell_comes_back, topic_survives_the_snapshot, SnapshotRouter};
use crate::topic_index::{bytes_in, hole, live_in, matching, StoredRecord};
use crate::topic_state::{aged_run, dead_run, dead_run_within, erase_set, fresh_topic, shed_run,
    TopicView};
use crate::types::{Durability, Filter, Router, TopicConfig};
use crate::wal::{router_of, selector, WalRecord};
use crate::walfiles::{records_of, SplitFrame};
use vstd::prelude::*;

verus! {

/// Records that nobody can tell apart: they hold the same texts.
pub open spec fn same_record(a: StoredRecord, b: StoredRecord) -> bool {
    &&& a.ts == b.ts
    &&& a.node == b.node
    &&& a.tag == b.tag
    &&& json_parts(a.data) == json_parts(b.data)
    &&& json_parts(a.meta) == json_parts(b.meta)
    &&& a.bytes == b.bytes
    &&& a.deleted == b.deleted
    &&& a.payload_resident == b.payload_resident
    &&& a.hops == b.hops
}

/// Runs of such records.
pub open spec fn same_records(a: Seq<StoredRecord>, b: Seq<StoredRecord>) -> bool {
    &&& a.len() == b.len()
    &&& forall|i: int|
        #![trigger a[i]]
        #![trigger b[i]]
        0 <= i < a.len() ==> same_record(a[i], b[i])
}

/// Topics that nobody can tell apart: all is equal, but that records hold the same
/// texts.
pub open spec fn same_topic(t: TopicView, u: TopicView) -> bool {
    &&& u == (TopicView { recs: u.recs, ..t })
    &&& same_records(t.recs, u.recs)
}

/// A frame is read back as records that nobody can tell apart.
proof fn read_back_the_same(
    a: StoredRecord,
    b: StoredRecord,
    ts: u64,
    node: Option<String>,
    tag: Option<String>,
    blob: String,
)
    requires
        logged_record(a, ts, node, tag, blob),
        logged_record(b, ts, node, tag, blob),
    ensures
        same_record(a, b),
{
}

proof fn sums_agree(a: Seq<StoredRecord>, b: Seq<StoredRecord>)
    requires
        same_records(a, b),
    ensures
        bytes_in(a) == bytes_in(b),
        live_in(a) == live_in(b),
    decreases a.len(),
{
    if a.len() > 0 {
        let x = a.drop_last();
        let y = b.drop_last();
        assert forall|i: int| 0 <= i < x.len() implies same_record(#[trigger] x[i], y[i]) by {
            assert(x[i] == a[i] && y[i] == b[i]);
        }
        sums_agree(x, y);
        assert(same_record(a[a.len() - 1], b[b.len() - 1]));
    }
}

proof fn dead_runs_agree(a: Seq<StoredRecord>, b: Seq<StoredRecord>, i: int)
    requires
        same_records(a, b),
    ensures
        dead_run(a, i) == dead_run(b, i),
    decreases a.len() - i,
{
    if 0 <= i < a.len() && a[i].deleted {
        dead_runs_agree(a, b, i + 1);
    }
}

proof fn aged_runs_agree(a: Seq<StoredRecord>, b: Seq<StoredRecord>, ttl_ms: u64, now: i64, i: int)
    requires
        same_records(a, b),
    ensures
        aged_run(a, ttl_ms, now, i) == aged_run(b, ttl_ms, now, i),
    decreases a.len() - i,
{
    if 0 <= i < a.len() && now - a[i].ts > ttl_ms {
        aged_runs_agree(a, b, ttl_ms, now, i + 1);
    }
}

proof fn shed_runs_agree(a: Seq<StoredRecord>, b: Seq<StoredRecord>, i: int, over: u64)
    requires
        same_records(a, b),
    ensures
        shed_run(a, i, over) == shed_run(b, i, over),
    decreases a.len() - i,
{
    if 0 <= i < a.len() && over > 0 {
        assert(same_record(a[i], b[i]));
        shed_runs_agree(a, b, i + 1, sat_sub(over, a[i].bytes));
    }
}

proof fn parts_agree(a: Seq<StoredRecord>, b: Seq<StoredRecord>, n: int)
    requires
        same_records(a, b),
        0 <= n <= a.len(),
    ensures
        same_records(a.take(n), b.take(n)),
        same_records(a.skip(n), b.skip(n)),
        bytes_in(a.take(n)) == bytes_in(b.take(n)),
        live_in(a.take(n)) == live_in(b.take(n)),
{
    let (x, y) = (a.take(n), b.take(n));
    assert forall|i: int| 0 <= i < x.len() implies same_record(#[trigger] x[i], y[i]) by {
        assert(x[i] == a[i] && y[i] == b[i]);
    }
    let (v, w) = (a.skip(n), b.skip(n));
    assert forall|i: int| 0 <= i < v.len() implies same_record(#[trigger] v[i], w[i]) by {
        assert(v[i] == a[i + n] && w[i] == b[i + n]);
    }
    sums_agree(x, y);
}

proof fn reclaimed_agree(t: TopicView, u: TopicView)
    requires
        same_topic(t, u),
    ensures
        same_topic(t.reclaimed(), u.reclaimed()),
{
    let e = t.floors.earliest(t.seq_base, t.head);
    let k = if e <= t.base {
        0
    } else if e - t.base < t.recs.len() {
        e - t.base
    } else {
        t.recs.len() as int
    };
    dead_runs_agree(t.recs, u.recs, k);
    dead_run_within(t.recs, k);
    parts_agree(t.recs, u.recs, t.reclaim_count());
}

proof fn retained_agree(t: TopicView, u: TopicView, now: i64)
    requires
        same_topic(t, u),
    ensures
        same_topic(t.retained(now), u.retained(now)),
{
    aged_runs_agree(t.recs, u.recs, t.config.ttl_ms, now, 0);
    assert(t.expiry_plan(now) == u.expiry_plan(now));
    assert(t.cap_plan() == u.cap_plan());
    let i = t.place_above(max64(t.cap_plan(), t.expiry_plan(now)));
    parts_agree(t.recs, u.recs, i);
    assert(t.bytes_over(now) == u.bytes_over(now));
    shed_runs_agree(t.recs, u.recs, i, t.bytes_over(now));
    assert(t.evict_plan(now) == u.evict_plan(now));
    if t.retention_due() {
        reclaimed_agree(
            t.with_floors(t.evict_plan(now), t.expiry_plan(now)),
            u.with_floors(u.evict_plan(now), u.expiry_plan(now)),
        );
    }
}

proof fn without_agree(t: TopicView, u: TopicView, victims: Set<u64>)
    requires
        same_topic(t, u),
    ensures
        same_topic(t.without(victims), u.without(victims)),
{
    let a = erase_set(t.base, t.recs, victims);
    let b = erase_set(u.base, u.recs, victims);
    assert forall|i: int| 0 <= i < a.len() implies same_record(#[trigger] a[i], b[i]) by {
        assert(same_record(t.recs[i], u.recs[i]));
    }
    assert(same_records(a, b));
    sums_agree(a, b);
    sums_agree(t.recs, u.recs);
}

proof fn victims_agree(t: TopicView, u: TopicView, filter: Option<Filter>, bound: u64)
    requires
        same_topic(t, u),
    ensures
        t.victims(filter, bound) == u.victims(filter, bound),
{
    match filter {
        Some(f) => {
            let a = matching(t.base, t.recs, f, bound);
            let b = matching(u.base, u.recs, f, bound);
            assert forall|s: u64| a.contains(s) <==> b.contains(s) by {
                if t.base <= s < t.base + t.recs.len() {
                    assert(same_record(t.recs[s - t.base], u.recs[s - t.base]));
                }
            }
            assert(a =~= b);
        },
        None => {
            assert forall|s: u64| t.has_live(s) <==> u.has_live(s) by {
                if t.has(s) {
                    assert(same_record(t.recs[s - t.base], u.recs[s - t.base]));
                }
            }
            assert(t.victims(filter, bound) =~= u.victims(filter, bound));
        },
    }
}

proof fn deletions_agree(
    t: TopicView,
    u: TopicView,
    before: Option<u64>,
    filter: Option<Filter>,
    bound_head: Option<u64>,
    now: i64,
)
    requires
        same_topic(t, u),
    ensures
        same_topic(
            t.after_delete(before, filter, bound_head, now),
            u.after_delete(before, filter, bound_head, now),
        ),
{
    retained_agree(t, u, now);
    let (t1, u1) = (t.retained(now), u.retained(now));
    let bound = t1.delete_bound(before, bound_head);
    victims_agree(t1, u1, filter, bound);
    let victims = t1.victims(filter, bound);
    without_agree(t1, u1, victims);
    let below = if filter is None && before is Some {
        bound
    } else {
        0
    };
    reclaimed_agree(
        t1.without(victims).with_delete_below(below),
        u1.without(victims).with_delete_below(below),
    );
}

proof fn appends_agree(t: TopicView, u: TopicView, a: StoredRecord, b: StoredRecord)
    requires
        same_topic(t, u),
        same_record(a, b),
    ensures
        same_topic(t.appended(seq![a], a.ts), u.appended(seq![b], b.ts)),
        t.room(1, a.bytes as nat) == u.room(1, b.bytes as nat),
{
    let (x, y) = (seq![a], seq![b]);
    assert(same_records(x, y));
    sums_agree(x, y);
    let (v, w) = (t.recs + x, u.recs + y);
    assert forall|i: int| 0 <= i < v.len() implies same_record(#[trigger] v[i], w[i]) by {
        if i < t.recs.len() {
            assert(same_record(t.recs[i], u.recs[i]));
        }
    }
}

/// Heads go up to what is reserved in the same way.
proof fn reserved_heads_agree(t: TopicView, u: TopicView)
    requires
        same_topic(t, u),
    ensures
        same_topic(with_head_reserved(t), with_head_reserved(u)),
{
    let (v, w) = (with_head_reserved(t), with_head_reserved(u));
    assert(same_record(hole(), hole()));
    assert forall|i: int| 0 <= i < v.recs.len() implies same_record(#[trigger] v.recs[i], w.recs[i]) by {
        if i < t.recs.len() {
            assert(same_record(t.recs[i], u.recs[i]));
            assert(v.recs[i] == t.recs[i] && w.recs[i] == u.recs[i]);
        }
    }
}

/// The state of the topic with a number, which stands under the name for it.
pub open spec fn state_of(
    v: EngineView,
    names: spec_fn(u64) -> Seq<char>,
    id: u64,
) -> Option<TopicView> {
    if v.topics.contains_key(names(id)) {
        Some(v.topics[names(id)])
    } else {
        None
    }
}

/// Every number has a name of its own.
pub open spec fn distinct(names: spec_fn(u64) -> Seq<char>) -> bool {
    forall|i: u64, j: u64| #[trigger] names(i) == #[trigger] names(j) ==> i == j
}

/// Every topic stands under the name for its number.
pub open spec fn under_names(v: EngineView, names: spec_fn(u64) -> Seq<char>) -> bool {
    &&& v.topics.dom().finite()
    &&& forall|n: Seq<char>| #[trigger]
        v.topics.contains_key(n) ==> v.topics[n].name == n && names(v.topics[n].topic_id) == n
}

/// A frame of a topic leads from one state of the topic to another.
pub open spec fn topic_replays(
    s: Option<TopicView>,
    name: Seq<char>,
    f: WalRecord,
    now: i64,
    s2: Option<TopicView>,
) -> bool {
    match f {
        WalRecord::Append { seq, ts, node, tag, data, .. } => match s {
            Some(t) => exists|rec: StoredRecord| #[trigger]
                logged_record(rec, ts, node, tag, data) && s2 == Some(
                    if seq == t.tail() && t.room(1, rec.bytes as nat) {
                        t.appended(seq![rec], rec.ts)
                    } else {
                        t
                    },
                ),
            None => s2 is None,
        },
        WalRecord::TopicConfig { topic_id, config, .. } => s2 == match config {
            Some(c) => match s {
                Some(t) => {
                    let kept = TopicConfig { topic_type: t.config.topic_type, ..c };
                    Some((TopicView { config: kept, ..t }).retained(now))
                },
                None => Some(fresh_topic(name, topic_id, c, SEQ_BASE, 1)),
            },
            None => None,
        },
        _ => s2 == match s {
            Some(t) => Some(changed(t, f)),
            None => None,
        },
    }
}

/// What a frame that neither writes a record nor settings makes of a topic.
pub open spec fn changed(t: TopicView, f: WalRecord) -> TopicView {
    match f {
        WalRecord::Delete { before_seq, match_, seqs, bound_head, ts, .. } => if seqs@.len() > 0 {
            t.after_delete_seqs(seqs@.to_set())
        } else {
            t.after_delete(
                before_seq,
                match match_ {
                    Some(m) => Some(selector(m)),
                    None => None,
                },
                bound_head,
                time_of(ts),
            )
        },
        WalRecord::EvictWatermark { evict_floor, expiry_floor, .. } => t.with_floors(
            evict_floor,
            expiry_floor,
        ),
        WalRecord::Lease { seq, event, holder, lease_id, deadline, deliveries, .. } => match t.queue {
            Some(q) => if lease_id == u64::MAX {
                t
            } else if event == 0 && seq == u64::MAX {
                TopicView { queue: Some(q.past_lease(lease_id)), ..t }
            } else {
                TopicView {
                    queue: Some(
                        q.after_event(event, seq, holder, lease_id, time_of(deadline), deliveries),
                    ),
                    ..t
                }
            },
            None => t,
        },
        WalRecord::HeadWatermark { head_seq, .. } => TopicView {
            reserved: max64(t.reserved, head_seq),
            ..t
        },
        _ => t,
    }
}

/// States of a topic that its frames lead through, one after the other.
pub open spec fn topic_chain(
    s: Option<TopicView>,
    name: Seq<char>,
    frames: Seq<WalRecord>,
    now: i64,
    ss: Seq<Option<TopicView>>,
) -> bool {
    &&& ss.len() == frames.len() + 1
    &&& ss[0] == s
    &&& forall|i: int|
        0 <= i < frames.len() ==> topic_replays(#[trigger] ss[i], name, frames[i], now, ss[i + 1])
}

/// The frames of a topic lead from one state of it to another.
pub open spec fn topic_reaches(
    s: Option<TopicView>,
    name: Seq<char>,
    frames: Seq<WalRecord>,
    now: i64,
    s2: Option<TopicView>,
) -> bool {
    exists|ss: Seq<Option<TopicView>>| #[trigger]
        topic_chain(s, name, frames, now, ss) && ss.last() == s2
}

/// One more frame leads on.
proof fn topic_goes_on(
    s: Option<TopicView>,
    name: Seq<char>,
    frames: Seq<WalRecord>,
    now: i64,
    m: Option<TopicView>,
    f: WalRecord,
    s2: Option<TopicView>,
)
    requires
        topic_reaches(s, name, frames, now, m),
        topic_replays(m, name, f, now, s2),
    ensures
        topic_reaches(s, name, frames.push(f), now, s2),
{
    let ss = choose|ss: Seq<Option<TopicView>>| #[trigger]
        topic_chain(s, name, frames, now, ss) && ss.last() == m;
    let tt = ss.push(s2);
    let fs = frames.push(f);
    assert forall|i: int| 0 <= i < fs.len() implies topic_replays(
        #[trigger] tt[i],
        name,
        fs[i],
        now,
        tt[i + 1],
    ) by {
        if i < frames.len() {
            assert(topic_replays(ss[i], name, frames[i], now, ss[i + 1]));
        }
    }
    assert(topic_chain(s, name, fs, now, tt));
}

/// A topic is there after a frame.
pub open spec fn there_next(f: WalRecord, there: bool) -> bool {
    match f {
        WalRecord::TopicConfig { config, .. } => config is Some,
        _ => there,
    }
}

/// A topic is there after its frames.
pub open spec fn there_after(frames: Seq<WalRecord>, there: bool) -> bool
    decreases frames.len(),
{
    if frames.len() == 0 {
        there
    } else {
        there_next(frames.last(), there_after(frames.drop_last(), there))
    }
}

/// The frames of a topic as they are written: they give it its one name, and a record
/// is written only while the topic is there.
pub open spec fn in_place(frames: Seq<WalRecord>, name: Seq<char>, there: bool) -> bool
    decreases frames.len(),
{
    frames.len() > 0 ==> {
        &&& in_place(frames.drop_last(), name, there)
        &&& match frames.last() {
            WalRecord::TopicConfig { name: n, .. } => n@ == name,
            WalRecord::Append { .. } => there_after(frames.drop_last(), there),
            _ => true,
        }
    }
}

/// A log as it is written, on top of a state: topics have names of their own, and
/// their frames are in place.
pub open spec fn is_written_log(
    v: EngineView,
    names: spec_fn(u64) -> Seq<char>,
    frames: Seq<WalRecord>,
) -> bool {
    &&& distinct(names)
    &&& under_names(v, names)
    &&& forall|id: u64| #[trigger]
        in_place(records_for(frames, id), names(id), state_of(v, names, id) is Some)
}

/// States of a topic that nobody can tell apart.
pub open spec fn same_state(a: Option<TopicView>, b: Option<TopicView>) -> bool {
    match (a, b) {
        (Some(t), Some(u)) => same_topic(t, u),
        (None, None) => true,
        _ => false,
    }
}

/// A topic is found by its number under its name.
proof fn found_by_name(v: EngineView, names: spec_fn(u64) -> Seq<char>, id: u64)
    requires
        distinct(names),
        under_names(v, names),
    ensures
        v.name_of(id) == (if v.topics.contains_key(names(id)) {
            Some(names(id))
        } else {
            None
        }),
        v.topics.contains_key(names(id)) ==> v.topics[names(id)].topic_id == id,
{
    name_of_finds(v, id);
    match v.name_of(id) {
        Some(n) => {
            assert(names(v.topics[n].topic_id) == n);
        },
        None => {
            if v.topics.contains_key(names(id)) {
                assert(names(v.topics[names(id)].topic_id) == names(id));
            }
        },
    }
}

/// The state of one topic is another, and no other topic changes.
proof fn one_topic_changes(
    v: EngineView,
    names: spec_fn(u64) -> Seq<char>,
    id: u64,
    w: EngineView,
    s: Option<TopicView>,
)
    requires
        distinct(names),
        under_names(v, names),
        match s {
            Some(t) => {
                &&& t.name == names(id)
                &&& t.topic_id == id
                &&& w.topics == v.topics.insert(names(id), t)
            },
            None => w.topics == v.topics.remove(names(id)),
        },
    ensures
        under_names(w, names),
        forall|j: u64|
            j != id ==> #[trigger] state_of(w, names, j) == state_of(v, names, j),
        state_of(w, names, id) == s,
{
    assert(w.topics.dom() =~= match s {
        Some(t) => v.topics.dom().insert(names(id)),
        None => v.topics.dom().remove(names(id)),
    });
    assert forall|n: Seq<char>| #[trigger] w.topics.contains_key(n) implies w.topics[n].name == n
        && names(w.topics[n].topic_id) == n by {
        if n != names(id) {
            assert(v.topics.contains_key(n));
        }
    }
    assert forall|j: u64| j != id implies #[trigger] state_of(w, names, j) == state_of(
        v,
        names,
        j,
    ) by {
        assert(names(j) != names(id));
    }
}

proof fn changed_keeps_its_name(t: TopicView, f: WalRecord)
    ensures
        changed(t, f).name == t.name,
        changed(t, f).topic_id == t.topic_id,
{
}

proof fn append_changes_its_topic(
    v: EngineView,
    names: spec_fn(u64) -> Seq<char>,
    f: WalRecord,
    now: i64,
    w: EngineView,
) -> (s: Option<TopicView>)
    requires
        distinct(names),
        under_names(v, names),
        v.replays(f, now, w),
        f is Append,
        state_of(v, names, f.topic()) is Some,
    ensures
        topic_replays(state_of(v, names, f.topic()), names(f.topic()), f, now, s),
        s is Some,
        s->0.name == names(f.topic()),
        s->0.topic_id == f.topic(),
        w.topics == v.topics.insert(names(f.topic()), s->0),
{
    let id = f.topic();
    found_by_name(v, names, id);
    match f {
        WalRecord::Append { topic_id, seq, ts, node, tag, data } => {
            let rec = choose|rec: StoredRecord| #[trigger]
                logged_record(rec, ts, node, tag, data) && w == v.with_append(topic_id, seq, rec);
            assert(v.with_unknown(id) == v);
            let t = v.topics[names(id)];
            let t2 = if seq == t.tail() && t.room(1, rec.bytes as nat) {
                t.appended(seq![rec], rec.ts)
            } else {
                t
            };
            assert(w.topics =~= v.topics.insert(names(id), t2));
            assert(logged_record(rec, ts, node, tag, data));
            Some(t2)
        },
        _ => None,
    }
}

proof fn config_changes_its_topic(
    v: EngineView,
    names: spec_fn(u64) -> Seq<char>,
    f: WalRecord,
    now: i64,
    w: EngineView,
) -> (s: Option<TopicView>)
    requires
        distinct(names),
        under_names(v, names),
        v.replays(f, now, w),
        f is TopicConfig,
        f->TopicConfig_name@ == names(f.topic()),
    ensures
        topic_replays(state_of(v, names, f.topic()), names(f.topic()), f, now, s),
        s is Some == there_next(f, true),
        match s {
            Some(t) => {
                &&& t.name == names(f.topic())
                &&& t.topic_id == f.topic()
                &&& w.topics == v.topics.insert(names(f.topic()), t)
            },
            None => w.topics == v.topics.remove(names(f.topic())),
        },
{
    let id = f.topic();
    found_by_name(v, names, id);
    match f {
        WalRecord::TopicConfig { topic_id, name, config, ts } => {
            if config is Some {
                Some(w.topics[names(id)])
            } else {
                None
            }
        },
        _ => None,
    }
}

proof fn other_changes_its_topic(
    v: EngineView,
    names: spec_fn(u64) -> Seq<char>,
    f: WalRecord,
    now: i64,
    w: EngineView,
)
    requires
        distinct(names),
        under_names(v, names),
        v.replays(f, now, w),
        !(f is Append),
        !(f is TopicConfig),
    ensures
        match state_of(v, names, f.topic()) {
            Some(t) => w.topics == v.topics.insert(names(f.topic()), changed(t, f)),
            None => w.topics == v.topics,
        },
{
    let id = f.topic();
    found_by_name(v, names, id);
    match state_of(v, names, id) {
        Some(t) => {
            if f is Lease {
                assert(w.topics =~= v.topics.insert(names(id), changed(t, f)));
            } else if f is RouterCreate || f is RouterDelete || f is CheckpointMark {
                assert(w.topics =~= v.topics.insert(names(id), t));
            }
        },
        None => {},
    }
}

/// A frame changes the topic it belongs to, and no other.
proof fn frame_changes_its_topic(
    v: EngineView,
    names: spec_fn(u64) -> Seq<char>,
    f: WalRecord,
    now: i64,
    w: EngineView,
)
    requires
        distinct(names),
        under_names(v, names),
        v.replays(f, now, w),
        match f {
            WalRecord::TopicConfig { topic_id, name: n, .. } => n@ == names(topic_id),
            WalRecord::Append { topic_id, .. } => state_of(v, names, topic_id) is Some,
            _ => true,
        },
    ensures
        under_names(w, names),
        forall|id: u64|
            id != f.topic() ==> #[trigger] state_of(w, names, id) == state_of(v, names, id),
        topic_replays(
            state_of(v, names, f.topic()),
            names(f.topic()),
            f,
            now,
            state_of(w, names, f.topic()),
        ),
        state_of(w, names, f.topic()) is Some == there_next(
            f,
            state_of(v, names, f.topic()) is Some,
        ),
{
    let id = f.topic();
    if f is Append {
        let s = append_changes_its_topic(v, names, f, now, w);
        one_topic_changes(v, names, id, w, s);
    } else if f is TopicConfig {
        let s = config_changes_its_topic(v, names, f, now, w);
        one_topic_changes(v, names, id, w, s);
    } else {
        found_by_name(v, names, id);
        other_changes_its_topic(v, names, f, now, w);
        match state_of(v, names, id) {
            Some(t) => {
                changed_keeps_its_name(t, f);
                one_topic_changes(v, names, id, w, Some(changed(t, f)));
            },
            None => {
                assert(v.topics.remove(names(id)) =~= v.topics);
                one_topic_changes(v, names, id, w, None);
            },
        }
    }
}

/// What a topic comes to is a matter of its own frames.
proof fn topics_follow_their_frames(
    v: EngineView,
    names: spec_fn(u64) -> Seq<char>,
    frames: Seq<WalRecord>,
    now: i64,
    vs: Seq<EngineView>,
)
    requires
        is_written_log(v, names, frames),
        v.replay_chain(frames, now, vs),
    ensures
        under_names(vs.last(), names),
        forall|id: u64|
            {
                let fs = records_for(frames, id);
                let s = state_of(v, names, id);
                &&& topic_reaches(
                    s,
                    names(id),
                    fs,
                    now,
                    #[trigger] state_of(vs.last(), names, id),
                )
                &&& state_of(vs.last(), names, id) is Some == there_after(fs, s is Some)
            },
    decreases frames.len(),
{
    if frames.len() == 0 {
        assert forall|id: u64|
            {
                let fs = records_for(frames, id);
                let s = state_of(v, names, id);
                &&& topic_reaches(s, names(id), fs, now, #[trigger] state_of(v, names, id))
                &&& s is Some == there_after(fs, s is Some)
            } by {
            let s = state_of(v, names, id);
            assert(topic_chain(s, names(id), records_for(frames, id), now, seq![s]));
            assert(seq![s].last() == s);
        }
        assert(vs.last() == v);
    } else {
        let g = frames.drop_last();
        let f = frames.last();
        let us = vs.drop_last();
        assert forall|id: u64| #[trigger]
            in_place(records_for(g, id), names(id), state_of(v, names, id) is Some) by {
            let fs = records_for(frames, id);
            assert(in_place(fs, names(id), state_of(v, names, id) is Some));
            if f.topic() == id {
                assert(fs.drop_last() =~= records_for(g, id));
            }
        }
        assert(v.replay_chain(g, now, us)) by {
            assert forall|i: int| 0 <= i < g.len() implies (#[trigger] us[i]).replays(
                g[i],
                now,
                us[i + 1],
            ) by {
                assert(vs[i].replays(frames[i], now, vs[i + 1]));
            }
        }
        topics_follow_their_frames(v, names, g, now, us);
        let u = us.last();
        let w = vs.last();
        let k = frames.len() - 1;
        assert(vs[k].replays(frames[k], now, vs[k + 1]));
        let id = f.topic();
        let fs = records_for(frames, id);
        assert(in_place(fs, names(id), state_of(v, names, id) is Some));
        assert(fs.drop_last() =~= records_for(g, id));
        assert(fs.last() == f);
        assert(topic_reaches(
            state_of(v, names, id),
            names(id),
            records_for(g, id),
            now,
            state_of(u, names, id),
        ));
        frame_changes_its_topic(u, names, f, now, w);
        topic_goes_on(
            state_of(v, names, id),
            names(id),
            records_for(g, id),
            now,
            state_of(u, names, id),
            f,
            state_of(w, names, id),
        );
        assert(fs =~= records_for(g, id).push(f));
        assert forall|j: u64|
            {
                let fj = records_for(frames, j);
                let s = state_of(v, names, j);
                &&& topic_reaches(s, names(j), fj, now, #[trigger] state_of(w, names, j))
                &&& state_of(w, names, j) is Some == there_after(fj, s is Some)
            } by {
            if j != id {
                assert(state_of(w, names, j) == state_of(u, names, j));
                assert(records_for(frames, j) == records_for(g, j));
            }
        }
    }
}

/// A frame leads from states that nobody can tell apart to such states.
proof fn frames_agree(
    a: Option<TopicView>,
    b: Option<TopicView>,
    name: Seq<char>,
    f: WalRecord,
    now: i64,
    a2: Option<TopicView>,
    b2: Option<TopicView>,
)
    requires
        same_state(a, b),
        topic_replays(a, name, f, now, a2),
        topic_replays(b, name, f, now, b2),
    ensures
        same_state(a2, b2),
{
    if a is Some {
        let (t, u) = (a->0, b->0);
        match f {
            WalRecord::Append { seq, ts, node, tag, data, .. } => {
                let x = choose|rec: StoredRecord| #[trigger]
                    logged_record(rec, ts, node, tag, data) && a2 == Some(
                        if seq == t.tail() && t.room(1, rec.bytes as nat) {
                            t.appended(seq![rec], rec.ts)
                        } else {
                            t
                        },
                    );
                let y = choose|rec: StoredRecord| #[trigger]
                    logged_record(rec, ts, node, tag, data) && b2 == Some(
                        if seq == u.tail() && u.room(1, rec.bytes as nat) {
                            u.appended(seq![rec], rec.ts)
                        } else {
                            u
                        },
                    );
                read_back_the_same(x, y, ts, node, tag, data);
                appends_agree(t, u, x, y);
            },
            WalRecord::TopicConfig { config, .. } => {
                if config is Some {
                    let kept = TopicConfig { topic_type: t.config.topic_type, ..config->0 };
                    retained_agree(
                        TopicView { config: kept, ..t },
                        TopicView { config: kept, ..u },
                        now,
                    );
                }
            },
            WalRecord::Delete { before_seq, match_, seqs, bound_head, ts, .. } => {
                if seqs@.len() > 0 {
                    without_agree(t, u, seqs@.to_set());
                    reclaimed_agree(t.without(seqs@.to_set()), u.without(seqs@.to_set()));
                } else {
                    let filter = match match_ {
                        Some(m) => Some(selector(m)),
                        None => None,
                    };
                    deletions_agree(t, u, before_seq, filter, bound_head, time_of(ts));
                }
            },
            _ => {},
        }
    }
}

/// The frames of a topic lead to states that nobody can tell apart.
proof fn topic_outcomes_agree(
    s: Option<TopicView>,
    name: Seq<char>,
    frames: Seq<WalRecord>,
    now: i64,
    a: Option<TopicView>,
    b: Option<TopicView>,
)
    requires
        topic_reaches(s, name, frames, now, a),
        topic_reaches(s, name, frames, now, b),
    ensures
        same_state(a, b),
{
    let ss = choose|ss: Seq<Option<TopicView>>| #[trigger]
        topic_chain(s, name, frames, now, ss) && ss.last() == a;
    let tt = choose|ss: Seq<Option<TopicView>>| #[trigger]
        topic_chain(s, name, frames, now, ss) && ss.last() == b;
    chains_agree(s, name, frames, now, ss, tt, frames.len() as int);
}

proof fn chains_agree(
    s: Option<TopicView>,
    name: Seq<char>,
    frames: Seq<WalRecord>,
    now: i64,
    ss: Seq<Option<TopicView>>,
    tt: Seq<Option<TopicView>>,
    k: int,
)
    requires
        topic_chain(s, name, frames, now, ss),
        topic_chain(s, name, frames, now, tt),
        0 <= k <= frames.len(),
    ensures
        same_state(ss[k], tt[k]),
    decreases k,
{
    if k > 0 {
        chains_agree(s, name, frames, now, ss, tt, k - 1);
        assert(topic_replays(ss[k - 1], name, frames[k - 1], now, ss[k - 1 + 1]));
        assert(topic_replays(tt[k - 1], name, frames[k - 1], now, tt[k - 1 + 1]));
        frames_agree(ss[k - 1], tt[k - 1], name, frames[k - 1], now, ss[k], tt[k]);
    }
}

/// What a topic comes to when the log is replayed is a matter of its own frames and
/// their order: where they are the same in two logs, the topic comes to the same in
/// both, whatever else the logs hold and in whatever order.
pub proof fn a_topic_is_a_matter_of_its_frames(
    v: EngineView,
    names: spec_fn(u64) -> Seq<char>,
    now: i64,
    p: Seq<WalRecord>,
    w: EngineView,
    p2: Seq<WalRecord>,
    w2: EngineView,
    id: u64,
)
    requires
        is_written_log(v, names, p),
        is_written_log(v, names, p2),
        v.replays_all(p, now, w),
        v.replays_all(p2, now, w2),
        records_for(p, id) == records_for(p2, id),
    ensures
        same_state(state_of(w, names, id), state_of(w2, names, id)),
        same_state(
            state_of(w.with_heads_reserved(), names, id),
            state_of(w2.with_heads_reserved(), names, id),
        ),
{
    let vs = choose|vs: Seq<EngineView>| #[trigger]
        v.replay_chain(p, now, vs) && vs.last() == w;
    let vs2 = choose|vs: Seq<EngineView>| #[trigger]
        v.replay_chain(p2, now, vs) && vs.last() == w2;
    topics_follow_their_frames(v, names, p, now, vs);
    topics_follow_their_frames(v, names, p2, now, vs2);
    let (a, b) = (state_of(w, names, id), state_of(w2, names, id));
    topic_outcomes_agree(state_of(v, names, id), names(id), records_for(p, id), now, a, b);
    if a is Some {
        reserved_heads_agree(a->0, b->0);
    }
}

/// Routers that are alike but for how far they have read.
pub open spec fn same_routers(a: RouterView, b: RouterView) -> bool {
    &&& a.routers == b.routers
    &&& a.totals == b.totals
    &&& a.bases == b.bases
    &&& a.cursors.dom() == b.cursors.dom()
}

/// What a frame makes of the routers, but for how far they have read.
pub open spec fn routers_after(g: RouterView, f: WalRecord) -> RouterView {
    match f {
        WalRecord::RouterCreate { op, .. } => (if g.accepts(router_of(op)) {
            g.upserted(router_of(op))
        } else {
            g
        }).noted(op.name@, 0, 0),
        WalRecord::RouterDelete { name, .. } => g.without(set![name@]),
        _ => g,
    }
}

/// What frames make of the routers, one after the other.
pub open spec fn routers_after_all(g: RouterView, frames: Seq<WalRecord>) -> RouterView
    decreases frames.len(),
{
    if frames.len() == 0 {
        g
    } else {
        routers_after(routers_after_all(g, frames.drop_last()), frames.last())
    }
}

/// A router is there or is created by a frame.
pub open spec fn known_router(g: RouterView, frames: Seq<WalRecord>, r: Router) -> bool {
    ||| exists|n: Seq<char>| #[trigger] g.routers.contains_key(n) && g.routers[n] == r
    ||| exists|i: int|
        0 <= i < frames.len() && (#[trigger] frames[i]) is RouterCreate && router_of(
            frames[i]->RouterCreate_op,
        ) == r
}

/// No topic that is removed is an end of a router.
pub open spec fn removals_spare_routers(g: RouterView, frames: Seq<WalRecord>) -> bool {
    forall|i: int, r: Router|
        0 <= i < frames.len() && (#[trigger] frames[i]) is TopicConfig
            && frames[i]->TopicConfig_config is None && #[trigger] known_router(g, frames, r)
            ==> r.source@ != frames[i]->TopicConfig_name@ && r.dest@
            != frames[i]->TopicConfig_name@
}

/// The routers come to what the frames that speak of them make of them.
proof fn routers_follow_their_frames(
    v: EngineView,
    frames: Seq<WalRecord>,
    now: i64,
    vs: Seq<EngineView>,
    k: int,
)
    requires
        removals_spare_routers(v.routers, frames),
        v.replay_chain(frames, now, vs),
        0 <= k <= frames.len(),
    ensures
        same_routers(
            vs[k].routers,
            routers_after_all(v.routers, records_for(frames.take(k), 0)),
        ),
        forall|n: Seq<char>| #[trigger]
            vs[k].routers.routers.contains_key(n) ==> known_router(
                v.routers,
                frames,
                vs[k].routers.routers[n],
            ),
    decreases k,
{
    if k == 0 {
        assert(frames.take(0) =~= Seq::<WalRecord>::empty());
        assert forall|n: Seq<char>| #[trigger] vs[0].routers.routers.contains_key(n) implies known_router(
            v.routers,
            frames,
            vs[0].routers.routers[n],
        ) by {
            assert(v.routers.routers.contains_key(n));
        }
    } else {
        routers_follow_their_frames(v, frames, now, vs, k - 1);
        let (u, w) = (vs[k - 1], vs[k]);
        let f = frames[k - 1];
        assert(vs[k - 1].replays(frames[k - 1], now, vs[k - 1 + 1]));
        let g = frames.take(k);
        assert(g.drop_last() =~= frames.take(k - 1));
        assert(g.last() == f);
        let before = routers_after_all(v.routers, records_for(frames.take(k - 1), 0));
        let mine = records_for(g, 0);
        if f.topic() == 0 {
            assert(mine.drop_last() =~= records_for(frames.take(k - 1), 0));
            assert(routers_after_all(v.routers, mine) == routers_after(before, f));
        } else {
            assert(routers_after(before, f) == before);
        }
        frame_and_routers(v.routers, frames, u, k - 1, now, w, before);
    }
}

proof fn frame_and_routers(
    g: RouterView,
    frames: Seq<WalRecord>,
    u: EngineView,
    i: int,
    now: i64,
    w: EngineView,
    before: RouterView,
)
    requires
        removals_spare_routers(g, frames),
        0 <= i < frames.len(),
        u.replays(frames[i], now, w),
        same_routers(u.routers, before),
        forall|n: Seq<char>| #[trigger]
            u.routers.routers.contains_key(n) ==> known_router(
                g,
                frames,
                u.routers.routers[n],
            ),
    ensures
        same_routers(w.routers, routers_after(before, frames[i])),
        forall|n: Seq<char>| #[trigger]
            w.routers.routers.contains_key(n) ==> known_router(
                g,
                frames,
                w.routers.routers[n],
            ),
{
    let f = frames[i];
    let after = routers_after(before, f);
    match f {
        WalRecord::RouterCreate { op, ts } => {
            let r = router_of(op);
            assert(known_router(g, frames, r));
            assert(w.routers.cursors.dom() =~= after.cursors.dom());
            assert(w.routers.totals =~= after.totals);
            assert forall|n: Seq<char>| #[trigger] w.routers.routers.contains_key(n) implies known_router(
                g,
                frames,
                w.routers.routers[n],
            ) by {
                if w.routers.routers[n] != r {
                    assert(u.routers.routers.contains_key(n));
                }
            }
        },
        WalRecord::RouterDelete { name, ts } => {
            assert(w.routers.cursors.dom() =~= after.cursors.dom());
            assert forall|n: Seq<char>| #[trigger] w.routers.routers.contains_key(n) implies known_router(
                g,
                frames,
                w.routers.routers[n],
            ) by {
                assert(u.routers.routers.contains_key(n));
            }
        },
        WalRecord::TopicConfig { topic_id, name, config, ts } => {
            if config is None {
                let gone = touching(u.routers.routers, name@);
                assert forall|n: Seq<char>| !gone.contains(n) by {
                    if gone.contains(n) {
                        assert(u.routers.routers.contains_key(n));
                        assert(known_router(g, frames, u.routers.routers[n]));
                        assert(frames[i] is TopicConfig);
                    }
                }
                assert(w.routers.routers =~= u.routers.routers);
                assert(w.routers.cursors =~= u.routers.cursors);
                assert(w.routers.totals =~= u.routers.totals);
                assert(w.routers.bases =~= u.routers.bases);
            }
        },
        _ => {
            assert(w.routers == u.routers);
        },
    }
}

/// What the routers come to when the log is replayed is a matter of the frames that
/// belong to no topic, and their order: where they are the same in two logs, the
/// routers come to the same in both, but for how far each has read, which goes by how
/// much of its source was replayed before it.
pub proof fn routers_are_a_matter_of_their_frames(
    v: EngineView,
    now: i64,
    p: Seq<WalRecord>,
    w: EngineView,
    p2: Seq<WalRecord>,
    w2: EngineView,
)
    requires
        removals_spare_routers(v.routers, p),
        removals_spare_routers(v.routers, p2),
        v.replays_all(p, now, w),
        v.replays_all(p2, now, w2),
        records_for(p, 0) == records_for(p2, 0),
    ensures
        same_routers(w.routers, w2.routers),
{
    let vs = choose|vs: Seq<EngineView>| #[trigger]
        v.replay_chain(p, now, vs) && vs.last() == w;
    let vs2 = choose|vs: Seq<EngineView>| #[trigger]
        v.replay_chain(p2, now, vs) && vs.last() == w2;
    routers_follow_their_frames(v, p, now, vs, p.len() as int);
    routers_follow_their_frames(v, p2, now, vs2, p2.len() as int);
    assert(p.take(p.len() as int) =~= p);
    assert(p2.take(p2.len() as int) =~= p2);
}

/// The frames of a log that one shard gets.
pub open spec fn shard_frames(
    log: Seq<WalRecord>,
    shard_of: spec_fn(u64) -> int,
    shard: int,
) -> Seq<WalRecord>
    decreases log.len(),
{
    if log.len() == 0 {
        Seq::empty()
    } else {
        let earlier = shard_frames(log.drop_last(), shard_of, shard);
        if shard_of(log.last().topic()) == shard {
            earlier.push(log.last())
        } else {
            earlier
        }
    }
}

/// A log spread over `n` shards, each topic in one of them.
pub open spec fn sharded(
    log: Seq<WalRecord>,
    shard_of: spec_fn(u64) -> int,
    n: nat,
) -> Seq<Seq<WalRecord>> {
    Seq::new(n, |g: int| shard_frames(log, shard_of, g))
}

/// A shard gets all frames of its topics, and none of others.
proof fn shard_of_topic(log: Seq<WalRecord>, shard_of: spec_fn(u64) -> int, shard: int, id: u64)
    ensures
        records_for(shard_frames(log, shard_of, shard), id) == (if shard_of(id) == shard {
            records_for(log, id)
        } else {
            Seq::<WalRecord>::empty()
        }),
        speaks_of(shard_frames(log, shard_of, shard), id) ==> shard_of(id) == shard,
    decreases log.len(),
{
    if log.len() > 0 {
        let g = log.drop_last();
        let f = log.last();
        shard_of_topic(g, shard_of, shard, id);
        let earlier = shard_frames(g, shard_of, shard);
        if shard_of(f.topic()) == shard {
            assert(earlier.push(f).drop_last() =~= earlier);
        }
        let all = shard_frames(log, shard_of, shard);
        if speaks_of(all, id) {
            let j = choose|j: int| 0 <= j < all.len() && (#[trigger] all[j]).topic() == id;
            if j < earlier.len() {
                assert(earlier[j].topic() == id);
                assert(speaks_of(earlier, id));
            }
        }
    }
}

proof fn placed_of_topic(frames: Seq<WalRecord>, group: usize, id: u64)
    ensures
        records_of(of_topic(placed(frames, group), id)) == records_for(frames, id),
    decreases frames.len(),
{
    let p = placed(frames, group);
    if frames.len() == 0 {
        assert(records_of(of_topic(p, id)) =~= records_for(frames, id));
    } else {
        placed_of_topic(frames.drop_last(), group, id);
        assert(p.drop_last() =~= placed(frames.drop_last(), group));
        assert(p.last().2 == frames.last());
        let earlier = of_topic(p.drop_last(), id);
        assert(records_of(earlier.push(p.last())) =~= records_of(earlier).push(frames.last()));
    }
}

proof fn of_topic_sum(
    a: Seq<SplitFrame>,
    b: Seq<SplitFrame>,
    id: u64,
)
    ensures
        records_of(of_topic(a + b, id)) == records_of(of_topic(a, id)) + records_of(
            of_topic(b, id),
        ),
    decreases b.len(),
{
    if b.len() == 0 {
        assert(a + b =~= a);
        assert(records_of(of_topic(a, id)) + records_of(of_topic(b, id)) =~= records_of(
            of_topic(a, id),
        ));
    } else {
        of_topic_sum(a, b.drop_last(), id);
        assert((a + b).drop_last() =~= a + b.drop_last());
        let x = of_topic(a + b.drop_last(), id);
        let y = of_topic(b.drop_last(), id);
        assert(records_of(x.push(b.last())) =~= records_of(x).push(b.last().2));
        assert(records_of(y.push(b.last())) =~= records_of(y).push(b.last().2));
        assert(records_of(of_topic(a + b, id)) =~= records_of(of_topic(a, id)) + records_of(
            of_topic(b, id),
        ));
    }
}

proof fn sharded_of_topic(
    log: Seq<WalRecord>,
    shard_of: spec_fn(u64) -> int,
    n: nat,
    id: u64,
)
    ensures
        records_of(of_topic(all_placed(sharded(log, shard_of, n)), id)) == (if 0 <= shard_of(id)
            < n {
            records_for(log, id)
        } else {
            Seq::<WalRecord>::empty()
        }),
    decreases n,
{
    let parts = sharded(log, shard_of, n);
    if n == 0 {
        assert(records_of(of_topic(all_placed(parts), id)) =~= Seq::<WalRecord>::empty());
    } else {
        let m = (n - 1) as nat;
        sharded_of_topic(log, shard_of, m, id);
        assert(parts.drop_last() =~= sharded(log, shard_of, m));
        let last = placed(parts.last(), (n - 1) as usize);
        of_topic_sum(all_placed(parts.drop_last()), last, id);
        placed_of_topic(parts.last(), (n - 1) as usize, id);
        shard_of_topic(log, shard_of, n - 1, id);
        assert(records_of(of_topic(all_placed(parts), id)) =~= (if 0 <= shard_of(id) < n {
            records_for(log, id)
        } else {
            Seq::<WalRecord>::empty()
        }));
    }
}

/// However many shards a log is spread over, a topic is replayed as it was logged.
pub proof fn shards_keep_the_order_of_a_topic(
    log: Seq<WalRecord>,
    shard_of: spec_fn(u64) -> int,
    n: nat,
    plan: Seq<WalRecord>,
    id: u64,
)
    requires
        0 <= shard_of(id) < n,
        is_replay_plan(sharded(log, shard_of, n), plan),
    ensures
        records_for(plan, id) == records_for(log, id),
{
    let parts = sharded(log, shard_of, n);
    if is_divided(parts, id) {
        let (i, j) = choose|i: int, j: int|
            0 <= i < j < parts.len() && speaks_of(#[trigger] parts[i], id) && speaks_of(
                #[trigger] parts[j],
                id,
            );
        shard_of_topic(log, shard_of, i, id);
        shard_of_topic(log, shard_of, j, id);
    }
    topic_is_replayed_as_logged(parts, plan, id);
    sharded_of_topic(log, shard_of, n, id);
}

proof fn frame_is_of_its_topic(frames: Seq<WalRecord>, f: WalRecord)
    ensures
        frames.contains(f) <==> records_for(frames, f.topic()).contains(f),
    decreases frames.len(),
{
    if frames.len() > 0 {
        let g = frames.drop_last();
        let mine = records_for(frames, f.topic());
        let earlier = records_for(g, f.topic());
        frame_is_of_its_topic(g, f);
        if frames.contains(f) {
            let i = choose|i: int| 0 <= i < frames.len() && frames[i] == f;
            if i < g.len() {
                assert(g[i] == f);
                let k = choose|k: int| 0 <= k < earlier.len() && earlier[k] == f;
                assert(mine[k] == f);
            } else {
                assert(mine[earlier.len() as int] == f);
            }
        }
        if mine.contains(f) {
            let k = choose|k: int| 0 <= k < mine.len() && mine[k] == f;
            if k < earlier.len() {
                assert(earlier[k] == f);
                let i = choose|i: int| 0 <= i < g.len() && g[i] == f;
                assert(frames[i] == f);
            } else {
                assert(frames[frames.len() - 1] == f);
            }
        }
    }
}

/// Logs that hold the same frames of every topic remove the same topics and create the
/// same routers.
proof fn same_frames_spare_routers(g: RouterView, log: Seq<WalRecord>, plan: Seq<WalRecord>)
    requires
        removals_spare_routers(g, log),
        forall|id: u64| #[trigger] records_for(plan, id) == records_for(log, id),
    ensures
        removals_spare_routers(g, plan),
{
    assert forall|f: WalRecord| plan.contains(f) implies #[trigger] log.contains(f) by {
        frame_is_of_its_topic(plan, f);
        frame_is_of_its_topic(log, f);
        assert(records_for(plan, f.topic()) == records_for(log, f.topic()));
    }
    assert forall|i: int, r: Router|
        0 <= i < plan.len() && (#[trigger] plan[i]) is TopicConfig
            && plan[i]->TopicConfig_config is None && #[trigger] known_router(
            g,
            plan,
            r,
        ) implies r.source@ != plan[i]->TopicConfig_name@ && r.dest@
        != plan[i]->TopicConfig_name@ by {
        assert(plan.contains(plan[i]));
        assert(log.contains(plan[i]));
        let j = choose|j: int| 0 <= j < log.len() && log[j] == plan[i];
        assert(known_router(g, log, r)) by {
            if !(exists|n: Seq<char>| #[trigger] g.routers.contains_key(n) && g.routers[n] == r) {
                let k = choose|k: int|
                    0 <= k < plan.len() && (#[trigger] plan[k]) is RouterCreate && router_of(
                        plan[k]->RouterCreate_op,
                    ) == r;
                assert(plan.contains(plan[k]));
                assert(log.contains(plan[k]));
                let m = choose|m: int| 0 <= m < log.len() && log[m] == plan[k];
                assert(log[m] is RouterCreate);
            }
        }
        assert(log[j] is TopicConfig);
    }
}

/// The number of shards makes no difference: spread over one number of shards or over
/// another, and whichever shard gets a topic, a log recovers every topic to the same
/// state; and every router, but for how far it has read, unless the log removes a topic
/// that is an end of a router.
pub proof fn shards_make_no_difference(
    v: EngineView,
    names: spec_fn(u64) -> Seq<char>,
    log: Seq<WalRecord>,
    now: i64,
    shard_of: spec_fn(u64) -> int,
    n: nat,
    plan: Seq<WalRecord>,
    w: EngineView,
    shard_of2: spec_fn(u64) -> int,
    n2: nat,
    plan2: Seq<WalRecord>,
    w2: EngineView,
)
    requires
        is_written_log(v, names, log),
        forall|id: u64| 0 <= #[trigger] shard_of(id) < n,
        forall|id: u64| 0 <= #[trigger] shard_of2(id) < n2,
        is_replay_plan(sharded(log, shard_of, n), plan),
        is_replay_plan(sharded(log, shard_of2, n2), plan2),
        v.replays_all(plan, now, w),
        v.replays_all(plan2, now, w2),
    ensures
        forall|id: u64|
            same_state(
                #[trigger] state_of(w.with_heads_reserved(), names, id),
                state_of(w2.with_heads_reserved(), names, id),
            ),
        removals_spare_routers(v.routers, log) ==> same_routers(w.routers, w2.routers),
{
    assert forall|id: u64| #[trigger] records_for(plan, id) == records_for(log, id) by {
        assert(0 <= shard_of(id) < n);
        shards_keep_the_order_of_a_topic(log, shard_of, n, plan, id);
    }
    assert forall|id: u64| #[trigger] records_for(plan2, id) == records_for(log, id) by {
        assert(0 <= shard_of2(id) < n2);
        shards_keep_the_order_of_a_topic(log, shard_of2, n2, plan2, id);
    }
    if removals_spare_routers(v.routers, log) {
        same_frames_spare_routers(v.routers, log, plan);
        same_frames_spare_routers(v.routers, log, plan2);
        routers_are_a_matter_of_their_frames(v, now, plan, w, plan2, w2);
    }
    assert forall|id: u64| #[trigger]
        in_place(records_for(plan, id), names(id), state_of(v, names, id) is Some) by {
        assert(in_place(records_for(log, id), names(id), state_of(v, names, id) is Some));
    }
    assert forall|id: u64| #[trigger]
        in_place(records_for(plan2, id), names(id), state_of(v, names, id) is Some) by {
        assert(in_place(records_for(log, id), names(id), state_of(v, names, id) is Some));
    }
    assert forall|id: u64|
        same_state(
            #[trigger] state_of(w.with_heads_reserved(), names, id),
            state_of(w2.with_heads_reserved(), names, id),
        ) by {
        a_topic_is_a_matter_of_its_frames(v, names, now, plan, w, plan2, w2, id);
    }
}

/// What a snapshot holds is what there was: read back into an engine without topics
/// and routers, it gives every topic and every router back, and no other.
pub proof fn a_snapshot_gives_the_engine_back(
    v: EngineView,
    s: Snapshot,
    w: EngineView,
    fetched: Seq<(u64, Vec<Fetched>)>,
)
    requires
        v.topics == Map::<Seq<char>, TopicView>::empty(),
        v.routers == no_routers(),
        w.ok(),
        is_snapshot_of(s, w, fetched),
    ensures
        ({
            let u = v.with_snapshot(Some(s));
            &&& u.next_topic_id == w.next_topic_id
            &&& u.topics.dom() == w.topics.dom()
            &&& forall|n: Seq<char>| #[trigger]
                w.topics.contains_key(n) ==> {
                    let t = w.topics[n];
                    if t.config.class() == Durability::Memory {
                        shell_comes_back(u.topics[n], t)
                    } else {
                        comes_back(u.topics[n], t, payloads_for(fetched, t.topic_id))
                    }
                }
            &&& u.routers.routers == w.routers.routers
            &&& forall|n: Seq<char>| #[trigger]
                w.routers.routers.contains_key(n) ==> u.routers.entry(n) == w.routers.entry(n)
        }),
{
    let v0 = EngineView { next_topic_id: s.next_topic_id, ..v };
    let names = in_order(w.topics.dom());
    in_order_lists(w.topics.dom());
    topics_come_back(v0, s, w, fetched, names.len() as int);
    assert(s.topics@.take(names.len() as int) =~= s.topics@);
    assert(names.take(names.len() as int) =~= names);
    let v1 = v0.with_restored_topics(s.topics@);
    routers_come_back(v1, s.routers@, w.routers.snapshot());
    let u = v.with_snapshot(Some(s));
    assert(u == v1.with_restored_routers(s.routers@));
    assert(u.topics.dom() =~= w.topics.dom());
    assert forall|n: Seq<char>| #[trigger] w.topics.contains_key(n) implies {
        let t = w.topics[n];
        if t.config.class() == Durability::Memory {
            shell_comes_back(u.topics[n], t)
        } else {
            comes_back(u.topics[n], t, payloads_for(fetched, t.topic_id))
        }
    } by {
        assert(names.contains(n));
        let i = choose|i: int| 0 <= i < names.len() && names[i] == n;
        assert(u.topics[names[i]] == restored(s.topics@[i]));
        topic_survives_the_snapshot(
            s.topics@[i],
            w.topics[n],
            payloads_for(fetched, w.topics[n].topic_id),
        );
    }
    a_snapshot_gives_the_routers_back(w.routers);
}

proof fn topics_come_back(
    v: EngineView,
    s: Snapshot,
    w: EngineView,
    fetched: Seq<(u64, Vec<Fetched>)>,
    k: int,
)
    requires
        v.topics == Map::<Seq<char>, TopicView>::empty(),
        w.ok(),
        is_snapshot_of(s, w, fetched),
        0 <= k <= s.topics@.len(),
    ensures
        ({
            let u = v.with_restored_topics(s.topics@.take(k));
            let names = in_order(w.topics.dom());
            &&& u.next_topic_id == v.next_topic_id
            &&& u.routers == v.routers
            &&& forall|n: Seq<char>| #[trigger]
                u.topics.contains_key(n) <==> names.take(k).contains(n)
            &&& forall|i: int|
                0 <= i < k ==> u.topics[#[trigger] names[i]] == restored(s.topics@[i])
        }),
    decreases k,
{
    let names = in_order(w.topics.dom());
    in_order_lists(w.topics.dom());
    if k > 0 {
        topics_come_back(v, s, w, fetched, k - 1);
        let ts = s.topics@.take(k);
        assert(ts.drop_last() =~= s.topics@.take(k - 1));
        assert(ts.last() == s.topics@[k - 1]);
        assert(captures(
            s.topics@[k - 1],
            w.topics[names[k - 1]],
            payloads_for(fetched, w.topics[names[k - 1]].topic_id),
        ));
        assert(names.contains(names[k - 1]));
        assert(w.topics[names[k - 1]].name == names[k - 1]);
        take_one_more(names, k - 1);
        assert(names.take(k - 1 + 1) == names.take(k));
        let a = v.with_restored_topics(s.topics@.take(k - 1));
        let u = v.with_restored_topics(ts);
        assert(u.topics == a.topics.insert(names[k - 1], restored(s.topics@[k - 1])));
        assert forall|i: int| 0 <= i < k implies u.topics[#[trigger] names[i]] == restored(
            s.topics@[i],
        ) by {
            if i < k - 1 && names[i] == names[k - 1] {
                ascending_distinct(names, i, k - 1);
            }
        }
        assert forall|n: Seq<char>| #[trigger] u.topics.contains_key(n) <==> names.take(k).contains(
            n,
        ) by {
            assert(a.topics.contains_key(n) <==> names.take(k - 1).contains(n));
            assert(names.take(k).contains(n) <==> names.take(k - 1).contains(n) || n == names[k
                - 1]);
        }
    }
}

proof fn routers_come_back(
    v: EngineView,
    kept: Seq<SnapshotRouter>,
    all: Seq<(Router, u64, u64, u64)>,
)
    requires
        kept.len() == all.len(),
        forall|i: int|
            0 <= i < all.len() ==> #[trigger] kept[i] == kept_router(
                all[i].0,
                all[i].1,
                all[i].2,
                all[i].3,
            ),
    ensures
        v.with_restored_routers(kept) == (EngineView {
            routers: v.routers.restored_all(all),
            ..v
        }),
    decreases kept.len(),
{
    if kept.len() > 0 {
        let k = kept.drop_last();
        let a = all.drop_last();
        assert forall|i: int| 0 <= i < a.len() implies #[trigger] k[i] == kept_router(
            a[i].0,
            a[i].1,
            a[i].2,
            a[i].3,
        ) by {
            assert(kept[i] == kept_router(all[i].0, all[i].1, all[i].2, all[i].3));
        }
        routers_come_back(v, k, a);
        let e = all.last();
        assert(kept[kept.len() - 1] == kept_router(e.0, e.1, e.2, e.3));
        router_survives_the_snapshot(e.0, e.1, e.2, e.3);
    }
}

} // verus!
