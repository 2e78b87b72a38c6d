//! Snapshots: the state that is written down, and the state that is read back.
use crate::config::SEQ_BASE;
use crate::eviction::{after, max64, Floors};
use crate::jobs::{payload_of, Fetched};
use crate::topic_index::{deleted_hole, hole, StoredRecord};
use crate::topic_state::{fresh_topic, TopicState, TopicView};
use crate::types::{copy_json, copy_text, Durability, Filter, FilterOp, Json, Router,
    RouterGuarantee, TopicConfig};
use vstd::prelude::*;

verus! {

/// A record as a snapshot keeps it.
#[derive(Debug)]
pub struct SnapshotRecord {
    pub seq: u64,
    pub ts: i64,
    pub node: Option<String>,
    pub tag: Option<String>,
    pub data: Option<Json>,
    pub meta: Option<Json>,
    pub bytes: u64,
}

/// A topic as a snapshot keeps it.
#[derive(Debug)]
pub struct SnapshotTopic {
    pub name: String,
    pub topic_id: u64,
    pub epoch: u64,
    pub config: TopicConfig,
    pub base_seq: u64,
    pub head_seq: u64,
    pub evict_floor: u64,
    pub expiry_floor: u64,
    pub delete_floor: u64,
    pub delete_below: u64,
    pub bytes_retained: u64,
    pub live_count: u64,
    pub records: Vec<SnapshotRecord>,
    pub source_trim_floor: u64,
}

/// A router as a snapshot keeps it. The filter is a number for its kind (0 for the
/// tag itself, 1 for a prefix) and its value.
#[derive(Debug)]
pub struct SnapshotRouter {
    pub name: String,
    pub source: String,
    pub dest: String,
    pub preserve_node: bool,
    pub preserve_tag: bool,
    pub create_dest: bool,
    pub allow_cycle: bool,
    pub exactly_once: bool,
    pub filter: Option<(u8, String)>,
    pub forward_cursor: u64,
    pub forwarded_total: u64,
    pub dest_base: u64,
}

/// A router as a snapshot keeps it.
pub open spec fn kept_router(r: Router, cursor: u64, total: u64, base: u64) -> SnapshotRouter {
    SnapshotRouter {
        name: r.name,
        source: r.source,
        dest: r.dest,
        preserve_node: r.preserve_node,
        preserve_tag: r.preserve_tag,
        create_dest: r.create_dest,
        allow_cycle: r.allow_cycle,
        exactly_once: r.guarantee == RouterGuarantee::ExactlyOnce,
        filter: match r.filter {
            Some(f) => Some(
                (
                    match f.op {
                        FilterOp::Eq => 0u8,
                        FilterOp::Glob => 1u8,
                    },
                    f.value,
                ),
            ),
            None => None,
        },
        forward_cursor: cursor,
        forwarded_total: total,
        dest_base: base,
    }
}

/// The router that a snapshot keeps.
pub open spec fn router_of(s: SnapshotRouter) -> Router {
    Router {
        name: s.name,
        source: s.source,
        dest: s.dest,
        preserve_node: s.preserve_node,
        preserve_tag: s.preserve_tag,
        create_dest: s.create_dest,
        filter: match s.filter {
            Some(p) => Some(
                Filter {
                    op: if p.0 == 0 {
                        FilterOp::Eq
                    } else {
                        FilterOp::Glob
                    },
                    value: p.1,
                },
            ),
            None => None,
        },
        allow_cycle: s.allow_cycle,
        guarantee: if s.exactly_once {
            RouterGuarantee::ExactlyOnce
        } else {
            RouterGuarantee::AtLeastOnce
        },
    }
}

/// Writes a router down.
pub fn router_to_snapshot(r: Router, cursor: u64, total: u64, dest_base: u64) -> (s: SnapshotRouter)
    ensures
        s == kept_router(r, cursor, total, dest_base),
{
    let exactly_once = match r.guarantee {
        RouterGuarantee::ExactlyOnce => true,
        RouterGuarantee::AtLeastOnce => false,
    };
    let filter = match r.filter {
        Some(f) => Some(
            (
                match f.op {
                    FilterOp::Eq => 0u8,
                    FilterOp::Glob => 1u8,
                },
                f.value,
            ),
        ),
        None => None,
    };
    SnapshotRouter {
        name: r.name,
        source: r.source,
        dest: r.dest,
        preserve_node: r.preserve_node,
        preserve_tag: r.preserve_tag,
        create_dest: r.create_dest,
        allow_cycle: r.allow_cycle,
        exactly_once,
        filter,
        forward_cursor: cursor,
        forwarded_total: total,
        dest_base,
    }
}

/// Reads a router back.
pub fn router_from_snapshot(s: SnapshotRouter) -> (r: Router)
    ensures
        r == router_of(s),
{
    let filter = match s.filter {
        Some(p) => Some(
            Filter {
                op: if p.0 == 0 {
                    FilterOp::Eq
                } else {
                    FilterOp::Glob
                },
                value: p.1,
            },
        ),
        None => None,
    };
    Router {
        name: s.name,
        source: s.source,
        dest: s.dest,
        preserve_node: s.preserve_node,
        preserve_tag: s.preserve_tag,
        create_dest: s.create_dest,
        filter,
        allow_cycle: s.allow_cycle,
        guarantee: if s.exactly_once {
            RouterGuarantee::ExactlyOnce
        } else {
            RouterGuarantee::AtLeastOnce
        },
    }
}

/// A router is read back as it was written down.
pub proof fn router_survives_the_snapshot(r: Router, cursor: u64, total: u64, base: u64)
    ensures
        router_of(kept_router(r, cursor, total, base)) == r,
{
}

/// The slots of a topic that can be read.
pub open spec fn readable_slots(t: TopicView) -> int {
    if t.head < t.base {
        0
    } else if t.head - t.base + 1 < t.recs.len() {
        t.head - t.base + 1
    } else {
        t.recs.len() as int
    }
}

/// The live records among the first `n` slots, as a snapshot keeps them.
pub open spec fn kept_records(t: TopicView, fetched: Seq<Fetched>, n: int) -> Seq<SnapshotRecord>
    decreases n,
{
    if n <= 0 {
        Seq::empty()
    } else {
        let earlier = kept_records(t, fetched, n - 1);
        let rec = t.recs[n - 1];
        let seq = (t.base + n - 1) as u64;
        if rec.deleted {
            earlier
        } else {
            earlier.push(
                SnapshotRecord {
                    seq,
                    ts: rec.ts,
                    node: rec.node,
                    tag: rec.tag,
                    data: payload_of(t, fetched, seq).0,
                    meta: payload_of(t, fetched, seq).1,
                    bytes: rec.bytes,
                },
            )
        }
    }
}

/// What a snapshot keeps of a topic. Of one that lives in memory alone only the
/// settings and the head are kept.
pub open spec fn captures(s: SnapshotTopic, t: TopicView, fetched: Seq<Fetched>) -> bool {
    let shell = t.config.class() == Durability::Memory;
    &&& s.name@ == t.name
    &&& s.topic_id == t.topic_id
    &&& s.epoch == t.epoch
    &&& s.config == t.config
    &&& s.head_seq == t.head
    &&& s.base_seq == (if shell {
        after(t.head)
    } else {
        t.base
    })
    &&& s.records@ == (if shell {
        Seq::empty()
    } else {
        kept_records(t, fetched, readable_slots(t))
    })
    &&& s.evict_floor == (if shell {
        0
    } else {
        t.floors.evict_floor
    })
    &&& s.expiry_floor == (if shell {
        0
    } else {
        t.floors.expiry_floor
    })
    &&& s.delete_floor == (if shell {
        0
    } else {
        t.floors.delete_floor
    })
    &&& s.source_trim_floor == (if shell {
        0
    } else {
        t.floors.source_trim_floor
    })
    &&& s.delete_below == (if shell {
        0
    } else {
        t.delete_below
    })
    &&& s.bytes_retained == (if shell {
        0
    } else {
        t.bytes
    })
    &&& s.live_count == (if shell {
        0
    } else {
        t.live
    })
}

/// Writes a topic down. Payloads that live in segments are given in `fetched`.
pub fn capture_topic(b: &TopicState, fetched: &Vec<Fetched>) -> (r: SnapshotTopic)
    requires
        b.wf(),
    ensures
        captures(r, b@, fetched@),
{
    let config = b.config.copy();
    let head_seq: u64 = b.head_seq();
    if !config.uses_persistent_record_store() {
        return SnapshotTopic {
            name: b.name.clone(),
            topic_id: b.topic_id,
            epoch: b.epoch(),
            config,
            base_seq: head_seq.saturating_add(1),
            head_seq,
            evict_floor: 0,
            expiry_floor: 0,
            delete_floor: 0,
            delete_below: 0,
            bytes_retained: 0,
            live_count: 0,
            records: Vec::new(),
            source_trim_floor: 0,
        };
    }
    let ghost t = b@;
    let base: u64 = b.index.base_seq;
    let n: usize = b.index.records.len();
    let mut records: Vec<SnapshotRecord> = Vec::new();
    let mut i: usize = 0;
    while i < n && base + i as u64 <= head_seq
        invariant
            b.wf(),
            t == b@,
            base == t.base,
            n == t.recs.len(),
            head_seq == t.head,
            i <= n,
            i <= readable_slots(t),
            records@ == kept_records(t, fetched@, i as int),
        decreases n - i,
    {
        let rec = &b.index.records[i];
        let seq: u64 = base + i as u64;
        if !rec.deleted {
            let (data, meta) = if rec.payload_resident {
                (copy_json(&rec.data), copy_json(&rec.meta))
            } else {
                match crate::jobs::find_fetched(fetched, seq) {
                    Some(k) => (Some(fetched[k].1.copy()), copy_json(&fetched[k].2)),
                    None => (None, None),
                }
            };
            assert(t.rec(seq) == t.recs[i as int]);
            records.push(
                SnapshotRecord {
                    seq,
                    ts: rec.ts,
                    node: copy_text(&rec.node),
                    tag: copy_text(&rec.tag),
                    data,
                    meta,
                    bytes: rec.bytes,
                },
            );
        }
        i += 1;
    }
    SnapshotTopic {
        name: b.name.clone(),
        topic_id: b.topic_id,
        epoch: b.epoch(),
        config,
        base_seq: base,
        head_seq,
        evict_floor: b.floors.evict_floor,
        expiry_floor: b.floors.expiry_floor,
        delete_floor: b.floors.delete_floor,
        delete_below: b.index.delete_below,
        bytes_retained: b.bytes(),
        live_count: b.count(),
        records,
        source_trim_floor: b.floors.source_trim_floor,
    }
}

/// A record read back from a snapshot.
pub open spec fn read_back(r: SnapshotRecord) -> StoredRecord {
    StoredRecord {
        ts: r.ts,
        node: r.node,
        tag: r.tag,
        data: r.data,
        meta: r.meta,
        bytes: r.bytes,
        deleted: false,
        payload_resident: true,
        hops: 0,
    }
}

/// A topic as a snapshot keeps it makes sense: its records ascend, between the base
/// and the head.
pub open spec fn sound(s: SnapshotTopic) -> bool {
    &&& s.head_seq < u64::MAX
    &&& crate::eviction::sat_sub(s.delete_below, 1) <= s.delete_floor
    &&& forall|i: int|
        0 <= i < s.records@.len() ==> s.base_seq <= (#[trigger] s.records@[i]).seq <= s.head_seq
    &&& forall|i: int, j: int|
        0 <= i < j < s.records@.len() ==> (#[trigger] s.records@[i]).seq < (
        #[trigger] s.records@[j]).seq
}

/// The slot of a topic read back: the record that the snapshot keeps, else a hole.
pub open spec fn slot_of(records: Seq<SnapshotRecord>, seq: u64) -> StoredRecord {
    if exists|k: int| 0 <= k < records.len() && (#[trigger] records[k]).seq == seq {
        read_back(
            records[choose|k: int| 0 <= k < records.len() && (#[trigger] records[k]).seq == seq],
        )
    } else {
        hole()
    }
}

/// How many slots a topic read back has.
pub open spec fn slots_of(s: SnapshotTopic) -> nat {
    if s.head_seq + 1 > s.base_seq {
        (s.head_seq + 1 - s.base_seq) as nat
    } else {
        0
    }
}

/// A topic read back from a snapshot. Its slots reach up to its head, so that no
/// sequence number is given out again.
pub open spec fn restored(s: SnapshotTopic) -> TopicView {
    TopicView {
        base: s.base_seq,
        recs: Seq::new(slots_of(s), |i: int| slot_of(s.records@, (s.base_seq + i) as u64)),
        delete_below: s.delete_below,
        floors: Floors {
            evict_floor: s.evict_floor,
            expiry_floor: s.expiry_floor,
            delete_floor: s.delete_floor,
            source_trim_floor: s.source_trim_floor,
        },
        head: s.head_seq,
        reserved: max64(s.head_seq, (SEQ_BASE - 1) as u64),
        bytes: s.bytes_retained,
        live: s.live_count,
        ..fresh_topic(s.name@, s.topic_id, s.config, SEQ_BASE, s.epoch)
    }
}

proof fn slot_is(records: Seq<SnapshotRecord>, k: int)
    requires
        0 <= k < records.len(),
        forall|i: int, j: int|
            0 <= i < j < records.len() ==> (#[trigger] records[i]).seq < (
            #[trigger] records[j]).seq,
    ensures
        slot_of(records, records[k].seq) == read_back(records[k]),
{
    let seq = records[k].seq;
    let m = choose|m: int| 0 <= m < records.len() && (#[trigger] records[m]).seq == seq;
    assert(0 <= m < records.len() && records[m].seq == seq);
    if k < m {
        assert(records[k].seq < records[m].seq);
    } else if m < k {
        assert(records[m].seq < records[k].seq);
    }
}

/// Reads a topic back.
pub fn restore_topic(sb: SnapshotTopic) -> (r: TopicState)
    requires
        sound(sb),
    ensures
        r.wf(),
        r@ == restored(sb),
{
    let ghost s0 = sb;
    let ghost all = sb.records@;
    let mut state = TopicState::new(sb.name, sb.topic_id, sb.config, SEQ_BASE, sb.epoch);
    let mut index = crate::topic_index::TopicIndex::new(sb.base_seq);
    index.delete_below = sb.delete_below;
    let base: u64 = sb.base_seq;
    let head: u64 = sb.head_seq;
    let mut next: u64 = base;
    let mut k: usize = 0;
    while next <= head
        invariant
            sound(s0),
            base == s0.base_seq,
            head == s0.head_seq,
            all == sb.records@,
            all == s0.records@,
            index.wf(),
            index.base_seq == base,
            index.delete_below == s0.delete_below,
            base <= next,
            next == base || next <= head + 1,
            index.records@ == Seq::new(
                (next - base) as nat,
                |i: int| slot_of(all, (base + i) as u64),
            ),
            k <= all.len(),
            forall|j: int| 0 <= j < k ==> (#[trigger] all[j]).seq < next,
            forall|j: int| k <= j < all.len() ==> (#[trigger] all[j]).seq >= next,
        decreases head + 1 - next,
    {
        if k < sb.records.len() && sb.records[k].seq == next {
            let r = &sb.records[k];
            proof {
                slot_is(all, k as int);
            }
            index.push(
                StoredRecord {
                    ts: r.ts,
                    node: copy_text(&r.node),
                    tag: copy_text(&r.tag),
                    data: copy_json(&r.data),
                    meta: copy_json(&r.meta),
                    bytes: r.bytes,
                    deleted: false,
                    payload_resident: true,
                    hops: 0,
                },
            );
            proof {
                assert forall|j: int| k + 1 <= j < all.len() implies (#[trigger] all[j]).seq >= next
                    + 1 by {
                    assert(all[k as int].seq < all[j].seq);
                }
            }
            k += 1;
        } else {
            proof {
                assert(slot_of(all, next) == hole()) by {
                    assert forall|j: int| 0 <= j < all.len() implies (#[trigger] all[j]).seq
                        != next by {
                        if j > k {
                            assert(all[k as int].seq < all[j].seq);
                        }
                    }
                }
            }
            index.push(deleted_hole());
            proof {
                assert forall|j: int| k <= j < all.len() implies (#[trigger] all[j]).seq >= next
                    + 1 by {
                    if j > k {
                        assert(all[k as int].seq < all[j].seq);
                    }
                }
            }
        }
        proof {
            assert(index.records@ =~= Seq::new(
                (next + 1 - base) as nat,
                |i: int| slot_of(all, (base + i) as u64),
            ));
        }
        next += 1;
    }
    state.index = index;
    state.floors = Floors {
        evict_floor: sb.evict_floor,
        expiry_floor: sb.expiry_floor,
        delete_floor: sb.delete_floor,
        source_trim_floor: sb.source_trim_floor,
    };
    state.head_seq = head;
    if head > state.reserved_head {
        state.reserved_head = head;
    }
    state.bytes_retained = sb.bytes_retained;
    state.live_count = sb.live_count;
    proof {
        assert(state@.recs =~= restored(s0).recs);
        assert(state@ == restored(s0));
        assert forall|i: int| 0 <= i < state@.recs.len() implies (#[trigger] state@.recs[i]).ok() by {
            assert(state.index.records@[i].ok());
        }
    }
    state
}

/// The records a snapshot keeps ascend, each is a live slot, and each live slot that
/// can be read is kept.
pub proof fn kept_records_are_the_live_slots(t: TopicView, fetched: Seq<Fetched>, n: int)
    requires
        t.base + t.recs.len() <= u64::MAX,
        0 <= n <= t.recs.len(),
    ensures
        ({
            let k = kept_records(t, fetched, n);
            &&& forall|i: int|
                0 <= i < k.len() ==> t.base <= (#[trigger] k[i]).seq < t.base + n
                    && !t.recs[k[i].seq - t.base].deleted
            &&& forall|i: int, j: int|
                0 <= i < j < k.len() ==> (#[trigger] k[i]).seq < (#[trigger] k[j]).seq
            &&& forall|m: int|
                0 <= m < n && !(#[trigger] t.recs[m]).deleted ==> {
                    let rec = t.recs[m];
                    let p = payload_of(t, fetched, (t.base + m) as u64);
                    exists|i: int|
                        0 <= i < k.len() && (#[trigger] k[i]) == (SnapshotRecord {
                            seq: (t.base + m) as u64,
                            ts: rec.ts,
                            node: rec.node,
                            tag: rec.tag,
                            data: p.0,
                            meta: p.1,
                            bytes: rec.bytes,
                        })
                }
        }),
    decreases n,
{
    let k = kept_records(t, fetched, n);
    if n > 0 {
        kept_records_are_the_live_slots(t, fetched, n - 1);
        let e = kept_records(t, fetched, n - 1);
        assert forall|m: int| 0 <= m < n && !(#[trigger] t.recs[m]).deleted implies {
            let rec = t.recs[m];
            let p = payload_of(t, fetched, (t.base + m) as u64);
            exists|i: int|
                0 <= i < k.len() && (#[trigger] k[i]) == (SnapshotRecord {
                    seq: (t.base + m) as u64,
                    ts: rec.ts,
                    node: rec.node,
                    tag: rec.tag,
                    data: p.0,
                    meta: p.1,
                    bytes: rec.bytes,
                })
        } by {
            let rec = t.recs[m];
            let p = payload_of(t, fetched, (t.base + m) as u64);
            let want = SnapshotRecord {
                seq: (t.base + m) as u64,
                ts: rec.ts,
                node: rec.node,
                tag: rec.tag,
                data: p.0,
                meta: p.1,
                bytes: rec.bytes,
            };
            if m < n - 1 {
                let i = choose|i: int| 0 <= i < e.len() && (#[trigger] e[i]) == want;
                assert(k[i] == want);
            } else {
                assert(k[e.len() as int] == want);
            }
        }
    }
}

/// A snapshot of a sound topic makes sense.
pub proof fn snapshot_is_sound(s: SnapshotTopic, t: TopicView, fetched: Seq<Fetched>)
    requires
        t.ok(),
        captures(s, t, fetched),
    ensures
        sound(s),
{
    kept_records_are_the_live_slots(t, fetched, readable_slots(t));
}

/// A topic is what another was, as far as a snapshot keeps it: with its head, floors,
/// settings, number and size; every record that could be read is there under its
/// sequence number with its time, node, tag and payload; and nothing else can be read.
pub open spec fn comes_back(u: TopicView, t: TopicView, fetched: Seq<Fetched>) -> bool {
    &&& u.name == t.name
    &&& u.topic_id == t.topic_id
    &&& u.epoch == t.epoch
    &&& u.config == t.config
    &&& u.head == t.head
    &&& u.base == t.base
    &&& u.floors == t.floors
    &&& u.live == t.live
    &&& u.bytes == t.bytes
    &&& u.delete_below == t.delete_below
    &&& forall|seq: u64| #[trigger] u.has_live(seq) <==> t.has_live(seq) && seq <= t.head
    &&& forall|seq: u64| #[trigger]
        u.has_live(seq) ==> {
            &&& u.rec(seq).ts == t.rec(seq).ts
            &&& u.rec(seq).node == t.rec(seq).node
            &&& u.rec(seq).tag == t.rec(seq).tag
            &&& u.rec(seq).bytes == t.rec(seq).bytes
            &&& (u.rec(seq).data, u.rec(seq).meta) == payload_of(t, fetched, seq)
        }
}

/// A topic that lives in memory alone comes back with its settings and its head, and
/// without records.
pub open spec fn shell_comes_back(u: TopicView, t: TopicView) -> bool {
    &&& u.name == t.name
    &&& u.topic_id == t.topic_id
    &&& u.epoch == t.epoch
    &&& u.config == t.config
    &&& u.head == t.head
    &&& u.live == 0
    &&& u.bytes == 0
    &&& forall|seq: u64| !#[trigger] u.has_live(seq)
}

/// What is read back is what was written down.
pub proof fn topic_survives_the_snapshot(s: SnapshotTopic, t: TopicView, fetched: Seq<Fetched>)
    requires
        t.ok(),
        captures(s, t, fetched),
    ensures
        t.config.class() != Durability::Memory ==> comes_back(restored(s), t, fetched),
        t.config.class() == Durability::Memory ==> shell_comes_back(restored(s), t),
{
    let n = readable_slots(t);
    let k = s.records@;
    kept_records_are_the_live_slots(t, fetched, n);
    let u = restored(s);
    if t.config.class() != Durability::Memory {
        assert forall|seq: u64| t.has_live(seq) && seq <= t.head implies #[trigger] u.has_live(seq)
            by {
            record_comes_back(s, t, fetched, seq);
        }
        assert forall|seq: u64| #[trigger] u.has_live(seq) implies t.has_live(seq) && seq <= t.head
            by {
            assert((s.base_seq + (seq - s.base_seq)) as u64 == seq);
            assert(u.rec(seq) == slot_of(k, seq));
            let i = choose|i: int| 0 <= i < k.len() && (#[trigger] k[i]).seq == seq;
            assert(!t.recs[k[i].seq - t.base].deleted);
        }
        assert forall|seq: u64| #[trigger] u.has_live(seq) implies {
            &&& u.rec(seq).ts == t.rec(seq).ts
            &&& u.rec(seq).node == t.rec(seq).node
            &&& u.rec(seq).tag == t.rec(seq).tag
            &&& u.rec(seq).bytes == t.rec(seq).bytes
            &&& (u.rec(seq).data, u.rec(seq).meta) == payload_of(t, fetched, seq)
        } by {
            record_comes_back(s, t, fetched, seq);
        }
    }
}

proof fn record_comes_back(s: SnapshotTopic, t: TopicView, fetched: Seq<Fetched>, seq: u64)
    requires
        t.ok(),
        t.config.class() != Durability::Memory,
        captures(s, t, fetched),
        t.has_live(seq),
        seq <= t.head,
    ensures
        ({
            let u = restored(s);
            &&& u.has_live(seq)
            &&& u.rec(seq).ts == t.rec(seq).ts
            &&& u.rec(seq).node == t.rec(seq).node
            &&& u.rec(seq).tag == t.rec(seq).tag
            &&& u.rec(seq).bytes == t.rec(seq).bytes
            &&& (u.rec(seq).data, u.rec(seq).meta) == payload_of(t, fetched, seq)
        }),
{
    let n = readable_slots(t);
    let k = s.records@;
    kept_records_are_the_live_slots(t, fetched, n);
    let u = restored(s);
    let m = seq - t.base;
    assert(!t.recs[m].deleted);
    assert((t.base + m) as u64 == seq);
    let rec = t.recs[m];
    let p = payload_of(t, fetched, seq);
    let want = SnapshotRecord {
        seq,
        ts: rec.ts,
        node: rec.node,
        tag: rec.tag,
        data: p.0,
        meta: p.1,
        bytes: rec.bytes,
    };
    let i = choose|i: int| 0 <= i < k.len() && (#[trigger] k[i]) == want;
    slot_is(k, i);
    assert((s.base_seq + (seq - s.base_seq)) as u64 == seq);
    assert(u.rec(seq) == read_back(k[i]));
}

/// A topic read back is sound, and gives out no sequence number up to its head again.
pub proof fn restored_topic_is_sound(s: SnapshotTopic)
    requires
        sound(s),
    ensures
        restored(s).ok(),
        restored(s).tail() == (if s.base_seq <= s.head_seq {
            s.head_seq + 1
        } else {
            s.base_seq as int
        }),
        restored(s).reserved >= s.head_seq,
{
    let u = restored(s);
    assert forall|i: int| 0 <= i < u.recs.len() implies (#[trigger] u.recs[i]).ok() by {}
}

} // verus!
