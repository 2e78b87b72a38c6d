//! What a read is for: which records a reader gets, what it sees of them, and what it is
//! told of those it does not get.
use crate::engine::EngineView;
use crate::filters::{decision, ReadDecision};
use crate::jobs::{fetched_at, Fetched};
use crate::read::{answers_read, filled, read_budget, read_limit, seqs_of, shown, DiffRequest,
    DiffResponse, RecordOut};
use crate::topic_index::StoredRecord;
use crate::topic_laws::retention_keeps;
use crate::topic_state::TopicView;
use crate::types::{NodeFilter, TombstoneReason};
use crate::write::{batch, WriteRequest};
use crate::write_laws::each_record_is_stored_as_given;
use vstd::prelude::*;

verus! {

/// A reader sees a record as it is stored: its sequence number, its time and its node;
/// its tag and its meta where it asks for them; and its data and meta where they are at
/// hand.
pub proof fn a_record_is_shown_as_stored(seq: u64, rec: StoredRecord, tags: bool, meta: bool)
    ensures
        ({
            let r = shown(seq, rec, tags, meta);
            &&& r.seq == seq
            &&& r.ts == rec.ts
            &&& r.node == rec.node
            &&& tags ==> r.tag == rec.tag
            &&& !tags ==> r.tag is None
            &&& rec.payload_resident ==> r.data == rec.data
            &&& !rec.payload_resident ==> r.data is None && r.meta is None
            &&& rec.payload_resident && meta ==> r.meta == rec.meta
            &&& !meta ==> r.meta is None
        }),
{
}

/// A record that was written is shown as it was given: with the time of the write, its
/// data, its node or else that of the request, and its tag and meta where the reader asks
/// for them.
pub proof fn a_written_record_is_shown_as_given(
    req: WriteRequest,
    now: i64,
    i: int,
    seq: u64,
    tags: bool,
    meta: bool,
)
    requires
        0 <= i < req.records@.len(),
    ensures
        ({
            let rec = req.records@[i];
            let r = shown(seq, batch(req.records@, req.node, now)[i], tags, meta);
            &&& r.seq == seq
            &&& r.ts == now
            &&& r.data == Some(rec.data)
            &&& rec.node is Some ==> r.node == rec.node
            &&& rec.node is None ==> r.node == req.node
            &&& r.tag == (if tags {
                rec.tag
            } else {
                None
            })
            &&& r.meta == (if meta {
                rec.meta
            } else {
                None
            })
        }),
{
    each_record_is_stored_as_given(req, now, i);
    a_record_is_shown_as_stored(seq, batch(req.records@, req.node, now)[i], tags, meta);
}

/// A record whose payload lives in a segment is shown with what was fetched for it: all
/// else stays, the meta goes only to a reader who asks for it, and where nothing was
/// fetched the data is `null`.
pub proof fn a_fetched_payload_is_shown(
    a: RecordOut,
    b: RecordOut,
    fetched: Seq<Fetched>,
    meta: bool,
)
    requires
        filled(a, b, fetched, meta),
    ensures
        b.seq == a.seq,
        b.ts == a.ts,
        b.node == a.node,
        b.tag == a.tag,
        (forall|k: int| 0 <= k < fetched.len() ==> (#[trigger] fetched[k]).0 != a.seq) ==> b.data
            is Some && b.data->0.is_null() && b.meta is None,
        (exists|k: int| 0 <= k < fetched.len() && (#[trigger] fetched[k]).0 == a.seq) ==> exists|k: int|
            {
                &&& 0 <= k < fetched.len()
                &&& (#[trigger] fetched[k]).0 == a.seq
                &&& forall|j: int| 0 <= j < k ==> (#[trigger] fetched[j]).0 != a.seq
                &&& b.data == Some(fetched[k].1)
                &&& meta ==> b.meta == fetched[k].2
                &&& !meta ==> b.meta is None
            },
{
    the_first_fetched_counts(fetched, a.seq);
}

/// What was fetched for a job is the first entry with its number.
pub proof fn the_first_fetched_counts(fetched: Seq<Fetched>, seq: u64)
    ensures
        ({
            let k = fetched_at(fetched, seq);
            &&& k < fetched.len()
            &&& k >= 0 ==> fetched[k].0 == seq && forall|j: int|
                0 <= j < k ==> (#[trigger] fetched[j]).0 != seq
            &&& k < 0 ==> forall|j: int| 0 <= j < fetched.len() ==> (#[trigger] fetched[j]).0 != seq
        }),
    decreases fetched.len(),
{
    if fetched.len() > 0 {
        let f = fetched.drop_last();
        the_first_fetched_counts(f, seq);
        assert forall|j: int| 0 <= j < f.len() implies #[trigger] f[j] == fetched[j] by {}
        let k = fetched_at(fetched, seq);
        if fetched_at(f, seq) < 0 {
            assert forall|j: int| 0 <= j < f.len() implies (#[trigger] fetched[j]).0 != seq by {
                assert(f[j].0 != seq);
            }
        } else {
            assert forall|j: int| 0 <= j < k implies (#[trigger] fetched[j]).0 != seq by {
                assert(f[j].0 != seq);
            }
        }
    }
}

/// A reader stands for a node.
pub open spec fn stands_for(reader: NodeFilter, node: Seq<char>) -> bool {
    match reader {
        NodeFilter::One(n) => n@ == node,
        NodeFilter::Many(v) => exists|i: int| 0 <= i < v@.len() && (#[trigger] v@[i])@ == node,
    }
}

/// A reader gets a record exactly where the record is there, was not deleted, is no older
/// than the topic allows, and is not from a node that the reader stands for, in a topic
/// that keeps a node's own records from it.
pub proof fn who_gets_a_record(t: TopicView, reader: Option<NodeFilter>, now: i64, seq: u64)
    requires
        t.has(seq),
    ensures
        t.delivers(reader, now, seq) <==> {
            let rec = t.rec(seq);
            let old = t.config.ttl_ms > 0 && now - rec.ts > t.config.ttl_ms;
            let own = t.config.dedupe_node && reader is Some && rec.node is Some && stands_for(
                reader->0,
                rec.node->0@,
            );
            !rec.deleted && !old && !own
        },
{
    let rec = t.rec(seq);
    if reader is Some && rec.node is Some {
        match reader->0 {
            NodeFilter::One(n) => {},
            NodeFilter::Many(v) => {
                let names = crate::text::texts(v@);
                if names.contains(rec.node->0@) {
                    let i = choose|i: int| 0 <= i < names.len() && names[i] == rec.node->0@;
                    assert(v@[i]@ == rec.node->0@);
                }
                if exists|i: int| 0 <= i < v@.len() && (#[trigger] v@[i])@ == rec.node->0@ {
                    let i = choose|i: int|
                        0 <= i < v@.len() && (#[trigger] v@[i])@ == rec.node->0@;
                    assert(names[i] == rec.node->0@);
                }
            },
        }
    }
}

/// What is decided of a record: a deletion counts before age, and age before whose it is.
pub proof fn why_a_record_is_left_out(
    reader: Option<NodeFilter>,
    ttl_ms: u64,
    now: i64,
    ts: i64,
    deleted: bool,
    node: Option<String>,
)
    ensures
        ({
            let d = decision(reader, ttl_ms, now, ts, deleted, node);
            let old = ttl_ms > 0 && now - ts > ttl_ms;
            &&& deleted ==> d == ReadDecision::Deleted
            &&& !deleted && old ==> d == ReadDecision::Expired
            &&& !deleted && !old && (reader is None || node is None) ==> d == ReadDecision::Deliver
            &&& d == ReadDecision::NodeFiltered ==> !deleted && !old && reader is Some && node
                is Some
        }),
{
}

/// A read returns no more than was asked for, and no more than ten thousand records or
/// 64 mebibytes; where nothing is asked for, five hundred records or eight mebibytes.
pub proof fn a_read_is_bounded(limit: u64, bytes: u64)
    ensures
        read_limit(0) == 500,
        0 < limit <= 10000 ==> read_limit(limit) == limit,
        limit > 10000 ==> read_limit(limit) == 10000,
        read_budget(0) == 8388608,
        0 < bytes <= 67108864 ==> read_budget(bytes) == bytes,
        bytes > 67108864 ==> read_budget(bytes) == 67108864,
{
}

/// What a read returns ascends, lies beyond the cursor, and is what the reader gets; it
/// holds no more than the limit, and several records only within the budget; and it stops
/// short of the head for one of these two alone.
pub proof fn a_read_stops_for_a_reason(
    t: TopicView,
    reader: Option<NodeFilter>,
    now: i64,
    start: u64,
    limit: u64,
    budget: u64,
    seqs: Seq<u64>,
    next: u64,
)
    requires
        t.is_batch(reader, now, start, limit, budget, seqs, next),
        limit > 0,
    ensures
        seqs.len() <= limit,
        seqs.len() > 1 ==> t.size_of(seqs) <= budget,
        forall|i: int, j: int| 0 <= i < j < seqs.len() ==> #[trigger] seqs[i] < #[trigger] seqs[j],
        forall|i: int|
            0 <= i < seqs.len() ==> start < #[trigger] seqs[i] <= next && t.has_live(seqs[i]),
        forall|s: u64|
            start < s <= next && #[trigger] t.delivers(reader, now, s) ==> seqs.contains(s),
        next < t.head && start < t.head && seqs.len() < limit ==> {
            &&& t.delivers(reader, now, (next + 1) as u64)
            &&& t.size_of(seqs) + t.rec((next + 1) as u64).bytes > budget
            &&& seqs.len() > 0
        },
        seqs.len() == limit ==> next == seqs.last(),
        start <= t.head ==> next <= t.head,
{
    assert forall|i: int| 0 <= i < seqs.len() implies start < #[trigger] seqs[i] <= next
        && t.has_live(seqs[i]) by {
        assert(t.delivers(reader, now, seqs[i]));
    }
}

/// The size of a read is the sum of the sizes of its records.
pub proof fn sizes_add_up(t: TopicView, seqs: Seq<u64>, seq: u64)
    ensures
        t.size_of(Seq::<u64>::empty()) == 0,
        t.size_of(seqs.push(seq)) == t.size_of(seqs) + t.rec(seq).bytes,
{
    assert(seqs.push(seq).drop_last() =~= seqs);
}

/// A reader ahead of the head is told that the topic was created again, and starts over;
/// one who is not, and has missed nothing against its will, is told nothing and reads on
/// from its cursor; one who has is told of exactly what it missed, beyond its cursor and
/// up to the highest number lost, and why, and reads on behind it.
pub proof fn a_reader_is_told_what_it_missed(t: TopicView, from: u64)
    requires
        t.seq_base == 1,
        t.head < u64::MAX - 1,
    ensures
        ({
            let f = t.floors;
            let a = if f.evict_floor > f.expiry_floor {
                f.evict_floor
            } else {
                f.expiry_floor
            };
            let b = if a > f.source_trim_floor {
                a
            } else {
                f.source_trim_floor
            };
            let lost = if b > t.head {
                t.head
            } else {
                b
            };
            if from > t.head {
                &&& t.gap(from) is Some
                &&& t.gap(from)->0.reason == TombstoneReason::Recreated
                &&& t.gap(from)->0.gap_from == 1
                &&& t.gap(from)->0.gap_to == t.head
                &&& t.head > 0 ==> t.gap(from)->0.missed_estimate == t.head
                &&& t.gap(from)->0.head_seq == t.head
                &&& t.gap(from)->0.earliest_seq == t.earliest()
                &&& t.start(from) + 1 == t.earliest()
            } else if lost <= from {
                &&& t.gap(from) is None
                &&& t.start(from) == from
            } else {
                let g = t.gap(from)->0;
                &&& t.gap(from) is Some
                &&& g.gap_from == from + 1
                &&& g.gap_to == lost
                &&& g.missed_estimate == lost - from
                &&& g.earliest_seq == lost + 1
                &&& g.head_seq == t.head
                &&& t.start(from) >= lost
                &&& t.start(from) + 1 >= t.earliest()
                &&& t.start(from) == lost || t.start(from) + 1 == t.earliest()
                &&& f.evict_floor > from && f.expiry_floor > from ==> g.reason
                    == TombstoneReason::Mixed
                &&& f.evict_floor <= from && f.expiry_floor > from ==> g.reason
                    == TombstoneReason::Ttl
                &&& f.evict_floor > from && f.expiry_floor <= from ==> g.reason
                    == TombstoneReason::Cap
                &&& f.evict_floor <= from && f.expiry_floor <= from ==> g.reason
                    == TombstoneReason::SourceTrim
            }
        }),
{
}

/// A read shows the topic as it is once retention is enforced, and notes that it was read;
/// it changes nothing else of it.
pub proof fn a_read_changes_nothing_but_the_times(v: EngineView, name: Seq<char>, now: i64)
    requires
        v.topics.contains_key(name),
        v.topics[name].ok(),
        v.topics[name].config.ttl_ms == 0,
        v.topics[name].config.cap_records == 0,
        v.topics[name].config.cap_bytes == 0,
    ensures
        ({
            let t = v.topics[name];
            let u = v.read_topic(name, now);
            &&& u.last_read == now
            &&& u.last_consumed == now
            &&& u == (TopicView { last_read: u.last_read, last_consumed: u.last_consumed, ..t })
        }),
{
    retention_keeps(v.topics[name], now);
}

/// The answer to a read: the records the reader gets, in order, each as it is stored; how
/// far it has come, and how far that is from the head; and which of its records have
/// their payload in a segment.
pub proof fn the_answer_to_a_read(t: TopicView, req: DiffRequest, now: i64, r: DiffResponse)
    requires
        t.ok(),
        answers_read(t, req, now, r),
    ensures
        r.head_seq == t.head,
        r.earliest_seq == t.earliest(),
        r.tombstone == t.gap(req.from_seq),
        r.caught_up <==> r.next_from_seq == t.head,
        r.next_from_seq <= t.head ==> r.lag == t.head - r.next_from_seq,
        t.start(req.from_seq) <= r.next_from_seq,
        t.start(req.from_seq) + 1 >= t.base ==> r.records_scanned == r.next_from_seq - t.start(
            req.from_seq,
        ),
        t.start(req.from_seq) + 1 < t.base <= r.next_from_seq ==> r.records_scanned
            == r.next_from_seq + 1 - t.base,
        t.start(req.from_seq) + 1 < t.base && r.next_from_seq < t.base ==> r.records_scanned == 0,
        forall|i: int, j: int|
            0 <= i < j < r.records@.len() ==> (#[trigger] r.records@[i]).seq < (
            #[trigger] r.records@[j]).seq,
        forall|i: int|
            0 <= i < r.records@.len() ==> {
                let x = #[trigger] r.records@[i];
                let rec = t.rec(x.seq);
                &&& t.start(req.from_seq) < x.seq <= r.next_from_seq
                &&& t.delivers(req.node, now, x.seq)
                &&& x.ts == rec.ts
                &&& x.node == rec.node
                &&& req.include_tags ==> x.tag == rec.tag
                &&& !req.include_tags ==> x.tag is None
                &&& rec.payload_resident ==> x.data == rec.data
                &&& rec.payload_resident && req.include_meta ==> x.meta == rec.meta
                &&& !req.include_meta ==> x.meta is None
                &&& r.sealed@.contains(i as usize) <==> !rec.payload_resident
            },
        forall|s: u64|
            t.start(req.from_seq) < s <= r.next_from_seq && #[trigger] t.delivers(
                req.node,
                now,
                s,
            ) ==> exists|i: int| 0 <= i < r.records@.len() && (#[trigger] r.records@[i]).seq == s,
{
    let seqs = seqs_of(r.records@);
    assert forall|i: int| 0 <= i < r.records@.len() implies #[trigger] seqs[i]
        == r.records@[i].seq by {}
    assert forall|i: int, j: int| 0 <= i < j < r.records@.len() implies (
    #[trigger] r.records@[i]).seq < (#[trigger] r.records@[j]).seq by {
        assert(seqs[i] < seqs[j]);
    }
    assert forall|i: int| 0 <= i < r.records@.len() implies {
        let x = #[trigger] r.records@[i];
        let rec = t.rec(x.seq);
        &&& t.start(req.from_seq) < x.seq <= r.next_from_seq
        &&& t.delivers(req.node, now, x.seq)
        &&& x.ts == rec.ts
        &&& x.node == rec.node
        &&& req.include_tags ==> x.tag == rec.tag
        &&& !req.include_tags ==> x.tag is None
        &&& rec.payload_resident ==> x.data == rec.data
        &&& rec.payload_resident && req.include_meta ==> x.meta == rec.meta
        &&& !req.include_meta ==> x.meta is None
        &&& r.sealed@.contains(i as usize) <==> !rec.payload_resident
    } by {
        let x = r.records@[i];
        assert(seqs[i] == x.seq);
        assert(t.start(req.from_seq) < seqs[i] <= r.next_from_seq);
        a_record_is_shown_as_stored(x.seq, t.rec(x.seq), req.include_tags, req.include_meta);
    }
    assert forall|s: u64|
        t.start(req.from_seq) < s <= r.next_from_seq && #[trigger] t.delivers(
            req.node,
            now,
            s,
        ) implies exists|i: int| 0 <= i < r.records@.len() && (#[trigger] r.records@[i]).seq == s by {
        assert(seqs.contains(s));
        let i = choose|i: int| 0 <= i < seqs.len() && seqs[i] == s;
        assert(r.records@[i].seq == s);
    }
}

} // verus!
