//! What retention and deletion are for: which records go, and which stay.
use crate::delete::{delete_begun, delete_done, remains, DeleteRequest, DeleteResponse,
    PendingDelete};
use crate::engine::EngineView;
use crate::forward_laws::picks;
use crate::topic_index::{bytes_in, live_in, StoredRecord};
use crate::topic_laws::{deletion_keeps, reclaim_keeps, reclaim_revives_nothing, reclaim_spares,
    retention_keeps, without_keeps};
use crate::topic_state::{aged_run, dead_run_within, TopicView};
use crate::types::{Durability, Error, Filter};
use vstd::prelude::*;

verus! {

/// What lies below every floor is gone, and what does not is there as before.
proof fn reclaim_is_exact(t: TopicView, seq: u64)
    requires
        t.ok(),
    ensures
        t.reclaimed().has_live(seq) <==> t.has_live(seq) && seq >= t.floors.earliest(
            t.seq_base,
            t.head,
        ),
        t.reclaimed().has_live(seq) ==> t.reclaimed().rec(seq) == t.rec(seq),
{
    let e = t.floors.earliest(t.seq_base, t.head);
    let k = if e <= t.base {
        0
    } else if e - t.base < t.recs.len() {
        e - t.base
    } else {
        t.recs.len() as int
    };
    dead_run_within(t.recs, k);
    if t.reclaimed().has_live(seq) {
        reclaim_revives_nothing(t, seq);
    }
    if t.has_live(seq) && seq >= e {
        reclaim_spares(t, seq);
    }
}

/// The first number that can be read lies above every floor and not before the start of the
/// topic, at most one beyond the head, and no higher than that.
pub proof fn reading_starts_above_the_floors(t: TopicView)
    requires
        t.head < u64::MAX,
        t.floors.evict_floor < u64::MAX,
        t.floors.expiry_floor < u64::MAX,
        t.floors.delete_floor < u64::MAX,
        t.floors.source_trim_floor < u64::MAX,
    ensures
        ({
            let f = t.floors;
            let e = f.earliest(t.seq_base, t.head);
            &&& e <= t.head + 1
            &&& e == t.head + 1 || (e > f.evict_floor && e > f.expiry_floor && e > f.delete_floor
                && e > f.source_trim_floor && e >= t.seq_base)
            &&& e == t.head + 1 || e == t.seq_base || e == f.evict_floor + 1 || e == f.expiry_floor
                + 1 || e == f.delete_floor + 1 || e == f.source_trim_floor + 1
        }),
        t.earliest() <= t.head + 1,
        t.base <= t.head ==> t.earliest() >= t.base,
{
}

/// Retention changes what is kept, and nothing else: the floors of eviction and of age, the
/// slots, and with them number and size.
pub proof fn retention_changes_only_what_is_kept(t: TopicView, now: i64)
    requires
        t.ok(),
    ensures
        ({
            let r = t.retained(now);
            &&& r == (TopicView {
                base: r.base,
                recs: r.recs,
                bytes: r.bytes,
                live: r.live,
                floors: r.floors,
                ..t
            })
            &&& r.floors.delete_floor == t.floors.delete_floor
            &&& r.floors.source_trim_floor == t.floors.source_trim_floor
            &&& forall|s: u64| #[trigger]
                r.has_live(s) ==> t.has_live(s) && r.rec(s) == t.rec(s)
        }),
{
    let r = t.retained(now);
    if t.retention_due() {
        let u = t.with_floors(t.evict_plan(now), t.expiry_plan(now));
        assert forall|s: u64| #[trigger] r.has_live(s) implies t.has_live(s) && r.rec(s) == t.rec(
            s,
        ) by {
            reclaim_revives_nothing(u, s);
        }
    }
}

/// A cap on the number of records keeps exactly the newest: a record that was there stays
/// where fewer than so many numbers have been given out since.
pub proof fn a_cap_keeps_the_newest(t: TopicView, now: i64, seq: u64)
    requires
        t.ok(),
        t.config.ttl_ms == 0,
        t.config.cap_bytes == 0,
        t.config.cap_records > 0,
        t.head > 0,
        seq <= t.head,
        seq >= t.floors.earliest(t.seq_base, t.head),
    ensures
        t.retained(now).has_live(seq) <==> t.has_live(seq) && t.head - seq < t.config.cap_records,
        t.retained(now).has_live(seq) ==> t.retained(now).rec(seq) == t.rec(seq),
{
    let u = t.with_floors(t.evict_plan(now), t.expiry_plan(now));
    reclaim_is_exact(u, seq);
}

proof fn aged_run_is(recs: Seq<StoredRecord>, ttl_ms: u64, now: i64, i: int)
    requires
        0 <= i <= recs.len(),
    ensures
        i <= aged_run(recs, ttl_ms, now, i) <= recs.len(),
        forall|j: int|
            i <= j < aged_run(recs, ttl_ms, now, i) ==> now - (#[trigger] recs[j]).ts > ttl_ms,
        aged_run(recs, ttl_ms, now, i) < recs.len() ==> now - recs[aged_run(
            recs,
            ttl_ms,
            now,
            i,
        )].ts <= ttl_ms,
    decreases recs.len() - i,
{
    if i < recs.len() && now - recs[i].ts > ttl_ms {
        aged_run_is(recs, ttl_ms, now, i + 1);
    }
}

/// A record stays as long as it, or one before it that is still there, is no older than the
/// topic allows; once it and all before it are older, it goes.
pub proof fn age_takes_the_oldest(t: TopicView, now: i64, seq: u64)
    requires
        t.ok(),
        t.config.ttl_ms > 0,
        t.config.cap_bytes == 0,
        t.config.cap_records == 0,
        t.head > 0,
        t.tail() == t.head + 1,
        t.has(seq),
        seq >= t.floors.earliest(t.seq_base, t.head),
    ensures
        t.retained(now).has_live(seq) <==> t.has_live(seq) && exists|s: u64|
            s <= seq && #[trigger] t.has(s) && now - t.rec(s).ts <= t.config.ttl_ms,
        t.retained(now).has_live(seq) ==> t.retained(now).rec(seq) == t.rec(seq),
{
    let u = t.with_floors(t.evict_plan(now), t.expiry_plan(now));
    reclaim_is_exact(u, seq);
    aged_run_is(t.recs, t.config.ttl_ms, now, 0);
    let k = aged_run(t.recs, t.config.ttl_ms, now, 0);
    if seq >= t.base + k {
        let s = (t.base + k) as u64;
        assert(t.has(s) && s <= seq);
        assert(t.rec(s) == t.recs[k]);
    } else {
        assert forall|s: u64| s <= seq && #[trigger] t.has(s) implies now - t.rec(s).ts
            > t.config.ttl_ms by {
            assert(t.rec(s) == t.recs[s - t.base]);
        }
    }
}

/// What retention calls for: floors that do not fall; the cap on the number of records calls
/// for the head less the cap, and alone needs no log, since it can be derived again.
pub proof fn what_retention_calls_for(t: TopicView, now: i64)
    requires
        t.ok(),
        t.retention_due(),
    ensures
        ({
            let p = t.plan(now);
            &&& p.evict_floor == t.evict_plan(now)
            &&& p.expiry_floor == t.expiry_plan(now)
            &&& p.expiry_floor >= t.floors.expiry_floor
            &&& p.floor_advanced <==> p.evict_floor > t.floors.evict_floor || p.expiry_floor
                > t.floors.expiry_floor
            &&& p.expiry_floor > t.floors.expiry_floor ==> p.durable_advance
            &&& t.config.ttl_ms == 0 && t.config.cap_bytes == 0 ==> !p.durable_advance
            &&& t.config.cap_bytes == 0 && t.config.cap_records == 0 ==> p.evict_floor
                == t.floors.evict_floor
            &&& t.config.cap_bytes == 0 && t.config.cap_records > 0 && t.head > t.config.cap_records
                && t.head - t.config.cap_records > t.floors.evict_floor ==> p.evict_floor == t.head
                - t.config.cap_records
            &&& t.config.cap_bytes == 0 && t.head <= t.config.cap_records ==> p.evict_floor
                == t.floors.evict_floor
        }),
{
}

/// A deletion removes exactly what it names: of the records that can be read, those below
/// the position it gives and the moment it was asked for, and with a filter only those whose
/// tag the filter selects; every other record stays as it is.
pub proof fn a_deletion_removes_what_it_names(
    t: TopicView,
    before: Option<u64>,
    filter: Option<Filter>,
    bound_head: Option<u64>,
    now: i64,
    seq: u64,
)
    requires
        t.ok(),
        t.head < u64::MAX - 1,
        t.retained(now).has_live(seq),
        seq >= t.retained(now).floors.earliest(t.seq_base, t.head),
        seq <= t.head,
    ensures
        ({
            let r = t.retained(now);
            let u = t.after_delete(before, filter, bound_head, now);
            let below = (before is Some ==> seq < before->0) && (match bound_head {
                Some(b) => seq < b,
                None => seq <= t.head,
            });
            let named = match filter {
                None => true,
                Some(f) => r.rec(seq).tag is Some && picks(f.op, f.value@, r.rec(seq).tag->0@),
            };
            &&& u.has_live(seq) <==> !(below && named)
            &&& u.has_live(seq) ==> u.rec(seq) == r.rec(seq)
        }),
{
    retention_keeps(t, now);
    let r = t.retained(now);
    let bound = r.delete_bound(before, bound_head);
    let victims = r.victims(filter, bound);
    let w = r.without(victims);
    without_keeps(r, victims);
    let below = if filter is None && before is Some {
        bound
    } else {
        0
    };
    let x = w.with_delete_below(below);
    assert(x.ok());
    reclaim_is_exact(x, seq);
    assert(w.recs[seq - r.base] == (if victims.contains(seq) {
        r.rec(seq).erased()
    } else {
        r.rec(seq)
    })) by {
        assert((r.base + (seq - r.base)) as u64 == seq);
    }
    match filter {
        Some(f) => {
            if r.rec(seq).tag is Some {
                let (value, tag) = (f.value@, r.rec(seq).tag->0@);
                if value.is_prefix_of(tag) {
                    assert(tag.take(value.len() as int) =~= value);
                }
                if tag.len() >= value.len() && tag.take(value.len() as int) == value {
                    assert(value.is_prefix_of(tag));
                }
            }
        },
        None => {},
    }
}

/// A deletion brings nothing back, moves no head, and touches neither the settings nor the
/// floors of what was lost.
pub proof fn a_deletion_changes_nothing_else(
    t: TopicView,
    before: Option<u64>,
    filter: Option<Filter>,
    bound_head: Option<u64>,
    now: i64,
    seq: u64,
)
    requires
        t.ok(),
    ensures
        ({
            let r = t.retained(now);
            let u = t.after_delete(before, filter, bound_head, now);
            &&& u.has_live(seq) ==> r.has_live(seq) && u.rec(seq) == r.rec(seq)
            &&& u.head == t.head
            &&& u.config == t.config
            &&& u.queue == t.queue
            &&& u.name == t.name
            &&& u.topic_id == t.topic_id
            &&& u.floors.evict_floor == r.floors.evict_floor
            &&& u.floors.expiry_floor == r.floors.expiry_floor
            &&& u.floors.source_trim_floor == r.floors.source_trim_floor
            &&& filter is Some ==> u.floors.delete_floor == t.floors.delete_floor
        }),
{
    retention_keeps(t, now);
    let r = t.retained(now);
    let bound = r.delete_bound(before, bound_head);
    let victims = r.victims(filter, bound);
    let w = r.without(victims);
    without_keeps(r, victims);
    let below = if filter is None && before is Some {
        bound
    } else {
        0
    };
    let x = w.with_delete_below(below);
    assert(x.ok());
    if x.reclaimed().has_live(seq) {
        reclaim_revives_nothing(x, seq);
        assert((r.base + (seq - r.base)) as u64 == seq);
        assert(w.recs[seq - r.base] == r.recs[seq - r.base] || w.recs[seq - r.base].deleted);
    }
}

/// A deletion counts what it removes: what it says it deleted is what the topic has less.
pub proof fn a_deletion_counts_what_it_removes(t: TopicView, victims: Set<u64>)
    requires
        t.ok(),
        t.settled(),
    ensures
        t.loss(victims).deleted == t.live - t.without(victims).live,
        t.loss(victims).bytes_freed == t.bytes - t.without(victims).bytes,
        t.without(victims).live == live_in(t.without(victims).recs),
        t.without(victims).bytes == bytes_in(t.without(victims).recs),
{
    without_keeps(t, victims);
    crate::topic_state::erase_shrinks(t.base, t.recs, victims);
}

/// Records that are deleted by number go, and no others.
pub proof fn records_are_deleted_by_number(t: TopicView, seqs: Set<u64>, seq: u64)
    requires
        t.ok(),
        t.has_live(seq),
        seq >= t.floors.earliest(t.seq_base, t.head),
    ensures
        t.after_delete_seqs(seqs).has_live(seq) <==> !seqs.contains(seq),
        t.after_delete_seqs(seqs).has_live(seq) ==> t.after_delete_seqs(seqs).rec(seq) == t.rec(seq),
{
    let w = t.without(seqs);
    without_keeps(t, seqs);
    reclaim_is_exact(w, seq);
    assert((t.base + (seq - t.base)) as u64 == seq);
    assert(w.recs[seq - t.base] == (if seqs.contains(seq) {
        t.rec(seq).erased()
    } else {
        t.rec(seq)
    }));
}

/// A deleted record keeps its time and its node and nothing else.
pub proof fn what_is_left_of_a_deleted_record(rec: StoredRecord)
    ensures
        rec.erased().deleted,
        rec.erased().data is None,
        rec.erased().meta is None,
        rec.erased().tag is None,
        rec.erased().bytes == 0,
        rec.erased().ts == rec.ts,
        rec.erased().node == rec.node,
{
}

/// The answer to a deletion says how many records went, and what is left.
pub proof fn the_answer_to_a_deletion(t: TopicView, deleted: u64)
    ensures
        remains(t, deleted).deleted == deleted,
        remains(t, deleted).earliest_seq == t.earliest(),
        remains(t, deleted).head_seq == t.head,
        remains(t, deleted).count == t.live,
        remains(t, deleted).bytes == t.bytes,
{
}

/// A deletion by request applies to what was there when it was asked for, and to nothing
/// that comes later.
pub proof fn a_deletion_is_of_its_moment(
    v: EngineView,
    name: Seq<char>,
    req: DeleteRequest,
    now: i64,
    seq: u64,
)
    requires
        v.topics.contains_key(name),
        v.topics[name].ok(),
        v.topics[name].head < u64::MAX - 1,
        v.topics[name].config.ttl_ms == 0,
        v.topics[name].config.cap_records == 0,
        v.topics[name].config.cap_bytes == 0,
        v.topics[name].has_live(seq),
        seq >= v.topics[name].floors.earliest(v.topics[name].seq_base, v.topics[name].head),
        seq <= v.topics[name].head,
    ensures
        ({
            let t = v.topics[name];
            let u = v.deleted_topic(name, req, now);
            let below = req.before_seq is Some ==> seq < req.before_seq->0;
            let named = match req.match_ {
                None => true,
                Some(f) => t.rec(seq).tag is Some && picks(f.op, f.value@, t.rec(seq).tag->0@),
            };
            &&& u.has_live(seq) <==> !(below && named)
            &&& u.has_live(seq) ==> u.rec(seq) == t.rec(seq)
            &&& u.head == t.head
        }),
{
    let t = v.topics[name];
    let k = t.ticketed();
    let b = Some((t.head + 1) as u64);
    a_deletion_removes_what_it_names(k, req.before_seq, req.match_, b, now, seq);
    deletion_keeps(k, req.before_seq, req.match_, b, now);
    reclaim_keeps(k);
}

/// A deletion that begins deletes nothing yet; it fixes what it applies to: the topic, the
/// position, the filter, and the moment, which is that all there is lies before it; and the
/// frame to be logged says the same.
pub proof fn a_deletion_fixes_its_moment(
    v: EngineView,
    name: Seq<char>,
    req: DeleteRequest,
    now: i64,
    p: PendingDelete,
    v2: EngineView,
)
    requires
        v.topics.contains_key(name),
        v.topics[name].name == name,
        v.topics[name].ok(),
        v.topics[name].head < u64::MAX,
        delete_begun(v, name, req, now, p, v2),
    ensures
        p.name@ == name,
        p.topic_id == v.topics[name].topic_id,
        p.before_seq == req.before_seq,
        p.match_ == req.match_,
        p.bound_head == v.topics[name].head + 1,
        p.frame is Delete,
        p.frame->Delete_topic_id == v.topics[name].topic_id,
        p.frame->Delete_before_seq == req.before_seq,
        p.frame->Delete_match_ is Some <==> req.match_ is Some,
        req.match_ is Some ==> crate::wal::selector(p.frame->Delete_match_->0) == req.match_->0,
        p.frame->Delete_seqs@.len() == 0,
        p.frame->Delete_bound_head == Some((v.topics[name].head + 1) as u64),
        p.durable <==> v.topics[name].config.durability == Some(Durability::Fsync) || (
        v.topics[name].config.durability is None && v.topics[name].config.durable),
        v2.topics[name].recs == v.topics[name].retained(now).recs,
        v2.topics[name].head == v.topics[name].head,
{
    retention_keeps(v.topics[name], now);
}

/// A deletion that was logged is made, and its answer says what is left: the first number
/// that can be read, the head, and how many records of what size; it says how many records
/// went, and names exactly those. One that was not logged deletes nothing.
pub proof fn a_logged_deletion_is_made(
    v: EngineView,
    p: PendingDelete,
    committed: bool,
    now: i64,
    r: Result<(DeleteResponse, Vec<u64>), Error>,
    v2: EngineView,
)
    requires
        v.topics.contains_key(p.name@),
        v.topics[p.name@].name == p.name@,
        v.topics[p.name@].ok(),
        v.topics[p.name@].settled(),
        v.topics[p.name@].head < u64::MAX - 1,
        delete_done(v, p, committed, now, r, v2),
    ensures
        !committed ==> r is Err && v2.topics[p.name@].recs == v.topics[p.name@].recs
            && v2.topics[p.name@].live == v.topics[p.name@].live,
        committed ==> {
            let t = v.topics[p.name@].retained(now);
            let u = v2.topics[p.name@];
            &&& r is Ok
            &&& r->Ok_0.0.head_seq == v.topics[p.name@].head
            &&& r->Ok_0.0.earliest_seq == u.earliest()
            &&& r->Ok_0.0.count == u.live
            &&& r->Ok_0.0.bytes == u.bytes
            &&& r->Ok_0.0.deleted == live_in(t.recs) - live_in(
                t.without(t.victims(p.match_, t.delete_bound(p.before_seq, Some(p.bound_head)))).recs,
            )
            &&& forall|x: u64| #[trigger]
                r->Ok_0.1@.contains(x) ==> t.has_live(x) && x < p.bound_head && (p.before_seq
                    is Some ==> x < p.before_seq->0) && (p.match_ is Some ==> t.rec(x).tag is Some
                    && picks(p.match_->0.op, p.match_->0.value@, t.rec(x).tag->0@))
            &&& forall|x: u64|
                t.has_live(x) && x >= t.floors.earliest(t.seq_base, t.head) && x <= t.head ==> (
                #[trigger] u.has_live(x) <==> !r->Ok_0.1@.contains(x))
        },
{
    let t0 = v.topics[p.name@];
    retention_keeps(t0, now);
    deletion_keeps(t0, p.before_seq, p.match_, Some(p.bound_head), now);
    if committed {
        let t = t0.retained(now);
        let u = v2.topics[p.name@];
        let bound = t.delete_bound(p.before_seq, Some(p.bound_head));
        a_deletion_counts_what_it_removes(t, t.victims(p.match_, bound));
        assert forall|x: u64| #[trigger] r->Ok_0.1@.contains(x) implies t.has_live(x) && x
            < p.bound_head && (p.before_seq is Some ==> x < p.before_seq->0) && (p.match_ is Some
            ==> t.rec(x).tag is Some && picks(
            p.match_->0.op,
            p.match_->0.value@,
            t.rec(x).tag->0@,
        )) by {
            assert(t.victims(p.match_, bound).contains(x));
            if p.match_ is Some {
                let (value, tag) = (p.match_->0.value@, t.rec(x).tag->0@);
                if value.is_prefix_of(tag) {
                    assert(tag.take(value.len() as int) =~= value);
                }
            }
        }
        assert forall|x: u64|
            t.has_live(x) && x >= t.floors.earliest(t.seq_base, t.head) && x <= t.head implies (
        #[trigger] u.has_live(x) <==> !r->Ok_0.1@.contains(x)) by {
            a_deletion_removes_what_it_names(
                t0,
                p.before_seq,
                p.match_,
                Some(p.bound_head),
                now,
                x,
            );
            assert(u.has_live(x) == t0.after_delete(
                p.before_seq,
                p.match_,
                Some(p.bound_head),
                now,
            ).has_live(x));
            assert(r->Ok_0.1@.contains(x) <==> t.victims(p.match_, bound).contains(x));
            if p.match_ is Some && t.rec(x).tag is Some {
                let (value, tag) = (p.match_->0.value@, t.rec(x).tag->0@);
                if value.is_prefix_of(tag) {
                    assert(tag.take(value.len() as int) =~= value);
                }
                if tag.len() >= value.len() && tag.take(value.len() as int) == value {
                    assert(value.is_prefix_of(tag));
                }
            }
        }
    }
}

/// A deletion says how many records it removed: as many as the topic has fewer for it.
pub proof fn a_deletion_says_how_many_went(
    t: TopicView,
    before: Option<u64>,
    filter: Option<Filter>,
    bound_head: Option<u64>,
    now: i64,
)
    requires
        t.ok(),
        t.settled(),
    ensures
        ({
            let r = t.retained(now);
            let victims = r.victims(filter, r.delete_bound(before, bound_head));
            let n = t.delete_stats(before, filter, bound_head, now).deleted;
            &&& n == live_in(r.recs) - live_in(r.without(victims).recs)
            &&& n <= r.live
        }),
{
    retention_keeps(t, now);
    let r = t.retained(now);
    let victims = r.victims(filter, r.delete_bound(before, bound_head));
    a_deletion_counts_what_it_removes(r, victims);
}

proof fn reclaiming_gives_its_bytes_back(t: TopicView)
    requires
        t.ok(),
        t.settled(),
    ensures
        t.reclaim_bytes() == t.bytes - t.reclaimed().bytes,
        t.reclaimed().bytes == bytes_in(t.reclaimed().recs),
{
    reclaim_keeps(t);
    let n = t.reclaim_count();
    assert(t.recs =~= t.recs.take(n) + t.recs.skip(n));
    crate::topic_index::run_sums_add(t.recs.take(n), t.recs.skip(n));
}

/// What retention and a deletion take no longer counts against the quota: what they give back
/// is what the topic has lost in size.
pub proof fn what_goes_gives_its_bytes_back(
    t: TopicView,
    before: Option<u64>,
    filter: Option<Filter>,
    bound_head: Option<u64>,
    now: i64,
)
    requires
        t.ok(),
        t.settled(),
        t.head < u64::MAX - 1,
    ensures
        t.retained_bytes(now) == t.bytes - t.retained(now).bytes,
        t.delete_stats(before, filter, bound_head, now).bytes_freed == t.bytes - t.after_delete(
            before,
            filter,
            bound_head,
            now,
        ).bytes,
{
    retention_keeps(t, now);
    if t.retention_due() {
        reclaiming_gives_its_bytes_back(
            t.with_floors(t.evict_plan(now), t.expiry_plan(now)),
        );
    }
    let r = t.retained(now);
    let bound = r.delete_bound(before, bound_head);
    let victims = r.victims(filter, bound);
    a_deletion_counts_what_it_removes(r, victims);
    without_keeps(r, victims);
    deletion_keeps(t, before, filter, bound_head, now);
    let v = r.without(victims).with_delete_below(
        if filter is None && before is Some {
            bound
        } else {
            0
        },
    );
    reclaiming_gives_its_bytes_back(v);
}

/// A gap that comes from the source of a topic takes a number of its own, the next one, which
/// can never be read, and is reported as lost; nothing else changes.
pub proof fn a_gap_of_the_source_takes_a_number(t: TopicView, seq: u64)
    requires
        t.ok(),
        t.settled(),
        t.head < u64::MAX - 1,
    ensures
        ({
            let u = t.trimmed();
            &&& u.head == t.head + 1
            &&& u.tail() == u.head + 1
            &&& !u.has_live(u.head)
            &&& u.floors.lost() >= u.head
            &&& u.floors.evict_floor == t.floors.evict_floor
            &&& u.floors.expiry_floor == t.floors.expiry_floor
            &&& u.floors.delete_floor == t.floors.delete_floor
            &&& t.has_live(seq) ==> u.has_live(seq) && u.rec(seq) == t.rec(seq)
            &&& u.live == t.live
            &&& u.bytes == t.bytes
        }),
{
}

/// A deletion of all that lies before a position holds for what is not there yet as well: the
/// floor goes up to just before the position, or to the head of the moment, and never down. Any
/// other deletion moves no floor.
pub proof fn which_floor_a_deletion_moves(
    t: TopicView,
    before: Option<u64>,
    filter: Option<Filter>,
    bound_head: Option<u64>,
    now: i64,
)
    ensures
        ({
            let r = t.retained(now);
            let u = t.after_delete(before, filter, bound_head, now);
            &&& u.floors.evict_floor == r.floors.evict_floor
            &&& u.floors.expiry_floor == r.floors.expiry_floor
            &&& u.floors.source_trim_floor == r.floors.source_trim_floor
            &&& filter is Some || before is None ==> u.delete_below == r.delete_below
            &&& t.ok() && (filter is Some || before is None) ==> u.floors.delete_floor
                == r.floors.delete_floor
            &&& filter is None && before is Some && bound_head is Some ==> {
                let bound = if before->0 < bound_head->0 {
                    before->0
                } else {
                    bound_head->0
                };
                &&& u.delete_below == (if r.delete_below > bound {
                    r.delete_below
                } else {
                    bound
                })
                &&& u.floors.delete_floor >= r.floors.delete_floor
                &&& bound > 0 ==> u.floors.delete_floor >= bound - 1
            }
        }),
{
    if t.ok() {
        retention_keeps(t, now);
    }
}

} // verus!
