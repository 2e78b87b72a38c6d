//! What holds of a topic whatever is done to it.
use crate::eviction::{admitted, max64};
use crate::topic_index::{bytes_in, hole, live_at_most_len, live_in, run_sums_add, StoredRecord};
use crate::topic_state::{dead_run, dead_run_within, erase_set, erase_shrinks, run, shed_run,
    shed_run_within, StagedAppend, TopicView};
use crate::types::{Discard, Filter};
use vstd::prelude::*;

verus! {

/// Dropping slots at the front keeps a topic sound, moves neither head nor tail,
/// and makes neither number nor size grow.
pub proof fn reclaim_keeps(t: TopicView)
    requires
        t.ok(),
    ensures
        t.reclaimed().ok(),
        0 <= t.reclaim_count() <= t.recs.len(),
        t.reclaimed().tail() == t.tail(),
        t.reclaimed().live <= t.live,
        t.reclaimed().bytes <= t.bytes,
        t.settled() ==> t.reclaimed().settled(),
{
    let n = t.reclaim_count();
    let e = t.floors.earliest(t.seq_base, t.head);
    let k = if e <= t.base {
        0
    } else if e - t.base < t.recs.len() {
        e - t.base
    } else {
        t.recs.len() as int
    };
    dead_run_within(t.recs, k);
    let r = t.reclaimed();
    assert forall|i: int| 0 <= i < r.recs.len() implies (#[trigger] r.recs[i]).ok() by {
        assert(r.recs[i] == t.recs[i + n]);
    }
    assert(t.recs =~= t.recs.take(n) + t.recs.skip(n));
    run_sums_add(t.recs.take(n), t.recs.skip(n));
    live_at_most_len(t.recs);
}

/// Retention keeps a topic sound, moves neither head nor tail, lowers no floor,
/// and makes neither number nor size grow. Number and size go on to agree with the
/// slots.
pub proof fn retention_keeps(t: TopicView, now: i64)
    requires
        t.ok(),
    ensures
        t.retained(now).ok(),
        t.retained(now).tail() == t.tail(),
        t.retained(now).head == t.head,
        t.retained(now).live <= t.live,
        t.retained(now).bytes <= t.bytes,
        t.retained(now).floors.covers(t.floors),
        t.settled() ==> t.retained(now).settled(),
        t.idle() ==> t.retained(now).idle(),
{
    if t.retention_due() {
        reclaim_keeps(t.with_floors(t.evict_plan(now), t.expiry_plan(now)));
    }
}

/// A topic without a rule for retention keeps every record.
pub proof fn no_rule_no_loss(t: TopicView, now: i64)
    requires
        t.config.ttl_ms == 0,
        t.config.cap_records == 0,
        t.config.cap_bytes == 0,
    ensures
        t.retained(now) == t,
{
}

/// Retention brings the size within its cap, and stops there: where the size is
/// within the cap without what age and the cap by count take, it takes nothing
/// more, and where it does, the last record it takes would have been too much.
pub proof fn byte_cap_takes_no_more_than_needed(t: TopicView, now: i64)
    requires
        t.ok(),
        t.settled(),
        t.retention_due(),
        t.config.cap_bytes > 0,
    ensures
        t.retained(now).bytes <= t.config.cap_bytes,
        ({
            let floor = max64(t.cap_plan(), t.expiry_plan(now));
            &&& bytes_in(t.recs.skip(t.place_above(floor))) <= t.config.cap_bytes
                ==> t.evict_plan(now) == t.cap_plan()
            &&& t.evict_plan(now) > floor ==> bytes_in(
                t.recs.skip(t.evict_plan(now) - t.base),
            ) > t.config.cap_bytes
        }),
{
    let floor = max64(t.cap_plan(), t.expiry_plan(now));
    let i = t.place_above(floor);
    let over = t.bytes_over(now);
    let j = shed_run(t.recs, i, over);
    run_sums_split(t.recs, i);
    shed_run_within(t.recs, i, over);
    run_sums_split(t.recs, j);
    let front = t.recs.take(j);
    run_sums_split(front, i);
    assert(front.take(i) =~= t.recs.take(i));
    assert(front.skip(i) =~= t.recs.subrange(i, j));
    assert(bytes_in(t.recs.skip(j)) <= t.config.cap_bytes) by {
        if j == t.recs.len() {
            assert(t.recs.skip(j) =~= Seq::<StoredRecord>::empty());
        }
    }
    if j > i {
        run_sums_split(t.recs, j - 1);
        let short = t.recs.take(j - 1);
        run_sums_split(short, i);
        assert(short.take(i) =~= t.recs.take(i));
        assert(short.skip(i) =~= t.recs.subrange(i, j - 1));
    }
    let u = t.with_floors(t.evict_plan(now), t.expiry_plan(now));
    let n = u.reclaim_count();
    let e = u.floors.earliest(u.seq_base, u.head);
    let k = if e <= u.base {
        0
    } else if e - u.base < u.recs.len() {
        e - u.base
    } else {
        u.recs.len() as int
    };
    dead_run_within(u.recs, k);
    assert(j <= k <= n);
    run_sums_split(t.recs, n);
    let rest = t.recs.skip(j);
    run_sums_split(rest, n - j);
    assert(rest.skip(n - j) =~= t.recs.skip(n));
}

/// Count and size of a run are those of its two parts.
proof fn run_sums_split(a: Seq<StoredRecord>, i: int)
    requires
        0 <= i <= a.len(),
    ensures
        live_in(a) == live_in(a.take(i)) + live_in(a.skip(i)),
        bytes_in(a) == bytes_in(a.take(i)) + bytes_in(a.skip(i)),
{
    assert(a =~= a.take(i) + a.skip(i));
    run_sums_add(a.take(i), a.skip(i));
}

/// Loss is never silent: a live record that retention drops lies below the first
/// sequence number kept, so that a reader who has not passed it is told of the
/// gap; unless it lies below the floor of what was deleted.
pub proof fn loss_is_reported(t: TopicView, now: i64, seq: u64)
    requires
        t.ok(),
        t.has_live(seq),
        seq <= t.head,
        !t.retained(now).has_live(seq),
    ensures
        seq < t.retained(now).first_kept() || seq <= t.floors.delete_floor,
{
    let u = t.with_floors(t.evict_plan(now), t.expiry_plan(now));
    let n = u.reclaim_count();
    let e = u.floors.earliest(u.seq_base, u.head);
    let k = if e <= u.base {
        0
    } else if e - u.base < u.recs.len() {
        e - u.base
    } else {
        u.recs.len() as int
    };
    dead_run_within(u.recs, k);
    let i = seq - t.base;
    if i >= n {
        assert(u.recs.skip(n)[i - n] == t.recs[i]);
    } else if i >= k {
        assert(u.recs[i].deleted);
    }
}

/// Writing makes the new records readable under the sequence numbers that follow
/// the last slot, changes no other record, and keeps number and size in agreement
/// with the slots.
pub proof fn append_keeps(t: TopicView, records: Seq<StoredRecord>, now: i64)
    requires
        t.ok(),
        t.room(records.len(), bytes_in(records)),
        forall|i: int| 0 <= i < records.len() ==> (#[trigger] records[i]).ok(),
    ensures
        t.appended(records, now).ok(),
        t.appended(records, now).tail() == t.tail() + records.len(),
        records.len() > 0 ==> t.appended(records, now).head == t.tail() + records.len() - 1,
        forall|s: u64| t.has(s) ==> #[trigger] t.appended(records, now).has(s) && t.appended(
            records,
            now,
        ).rec(s) == t.rec(s),
        forall|i: int|
            0 <= i < records.len() ==> t.appended(records, now).rec(
                (t.tail() + i) as u64,
            ) == #[trigger] records[i],
        t.settled() && (forall|i: int|
            0 <= i < records.len() ==> !(#[trigger] records[i]).deleted) ==> t.appended(
            records,
            now,
        ).settled(),
{
    let u = t.appended(records, now);
    assert forall|i: int| 0 <= i < u.recs.len() implies (#[trigger] u.recs[i]).ok() by {
        if i < t.recs.len() {
            assert(u.recs[i] == t.recs[i]);
        } else {
            assert(u.recs[i] == records[i - t.recs.len()]);
        }
    }
    run_sums_add(t.recs, records);
    if forall|i: int| 0 <= i < records.len() ==> !(#[trigger] records[i]).deleted {
        all_live(records);
    }
    if records.len() == 0 {
        assert(t.recs + records =~= t.recs);
    }
}

/// A run without deleted records has as many live records as slots.
pub proof fn all_live(records: Seq<StoredRecord>)
    requires
        forall|i: int| 0 <= i < records.len() ==> !(#[trigger] records[i]).deleted,
    ensures
        live_in(records) == records.len(),
    decreases records.len(),
{
    if records.len() > 0 {
        let r = records.drop_last();
        assert forall|i: int| 0 <= i < r.len() implies !(#[trigger] r[i]).deleted by {
            assert(r[i] == records[i]);
        }
        all_live(r);
    }
}

/// A staged run has the sequence numbers that follow on the last slot, one for each
/// record, and its last is the head once it is published. The run of no records has
/// none.
pub proof fn staging_follows_on(t: TopicView, records: Seq<StoredRecord>)
    requires
        t.tail() + records.len() <= u64::MAX,
    ensures
        ({
            let s = t.staging(records);
            let seqs = run(s.start, s.count);
            &&& s.fits()
            &&& seqs.len() == records.len()
            &&& forall|i: int| 0 <= i < seqs.len() ==> #[trigger] seqs[i] == t.tail() + i
            &&& records.len() > 0 ==> s.top() == seqs.last()
            &&& records.len() == 0 ==> s.count == 0 && s.top() == 0
        }),
{
}

/// Taking back what was staged last undoes the staging: the topic is as it was, and
/// the next records get the same sequence numbers.
pub proof fn taking_back_undoes_staging(
    t: TopicView,
    records: Seq<StoredRecord>,
    next: Seq<StoredRecord>,
)
    requires
        t.recs.len() <= usize::MAX,
        records.len() <= u64::MAX,
    ensures
        t.staged(records).unstaged(t.staging(records)) == t,
        t.staged(records).unstaged(t.staging(records)).staging(next) == t.staging(next),
{
    assert((t.recs + records).take(t.recs.len() as int) =~= t.recs);
    assert(records.len() == 0 ==> t.recs + records =~= t.recs);
}

/// Staging changes nothing that can be read.
pub proof fn staging_is_invisible(t: TopicView, records: Seq<StoredRecord>)
    ensures
        t.staged(records).head == t.head,
        t.staged(records).earliest() == t.earliest(),
        t.staged(records).live == t.live,
        t.staged(records).bytes == t.bytes,
        forall|s: u64| t.has(s) ==> #[trigger] t.staged(records).has(s) && t.staged(records).rec(s)
            == t.rec(s),
{
}

/// A staged run that is taken back in place can never be read, and no record
/// outside the run changes.
pub proof fn rolled_back_run_is_unreadable(t: TopicView, staged: StagedAppend, seq: u64)
    requires
        t.ok(),
        staged.fits(),
        t.has(seq),
    ensures
        ({
            let recs = erase_set(
                t.base,
                t.recs,
                run(staged.start, staged.count).to_set(),
            );
            if staged.start <= seq < staged.start + staged.count {
                recs[seq - t.base].deleted
            } else {
                recs[seq - t.base] == t.rec(seq)
            }
        }),
{
    let r = crate::topic_state::run(staged.start, staged.count);
    assert((t.base + (seq - t.base)) as u64 == seq);
    if staged.start <= seq < staged.start + staged.count {
        assert(r[seq - staged.start] == seq);
        assert(r.contains(seq));
    } else {
        assert(!r.contains(seq));
    }
}

/// Deleting records keeps a topic sound, and number and size in agreement with
/// the slots.
pub proof fn without_keeps(t: TopicView, victims: Set<u64>)
    requires
        t.ok(),
    ensures
        t.without(victims).ok(),
        t.without(victims).tail() == t.tail(),
        t.without(victims).live <= t.live,
        t.without(victims).bytes <= t.bytes,
        t.settled() ==> t.without(victims).settled(),
{
    erase_shrinks(t.base, t.recs, victims);
    live_at_most_len(t.recs);
    let u = t.without(victims);
    assert forall|i: int| 0 <= i < u.recs.len() implies (#[trigger] u.recs[i]).ok() by {
        assert(t.recs[i].ok());
    }
}

/// A deletion keeps a topic sound, moves neither head nor tail, and makes neither
/// number nor size grow. Number and size go on to agree with the slots.
pub proof fn deletion_keeps(
    t: TopicView,
    before: Option<u64>,
    filter: Option<Filter>,
    bound_head: Option<u64>,
    now: i64,
)
    requires
        t.ok(),
    ensures
        ({
            let u = t.after_delete(before, filter, bound_head, now);
            &&& u.ok()
            &&& u.head == t.head
            &&& u.tail() == t.tail()
            &&& u.live <= t.live
            &&& u.bytes <= t.bytes
            &&& u.floors.covers(t.floors)
            &&& t.settled() ==> u.settled()
            &&& t.idle() ==> u.idle()
        }),
{
    retention_keeps(t, now);
    let r = t.retained(now);
    let bound = r.delete_bound(before, bound_head);
    without_keeps(r, r.victims(filter, bound));
    let u = r.without(r.victims(filter, bound));
    let v = u.with_delete_below(
        if filter is None && before is Some {
            bound
        } else {
            0
        },
    );
    reclaim_keeps(v);
}

/// The deletion of single records keeps a topic as a deletion does.
pub proof fn delete_seqs_keeps(t: TopicView, seqs: Set<u64>)
    requires
        t.ok(),
    ensures
        ({
            let u = t.after_delete_seqs(seqs);
            &&& u.ok()
            &&& u.head == t.head
            &&& u.tail() == t.tail()
            &&& u.live <= t.live
            &&& u.bytes <= t.bytes
            &&& u.floors == t.floors
            &&& t.settled() ==> u.settled()
            &&& t.idle() ==> u.idle()
        }),
{
    without_keeps(t, seqs);
    reclaim_keeps(t.without(seqs));
}

/// A deletion is silent: it never moves the boundary of involuntary loss, so a
/// reader is never told of a gap because of it.
pub proof fn deletion_is_silent(
    t: TopicView,
    before: Option<u64>,
    filter: Option<Filter>,
    bound_head: Option<u64>,
    now: i64,
)
    ensures
        t.after_delete(before, filter, bound_head, now).first_kept() == t.retained(
            now,
        ).first_kept(),
{
}

/// Dropping slots at the front drops no live record above every floor.
pub proof fn reclaim_spares(t: TopicView, seq: u64)
    requires
        t.ok(),
        t.has_live(seq),
        seq >= t.floors.earliest(t.seq_base, t.head),
    ensures
        t.reclaimed().has_live(seq),
        t.reclaimed().rec(seq) == t.rec(seq),
{
    let n = t.reclaim_count();
    let e = t.floors.earliest(t.seq_base, t.head);
    let k = if e <= t.base {
        0
    } else if e - t.base < t.recs.len() {
        e - t.base
    } else {
        t.recs.len() as int
    };
    dead_run_within(t.recs, k);
    let i = seq - t.base;
    if i < n {
        assert(t.recs[i].deleted);
    }
    assert(t.recs.skip(n)[i - n] == t.recs[i]);
}

/// A deletion is made for a point in time: a record at or above its bound, such
/// as one written after the request, stays as it is.
pub proof fn deletion_spares_later_records(
    t: TopicView,
    before: Option<u64>,
    filter: Option<Filter>,
    bound_head: Option<u64>,
    now: i64,
    seq: u64,
)
    requires
        t.ok(),
        t.retained(now).has_live(seq),
        seq >= t.retained(now).earliest(),
        seq >= t.retained(now).delete_bound(before, bound_head),
    ensures
        t.after_delete(before, filter, bound_head, now).has_live(seq),
        t.after_delete(before, filter, bound_head, now).rec(seq) == t.retained(now).rec(seq),
{
    retention_keeps(t, now);
    let r = t.retained(now);
    let bound = r.delete_bound(before, bound_head);
    let victims = r.victims(filter, bound);
    without_keeps(r, victims);
    let u = r.without(victims);
    assert(!victims.contains(seq));
    assert((r.base + (seq - r.base)) as u64 == seq);
    assert(u.rec(seq) == r.rec(seq));
    let v = u.with_delete_below(
        if filter is None && before is Some {
            bound
        } else {
            0
        },
    );
    reclaim_spares_floor(r, v, bound, seq);
    reclaim_spares(v, seq);
}

proof fn reclaim_spares_floor(r: TopicView, v: TopicView, bound: u64, seq: u64)
    requires
        v.floors.evict_floor == r.floors.evict_floor,
        v.floors.expiry_floor == r.floors.expiry_floor,
        v.floors.source_trim_floor == r.floors.source_trim_floor,
        v.seq_base == r.seq_base,
        v.head == r.head,
        v.floors.delete_floor == r.floors.delete_floor || v.floors.delete_floor
            <= crate::eviction::sat_sub(max64(r.delete_below, bound), 1),
        r.floors.delete_floor <= v.floors.delete_floor,
        v.delete_below == max64(r.delete_below, bound) || v.delete_below == r.delete_below,
        v.floors.delete_floor == max64(
            r.floors.delete_floor,
            crate::eviction::sat_sub(v.delete_below, 1),
        ),
        crate::eviction::sat_sub(r.delete_below, 1) <= r.floors.delete_floor,
        seq >= bound,
        seq >= r.earliest(),
    ensures
        seq >= v.floors.earliest(v.seq_base, v.head),
{
}

/// What a deletion selects is gone: after it, no live record below the bound
/// matches.
pub proof fn deletion_is_complete(
    t: TopicView,
    before: Option<u64>,
    filter: Option<Filter>,
    bound_head: Option<u64>,
    now: i64,
    seq: u64,
)
    requires
        t.ok(),
        t.retained(now).victims(filter, t.retained(now).delete_bound(before, bound_head)).contains(
            seq,
        ),
    ensures
        !t.after_delete(before, filter, bound_head, now).has_live(seq),
{
    retention_keeps(t, now);
    let r = t.retained(now);
    let bound = r.delete_bound(before, bound_head);
    let victims = r.victims(filter, bound);
    without_keeps(r, victims);
    let u = r.without(victims);
    if r.has(seq) {
        assert((r.base + (seq - r.base)) as u64 == seq);
        assert(u.rec(seq).deleted);
    }
    let v = u.with_delete_below(
        if filter is None && before is Some {
            bound
        } else {
            0
        },
    );
    if v.reclaimed().has_live(seq) {
        reclaim_revives_nothing(v, seq);
    }
}

/// Dropping slots at the front brings no record back.
pub proof fn reclaim_revives_nothing(t: TopicView, seq: u64)
    requires
        t.ok(),
        t.reclaimed().has_live(seq),
    ensures
        t.has_live(seq),
        t.reclaimed().rec(seq) == t.rec(seq),
{
    reclaim_keeps(t);
    let n = t.reclaim_count();
    assert(t.recs.skip(n)[seq - t.base - n] == t.recs[seq - t.base]);
}

/// What is gone stays gone: neither retention nor a further deletion nor a write
/// makes a sequence number readable again that was given out and is not live.
pub proof fn dead_stays_dead(
    t: TopicView,
    before: Option<u64>,
    filter: Option<Filter>,
    bound_head: Option<u64>,
    records: Seq<StoredRecord>,
    now: i64,
    seq: u64,
)
    requires
        t.ok(),
        seq < t.tail(),
        !t.has_live(seq),
    ensures
        !t.retained(now).has_live(seq),
        !t.after_delete(before, filter, bound_head, now).has_live(seq),
        !t.staged(records).has_live(seq),
        !t.appended(records, now).has_live(seq),
{
    retention_keeps(t, now);
    let r = t.retained(now);
    if r.has_live(seq) {
        if t.retention_due() {
            let u = t.with_floors(t.evict_plan(now), t.expiry_plan(now));
            reclaim_revives_nothing(u, seq);
        }
    }
    let bound = r.delete_bound(before, bound_head);
    let victims = r.victims(filter, bound);
    without_keeps(r, victims);
    let u = r.without(victims);
    let v = u.with_delete_below(
        if filter is None && before is Some {
            bound
        } else {
            0
        },
    );
    if v.reclaimed().has_live(seq) {
        reclaim_revives_nothing(v, seq);
        assert(u.recs[seq - r.base] == r.recs[seq - r.base] || u.recs[seq - r.base].deleted);
    }
    if t.has(seq) {
        assert((t.recs + records)[seq - t.base] == t.recs[seq - t.base]);
    }
}

/// No sequence number up to a reservation is given out again: after the head was
/// moved to it, the next slot lies beyond it, and no record changed.
pub proof fn reservation_is_never_given_out_again(t: TopicView, reserved: u64)
    requires
        t.ok(),
        reserved < u64::MAX,
    ensures
        t.padded(reserved).ok(),
        t.padded(reserved).tail() > reserved,
        t.padded(reserved).reserved >= reserved,
        t.padded(reserved).reserved >= t.reserved,
        forall|s: u64| t.has(s) ==> #[trigger] t.padded(reserved).has(s) && t.padded(reserved).rec(s)
            == t.rec(s),
        forall|s: u64| t.tail() <= s && #[trigger] t.padded(reserved).has(s) ==> t.padded(
            reserved,
        ).rec(s).deleted,
        t.settled() ==> t.padded(reserved).settled(),
{
    let u = t.padded(reserved);
    if reserved > t.head {
        let missing = (u.recs.len() - t.recs.len()) as nat;
        let holes = Seq::new(missing, |i: int| hole());
        assert(u.recs =~= t.recs + holes);
        run_sums_add(t.recs, holes);
        holes_are_empty(holes);
        assert forall|i: int| 0 <= i < u.recs.len() implies (#[trigger] u.recs[i]).ok() by {
            if i < t.recs.len() {
                assert(t.recs[i].ok());
            }
        }
    }
}

proof fn holes_are_empty(holes: Seq<StoredRecord>)
    requires
        forall|i: int| 0 <= i < holes.len() ==> #[trigger] holes[i] == hole(),
    ensures
        live_in(holes) == 0,
        bytes_in(holes) == 0,
    decreases holes.len(),
{
    if holes.len() > 0 {
        assert(holes.last() == hole());
        holes_are_empty(holes.drop_last());
    }
}

/// A topic that refuses writes when full, and has lost and deleted nothing, never
/// evicts: after an admitted write, retention by the caps drops no record.
pub proof fn reject_never_evicts(t: TopicView, records: Seq<StoredRecord>, now: i64)
    requires
        t.ok(),
        t.settled(),
        t.room(records.len(), bytes_in(records)),
        t.config.discard == Discard::Reject,
        t.config.ttl_ms == 0,
        forall|i: int| 0 <= i < t.recs.len() ==> !(#[trigger] t.recs[i]).deleted,
        forall|i: int|
            0 <= i < records.len() ==> (#[trigger] records[i]).ok() && !records[i].deleted,
        t.floors.gone() < t.base,
        t.seq_base <= t.base,
        records.len() > 0,
        admitted(
            t.config.discard,
            t.config.cap_records,
            t.config.cap_bytes,
            t.live,
            t.bytes,
            records.len() as u64,
            bytes_in(records) as u64,
        ),
    ensures
        t.appended(records, now).retained(now).recs == t.recs + records,
{
    all_live(t.recs);
    append_keeps(t, records, now);
    run_sums_add(t.recs, records);
    let u = t.appended(records, now);
    let w = u.with_floors(u.evict_plan(now), u.expiry_plan(now));
    if u.retention_due() {
        assert(w.floors.gone() < w.base);
        assert(w.floors.earliest(w.seq_base, w.head) <= w.base);
        assert(!w.recs[0].deleted) by {
            if t.recs.len() > 0 {
                assert(w.recs[0] == t.recs[0]);
            } else {
                assert(w.recs[0] == records[0]);
            }
        }
        assert(dead_run(w.recs, 0) == 0);
        assert(w.recs.skip(0) =~= w.recs);
    }
}

} // verus!
