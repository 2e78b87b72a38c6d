//! What segments, publishing and shared frames are for.
use crate::broadcast::{frame_in, outgoing, variant_bits, CachedFrame};
use crate::jobs::Fetched;
use crate::materialize::{dead_ids, mirrors, payload_from, SegmentRecord};
use crate::payload::{envelope, json_parts, opened};
use crate::publish::{chain, next_ticket, waits, PublishPermit, PublishPermitKind};
use crate::recovery::recoverable;
use crate::segwriter::{cached, fits_from, holds, last_of, outside, planned, reads_as, size_from,
    CachedPayload, OpenRecord, SealedSegment, SegmentWriter, Tier};
use crate::snapshot::{captures, restored, topic_survives_the_snapshot, SnapshotTopic};
use crate::topic_index::StoredRecord;
use crate::topic_state::TopicView;
use crate::types::{Durability, Json};
use vstd::prelude::*;

verus! {

/// A record goes into a segment as it is stored: its number, its time, its node, its tag, and
/// data and meta in one text.
pub proof fn a_record_goes_into_a_segment_as_stored(r: SegmentRecord, seq: u64, rec: StoredRecord)
    requires
        mirrors(r, seq, rec),
    ensures
        r.seq == seq,
        r.ts == rec.ts,
        r.node == rec.node,
        r.tag == rec.tag,
        rec.data is Some && rec.meta is None ==> r.blob@ == seq!['{', '"', 'd', '"', ':']
            + rec.data->0.text@ + seq!['}'],
        rec.data is Some && rec.meta is Some ==> r.blob@ == seq!['{', '"', 'd', '"', ':']
            + rec.data->0.text@ + seq![',', '"', 'm', '"', ':'] + rec.meta->0.text@ + seq!['}'],
{
    if rec.data is Some && rec.meta is None {
        assert(r.blob@ =~= seq!['{', '"', 'd', '"', ':'] + rec.data->0.text@ + seq!['}']);
    }
    if rec.data is Some && rec.meta is Some {
        assert(r.blob@ =~= seq!['{', '"', 'd', '"', ':'] + rec.data->0.text@ + seq![
            ',',
            '"',
            'm',
            '"',
            ':',
        ] + rec.meta->0.text@ + seq!['}']);
    }
}

/// A record whose payload has left memory is still there, and is all it was but for the
/// payload; no other record changes.
pub proof fn a_payload_leaves_memory_alone(t: TopicView, seqs: Set<u64>, seq: u64)
    requires
        t.ok(),
        t.has(seq),
    ensures
        ({
            let (a, b) = (t.rec(seq), t.released(seqs).rec(seq));
            let leaves = seqs.contains(seq) && !a.deleted && a.payload_resident;
            &&& leaves ==> b.data is None && b.meta is None && !b.payload_resident
            &&& !leaves ==> b == a
            &&& b.deleted == a.deleted
            &&& b.ts == a.ts
            &&& b.node == a.node
            &&& b.tag == a.tag
            &&& b.bytes == a.bytes
        }),
        t.released(seqs) == (TopicView { recs: t.released(seqs).recs, ..t }),
{
    assert((t.base + (seq - t.base)) as u64 == seq);
}

/// The payload of a record is the one in memory, as long as it is there, and else what its
/// segment gave.
pub proof fn where_a_payload_comes_from(rec: StoredRecord, sealed: Option<(Json, Option<Json>)>)
    ensures
        rec.payload_resident ==> payload_from(rec, sealed) == (rec.data, rec.meta),
        !rec.payload_resident && sealed is Some ==> payload_from(rec, sealed) == (
            Some(sealed->Some_0.0),
            sealed->Some_0.1,
        ),
        !rec.payload_resident && sealed is None ==> payload_from(rec, sealed) == (
            rec.data,
            rec.meta,
        ),
{
}

/// A segment can go exactly where it lies before the first record that can be read, or every
/// record of it was deleted or has no slot any more.
pub proof fn when_a_segment_can_go(t: TopicView, s: SealedSegment)
    ensures
        t.is_dead_segment(s) <==> s.end_seq < t.earliest() || forall|x: u64|
            s.start_seq <= x <= s.end_seq ==> x < t.delete_below || x < t.base || (#[trigger] t.has(
                x,
            ) && t.rec(x).deleted),
{
    if t.is_dead_segment(s) && s.end_seq >= t.earliest() {
        assert forall|x: u64| s.start_seq <= x <= s.end_seq implies x < t.delete_below || x
            < t.base || (#[trigger] t.has(x) && t.rec(x).deleted) by {
            assert(t.is_gone(x));
        }
    }
    if forall|x: u64|
        s.start_seq <= x <= s.end_seq ==> x < t.delete_below || x < t.base || (#[trigger] t.has(x)
            && t.rec(x).deleted) {
        assert forall|x: u64| s.start_seq <= x <= s.end_seq implies #[trigger] t.is_gone(x) by {
            let _ = t.has(x);
        }
    }
}

/// The segments that can go are named, in order, and no others.
pub proof fn which_segments_can_go(t: TopicView, sealed: Seq<SealedSegment>, s: SealedSegment)
    ensures
        dead_ids(t, Seq::<SealedSegment>::empty()).len() == 0,
        t.is_dead_segment(s) ==> dead_ids(t, sealed.push(s)) == dead_ids(t, sealed).push(
            s.start_seq,
        ),
        !t.is_dead_segment(s) ==> dead_ids(t, sealed.push(s)) == dead_ids(t, sealed),
{
    assert(sealed.push(s).drop_last() =~= sealed);
}

/// The open segment is due once it holds as many records or bytes as it may, or is as old as
/// it may be; a limit of nothing on bytes or age is none.
pub proof fn when_a_segment_is_due(w: SegmentWriter, now: i64)
    ensures
        w.active is None ==> !w.is_due(now) && !w.aged(now),
        w.active is Some ==> {
            let a = w.active->0;
            let old = w.cfg.max_age_ms > 0 && now - a.started_ms >= w.cfg.max_age_ms;
            &&& w.aged(now) <==> old
            &&& w.is_due(now) <==> a.records@.len() >= w.cfg.max_events || (w.cfg.max_bytes > 0
                && a.data_len >= w.cfg.max_bytes) || old
        },
{
}

/// A segment holds the sequence numbers from its first to its last.
pub proof fn what_a_segment_holds(s: SealedSegment, seq: u64)
    ensures
        holds(s, seq) <==> s.start_seq <= seq && seq <= s.end_seq,
{
}

proof fn fits_from_is(s: Seq<SealedSegment>, i: int, bytes: u64)
    requires
        0 <= i <= s.len(),
    ensures
        0 <= fits_from(s, i, bytes) <= i,
        fits_from(s, i, bytes) < i ==> size_from(s, fits_from(s, i, bytes)) <= bytes,
        fits_from(s, i, bytes) > 0 ==> size_from(s, fits_from(s, i, bytes) - 1) > bytes,
    decreases i,
{
    if i > 0 && size_from(s, i - 1) <= bytes {
        fits_from_is(s, i - 1, bytes);
    }
}

/// The newest segments stay in the hot tier: no more than so many, and, where there is a
/// limit on their size, no more than fit into it; and as many as both allow.
pub proof fn which_segments_stay_hot(w: SegmentWriter)
    ensures
        ({
            let n = w.sealed@.len() as int;
            let k = w.keep_from();
            &&& 0 <= k <= n
            &&& n - k <= w.cfg.hot_retain_segments
            &&& w.cfg.hot_retain_bytes > 0 && k < n ==> size_from(w.sealed@, k)
                <= w.cfg.hot_retain_bytes
            &&& k > 0 ==> n - k == w.cfg.hot_retain_segments || (w.cfg.hot_retain_bytes > 0
                && size_from(w.sealed@, k - 1) > w.cfg.hot_retain_bytes)
        }),
{
    let n = w.sealed@.len() as int;
    fits_from_is(w.sealed@, n, w.cfg.hot_retain_bytes);
    sizes_fall(w.sealed@, fits_from(w.sealed@, n, w.cfg.hot_retain_bytes), w.keep_from());
}

proof fn sizes_fall(s: Seq<SealedSegment>, i: int, j: int)
    requires
        0 <= i,
    ensures
        i <= j <= s.len() ==> size_from(s, j) <= size_from(s, i),
    decreases j - i,
{
    if i < j && j <= s.len() {
        sizes_fall(s, i + 1, j);
    }
}

/// The size of the segments from one on is its own and that of those behind it.
pub proof fn sizes_of_segments_add_up(s: Seq<SealedSegment>, i: int)
    requires
        0 <= i < s.len(),
        size_from(s, i + 1) + s[i].data_len <= u64::MAX,
    ensures
        size_from(s, s.len() as int) == 0,
        size_from(s, i) == size_from(s, i + 1) + s[i].data_len,
{
}

/// Of the first segments, those that are hot are planned to move, in order, with their size.
pub proof fn which_segments_are_to_move(s: Seq<SealedSegment>, n: int)
    requires
        0 <= n < s.len(),
    ensures
        planned(s, 0).len() == 0,
        s[n].tier == Tier::Hot ==> planned(s, n + 1) == planned(s, n).push(
            (s[n].start_seq, s[n].data_len),
        ),
        s[n].tier == Tier::Cold ==> planned(s, n + 1) == planned(s, n),
{
}

/// A cache gives what came last for a number, and keeps the newest.
pub proof fn what_a_cache_gives(s: Seq<CachedPayload>, c: CachedPayload, seq: u64)
    ensures
        cached(Seq::<CachedPayload>::empty(), seq) is None,
        c.seq == seq ==> cached(s.push(c), seq) == Some(c),
        c.seq != seq ==> cached(s.push(c), seq) == cached(s, seq),
{
    assert(s.push(c).drop_last() =~= s);
}

/// A cache that is too long loses its oldest entries alone.
pub proof fn a_cache_keeps_the_newest(s: Seq<CachedPayload>, n: nat)
    ensures
        s.len() <= n ==> last_of(s, n) == s,
        s.len() > n ==> last_of(s, n).len() == n && forall|i: int|
            0 <= i < n ==> #[trigger] last_of(s, n)[i] == s[s.len() - n + i],
{
}

/// What is kept at hand of a sealed record is its payload: data and meta as they went into
/// the segment, where they can be read back.
pub proof fn what_is_kept_of_a_sealed_record(
    c: CachedPayload,
    r: OpenRecord,
    d: Seq<char>,
    m: Option<Seq<char>>,
)
    requires
        reads_as(c, r),
        r.blob@ == envelope(d, m),
        recoverable(d, m),
    ensures
        c.seq == r.seq,
        json_parts(c.data) == opened(r.blob@).0,
        json_parts(c.meta) == opened(r.blob@).1,
{
}

/// A permit lets a head go up: on a topic of the disk class only up to what is reserved, on
/// one that waits for the disk only with what has reached it, and on any other, or for what
/// needs no log, always.
pub proof fn what_a_permit_lets_through(p: PublishPermit, class: Durability, head: u64, reserved: u64)
    ensures
        match p.kind {
            PublishPermitKind::WalCommitted { fsynced } => p.entitles(class, head, reserved) <==> (
            match class {
                Durability::Disk => head <= reserved,
                Durability::Fsync => fsynced,
                Durability::Memory => true,
            }),
            _ => p.entitles(class, head, reserved),
        },
{
}

/// Tickets follow one another.
pub proof fn tickets_follow_one_another(t: u64)
    ensures
        t < u64::MAX ==> next_ticket(t) == t + 1,
        next_ticket(u64::MAX) == 0,
{
}

/// A ring loses a record only where it holds 1024 and gets a new one, and then its lowest,
/// the new one among them.
pub proof fn which_record_a_ring_loses(ring: Seq<CachedFrame>, seq: u64)
    requires
        ring.len() <= 1024,
        forall|i: int, j: int|
            0 <= i < j < ring.len() ==> (#[trigger] ring[i]).seq < (#[trigger] ring[j]).seq,
    ensures
        ring.len() < 1024 ==> outgoing(ring, seq) is None,
        (exists|i: int| 0 <= i < ring.len() && (#[trigger] ring[i]).seq == seq) ==> outgoing(
            ring,
            seq,
        ) is None,
        ring.len() == 1024 && (forall|i: int| 0 <= i < ring.len() ==> (#[trigger] ring[i]).seq
            != seq) ==> {
            let x = outgoing(ring, seq);
            &&& x is Some
            &&& x->0 <= seq
            &&& forall|i: int| 0 <= i < ring.len() ==> x->0 <= (#[trigger] ring[i]).seq
            &&& x->0 == seq || x->0 == ring[0].seq
        },
{
    assert forall|i: int| 0 < i < ring.len() implies ring[0].seq < (#[trigger] ring[i]).seq by {}
}

/// Each choice of parts is a variant of its own, among eight.
pub proof fn each_choice_is_a_variant(data: bool, tags: bool, meta: bool)
    ensures
        variant_bits(data, tags, meta) < 8,
        variant_bits(data, tags, meta) % 2 == (if data {
            1int
        } else {
            0
        }),
        (variant_bits(data, tags, meta) / 2) % 2 == (if tags {
            1int
        } else {
            0
        }),
        variant_bits(data, tags, meta) / 4 == (if meta {
            1int
        } else {
            0
        }),
{
}

/// What is dropped from a cache is what lies in the range, and nothing else.
pub proof fn what_is_dropped_from_a_cache(
    s: Seq<CachedPayload>,
    c: CachedPayload,
    start: u64,
    end: u64,
)
    ensures
        start <= c.seq <= end ==> outside(s.push(c), start, end) == outside(s, start, end),
        !(start <= c.seq <= end) ==> outside(s.push(c), start, end) == outside(
            s,
            start,
            end,
        ).push(c),
{
    reveal(Seq::filter);
    assert(s.push(c).drop_last() =~= s);
}

/// A snapshot of a topic brings back what can be read of it: the number, the time, the node,
/// the tag and the payload of each record, and the head, the floors and the settings; of a
/// topic that lives in memory alone, the head and the settings.
pub proof fn what_a_snapshot_brings_back(
    s: SnapshotTopic,
    t: TopicView,
    fetched: Seq<Fetched>,
    seq: u64,
)
    requires
        t.ok(),
        captures(s, t, fetched),
    ensures
        restored(s).name == t.name,
        restored(s).topic_id == t.topic_id,
        restored(s).config == t.config,
        restored(s).head == t.head,
        restored(s).reserved >= t.head,
        t.config.class() == Durability::Memory ==> !restored(s).has_live(seq) && restored(s).live
            == 0 && restored(s).bytes == 0,
        t.config.class() != Durability::Memory ==> {
            let u = restored(s);
            &&& u.floors.evict_floor == t.floors.evict_floor
            &&& u.floors.expiry_floor == t.floors.expiry_floor
            &&& u.floors.delete_floor == t.floors.delete_floor
            &&& u.live == t.live
            &&& u.bytes == t.bytes
            &&& u.has_live(seq) <==> t.has_live(seq) && seq <= t.head
            &&& u.has_live(seq) ==> {
                &&& u.rec(seq).ts == t.rec(seq).ts
                &&& u.rec(seq).node == t.rec(seq).node
                &&& u.rec(seq).tag == t.rec(seq).tag
                &&& u.rec(seq).bytes == t.rec(seq).bytes
                &&& t.rec(seq).payload_resident ==> u.rec(seq).data == t.rec(seq).data
                    && u.rec(seq).meta == t.rec(seq).meta
            }
        },
{
    topic_survives_the_snapshot(s, t, fetched);
}

/// A number waits where a run that waits reaches from before it, or it, to behind it, or it.
pub proof fn which_numbers_wait(pending: Map<u64, u64>, s: u64, n: int)
    requires
        pending.contains_key(s),
        s <= pending[s],
    ensures
        waits(pending, s as int),
        waits(pending, pending[s] as int),
        s <= n <= pending[s] ==> waits(pending, n),
        waits(pending, n) ==> exists|x: u64| #[trigger]
            pending.contains_key(x) && x <= n && n <= pending[x],
{
}

/// Runs that are written one after the other leave nothing out and repeat nothing: together
/// they hold each number from the first on once.
pub proof fn runs_follow_one_another(runs: Seq<(u64, u64)>, from: u64, to: u64)
    requires
        chain(runs, from, to),
    ensures
        from <= to,
        runs.len() == 0 <==> from == to,
        runs.len() > 0 ==> runs[0].0 == from && runs.last().1 + 1 == to,
        forall|i: int| 0 <= i < runs.len() ==> (#[trigger] runs[i]).0 <= runs[i].1,
        forall|i: int, j: int| 0 <= i && j == i + 1 && j < runs.len() ==> (#[trigger] runs[i]).1 + 1
            == (#[trigger] runs[j]).0,
    decreases runs.len(),
{
    if runs.len() > 0 {
        let rest = runs.drop_last();
        runs_follow_one_another(rest, from, runs.last().0);
        assert forall|i: int| 0 <= i < runs.len() implies (#[trigger] runs[i]).0 <= runs[i].1 by {
            if i < rest.len() {
                assert(rest[i] == runs[i]);
            }
        }
        assert forall|i: int, j: int| 0 <= i && j == i + 1 && j < runs.len() implies (
        #[trigger] runs[i]).1 + 1 == (#[trigger] runs[j]).0 by {
            assert(rest[i] == runs[i]);
            if j < rest.len() {
                assert(rest[j] == runs[j]);
            } else {
                assert(rest.last() == runs[i]);
            }
        }
        if rest.len() > 0 {
            assert(rest[0] == runs[0]);
        }
    }
}

/// A ring gives back the frame of the record asked for in the variant asked for, and nothing
/// where it does not hold the record.
pub proof fn what_a_ring_gives(ring: Seq<CachedFrame>, seq: u64, v: int, i: int)
    requires
        forall|i: int, j: int|
            0 <= i < j < ring.len() ==> (#[trigger] ring[i]).seq < (#[trigger] ring[j]).seq,
    ensures
        0 <= i < ring.len() && ring[i].seq == seq ==> frame_in(ring, seq, v)
            == ring[i].variants@[v],
        (forall|k: int| 0 <= k < ring.len() ==> (#[trigger] ring[k]).seq != seq) ==> frame_in(
            ring,
            seq,
            v,
        ) is None,
{
    if 0 <= i < ring.len() && ring[i].seq == seq {
        let k = choose|k: int| 0 <= k < ring.len() && (#[trigger] ring[k]).seq == seq;
        if k < i {
            assert(ring[k].seq < ring[i].seq);
        } else if i < k {
            assert(ring[i].seq < ring[k].seq);
        }
    }
}

/// A record without data goes into a segment with `null` for it.
pub proof fn what_is_not_there_is_null(r: SegmentRecord, seq: u64, rec: StoredRecord)
    requires
        mirrors(r, seq, rec),
        rec.data is None,
        rec.meta is None,
    ensures
        r.blob@ == seq!['{', '"', 'd', '"', ':', 'n', 'u', 'l', 'l', '}'],
{
    assert(r.blob@ =~= seq!['{', '"', 'd', '"', ':', 'n', 'u', 'l', 'l', '}']);
}

} // verus!
