//! From a topic's slots to its segments, and back.
use crate::payload::{encode_record_payload, envelope, meta_text};
use crate::segwriter::SealedSegment;
use crate::topic_index::StoredRecord;
use crate::topic_state::{TopicState, TopicView};
use crate::types::{copy_json, copy_text, Json};
use vstd::prelude::*;

verus! {

/// The text that goes into a segment for a record: the envelope of its payload,
/// with `null` for data that is not there.
pub open spec fn segment_text(rec: StoredRecord) -> Seq<char> {
    envelope(
        match rec.data {
            Some(d) => d.text@,
            None => seq!['n', 'u', 'l', 'l'],
        },
        meta_text(rec.meta),
    )
}

/// Writes the text that goes into a segment for a record.
pub fn segment_blob(rec: &StoredRecord) -> (r: String)
    ensures
        r@ == segment_text(*rec),
{
    match &rec.data {
        Some(d) => encode_record_payload(d, &rec.meta),
        None => encode_record_payload(&Json::null(), &rec.meta),
    }
}

impl TopicView {
    /// The topic with payloads out of memory.
    pub open spec fn released(self, seqs: Set<u64>) -> TopicView {
        TopicView {
            recs: Seq::new(
                self.recs.len(),
                |i: int|
                    if seqs.contains((self.base + i) as u64) && !self.recs[i].deleted
                        && self.recs[i].payload_resident {
                        self.recs[i].released()
                    } else {
                        self.recs[i]
                    },
            ),
            ..self
        }
    }

    /// Nothing of a segment can be read any more: it lies before the first record
    /// that can be, or every record of it is gone.
    pub open spec fn is_dead_segment(self, s: SealedSegment) -> bool {
        s.end_seq < self.earliest() || forall|x: u64|
            s.start_seq <= x <= s.end_seq ==> #[trigger] self.is_gone(x)
    }

    /// No read can return `seq` any more.
    pub open spec fn is_gone(self, seq: u64) -> bool {
        ||| seq < self.delete_below
        ||| seq < self.base
        ||| self.has(seq) && self.rec(seq).deleted
    }
}

/// A record as it goes into a segment.
#[derive(Debug)]
pub struct SegmentRecord {
    pub seq: u64,
    pub ts: i64,
    pub node: Option<String>,
    pub tag: Option<String>,
    pub blob: String,
}

/// A slot as it goes into a segment.
pub open spec fn mirrors(r: SegmentRecord, seq: u64, rec: StoredRecord) -> bool {
    &&& r.seq == seq
    &&& r.ts == rec.ts
    &&& r.node == rec.node
    &&& r.tag == rec.tag
    &&& r.blob@ == segment_text(rec)
}

/// The payload of a record: what a segment gave where it has left memory, else what
/// the record holds.
pub open spec fn payload_from(rec: StoredRecord, sealed: Option<(Json, Option<Json>)>) -> (
    Option<Json>,
    Option<Json>,
) {
    if rec.payload_resident || sealed is None {
        (rec.data, rec.meta)
    } else {
        (Some(sealed->Some_0.0), sealed->Some_0.1)
    }
}

/// Picks the payload of a record, given what a segment gave for it.
pub fn resolve_payload(rec: &StoredRecord, sealed: Option<(Json, Option<Json>)>) -> (r: (
    Option<Json>,
    Option<Json>,
))
    ensures
        r == payload_from(*rec, sealed),
{
    if rec.payload_resident {
        return (copy_json(&rec.data), copy_json(&rec.meta));
    }
    match sealed {
        Some(p) => (Some(p.0), p.1),
        None => (copy_json(&rec.data), copy_json(&rec.meta)),
    }
}

impl TopicState {
    /// The slots of a run as they go into a segment, in order and without a gap.
    pub fn segment_run(&self, start: u64, end: u64) -> (r: Vec<SegmentRecord>)
        requires
            self.wf(),
            self@.base <= start,
            end < self@.tail(),
        ensures
            r@.len() == if start <= end {
                end - start + 1
            } else {
                0
            },
            forall|i: int|
                0 <= i < r@.len() ==> mirrors(
                    #[trigger] r@[i],
                    (start + i) as u64,
                    self@.rec((start + i) as u64),
                ),
    {
        let mut out: Vec<SegmentRecord> = Vec::new();
        let mut seq: u64 = start;
        while seq <= end
            invariant
                self.wf(),
                start <= seq,
                start <= end ==> seq <= end + 1,
                start > end ==> seq == start,
                self@.base <= start,
                end < self@.tail(),
                end < u64::MAX,
                out@.len() == seq - start,
                forall|i: int|
                    0 <= i < out@.len() ==> mirrors(
                        #[trigger] out@[i],
                        (start + i) as u64,
                        self@.rec((start + i) as u64),
                    ),
            decreases end + 1 - seq,
        {
            match self.index.get(seq) {
                Some(rec) => {
                    out.push(
                        SegmentRecord {
                            seq,
                            ts: rec.ts,
                            node: copy_text(&rec.node),
                            tag: copy_text(&rec.tag),
                            blob: segment_blob(rec),
                        },
                    );
                },
                None => {},
            }
            seq += 1;
        }
        out
    }

    /// Lets the payloads of sealed records go from memory.
    pub fn free_sealed(&mut self, seqs: &Vec<u64>)
        requires
            old(self).wf(),
        ensures
            final(self).wf(),
            final(self)@ == old(self)@.released(seqs@.to_set()),
    {
        let ghost t = self@;
        let mut i: usize = 0;
        proof {
            assert(seqs@.take(0).to_set() =~= Set::<u64>::empty());
            assert(t.released(Set::empty()).recs =~= t.recs);
        }
        while i < seqs.len()
            invariant
                self.wf(),
                t.ok(),
                i <= seqs@.len(),
                self@ == t.released(seqs@.take(i as int).to_set()),
            decreases seqs@.len() - i,
        {
            let seq: u64 = seqs[i];
            let ghost a = seqs@.take(i as int);
            let ghost b = seqs@.take(i + 1);
            let ghost before = self@;
            self.index.release_payload(seq);
            proof {
                assert(b =~= a.push(seq));
                assert forall|x: u64| b.contains(x) <==> a.contains(x) || x == seq by {
                    if a.contains(x) {
                        let m = choose|m: int| 0 <= m < a.len() && a[m] == x;
                        assert(b[m] == x);
                    }
                    assert(b[i as int] == seq);
                }
                let u = t.released(b.to_set());
                assert forall|k: int| 0 <= k < t.recs.len() implies self@.recs[k] == u.recs[k] by {
                    let s = (t.base + k) as u64;
                    assert(b.to_set().contains(s) <==> a.to_set().contains(s) || s == seq);
                    if s != seq {
                        assert(self@.recs[k] == before.recs[k]);
                    }
                }
                assert(self@.recs =~= u.recs);
                assert forall|k: int| 0 <= k < self@.recs.len() implies (
                #[trigger] self@.recs[k]).ok() by {
                    assert(t.recs[k].ok());
                }
            }
            i += 1;
        }
        assert(seqs@.take(i as int) =~= seqs@);
    }

    /// The segments of which nothing can be read any more, in order.
    pub fn dead_segments(&self, sealed: &Vec<SealedSegment>) -> (r: Vec<u64>)
        requires
            self.wf(),
        ensures
            r@ == dead_ids(self@, sealed@),
    {
        let earliest: u64 = self.earliest_seq();
        let mut out: Vec<u64> = Vec::new();
        let mut i: usize = 0;
        assert(sealed@.take(0) =~= Seq::<SealedSegment>::empty());
        while i < sealed.len()
            invariant
                self.wf(),
                earliest == self@.earliest(),
                i <= sealed@.len(),
                out@ == dead_ids(self@, sealed@.take(i as int)),
            decreases sealed@.len() - i,
        {
            let s = sealed[i];
            proof {
                assert(sealed@.take(i + 1).drop_last() =~= sealed@.take(i as int));
                assert(sealed@.take(i + 1).last() == s);
                assert forall|x: u64| #[trigger] self.index.dead(x) == self@.is_gone(x) by {}
            }
            if s.end_seq < earliest || self.index.range_all_dead(s.start_seq, s.end_seq) {
                proof {
                    assert(self@.is_dead_segment(s)) by {
                        if s.end_seq >= earliest {
                            assert forall|x: u64| s.start_seq <= x <= s.end_seq implies
                                #[trigger] self@.is_gone(x) by {
                                assert(self.index.dead(x));
                            }
                        }
                    }
                }
                out.push(s.start_seq);
            } else {
                proof {
                    assert(!self@.is_dead_segment(s)) by {
                        let x = choose|x: u64|
                            s.start_seq <= x <= s.end_seq && !#[trigger] self.index.dead(x);
                        assert(!self@.is_gone(x));
                    }
                }
            }
            i += 1;
        }
        assert(sealed@.take(i as int) =~= sealed@);
        out
    }
}

/// The segments of a list of which nothing can be read any more.
pub open spec fn dead_ids(t: TopicView, sealed: Seq<SealedSegment>) -> Seq<u64>
    decreases sealed.len(),
{
    if sealed.len() == 0 {
        Seq::empty()
    } else if t.is_dead_segment(sealed.last()) {
        dead_ids(t, sealed.drop_last()).push(sealed.last().start_seq)
    } else {
        dead_ids(t, sealed.drop_last())
    }
}

/// A segment that holds a record a reader can get is never dead.
pub proof fn live_segment_is_kept(t: TopicView, s: SealedSegment, seq: u64)
    requires
        t.ok(),
        s.start_seq <= seq <= s.end_seq,
        t.has_live(seq),
        t.earliest() <= seq,
        t.delete_below <= seq,
    ensures
        !t.is_dead_segment(s),
{
    assert(!t.is_gone(seq));
}

/// Letting payloads go changes neither which records are live nor their number and
/// size.
pub proof fn release_keeps_records(t: TopicView, seqs: Set<u64>, seq: u64)
    requires
        t.ok(),
    ensures
        t.released(seqs).has_live(seq) == t.has_live(seq),
        t.released(seqs).live == t.live,
        t.released(seqs).bytes == t.bytes,
        t.released(seqs).earliest() == t.earliest(),
        t.has(seq) ==> t.released(seqs).rec(seq).bytes == t.rec(seq).bytes && t.released(
            seqs,
        ).rec(seq).tag == t.rec(seq).tag && t.released(seqs).rec(seq).ts == t.rec(seq).ts,
{
}

} // verus!
