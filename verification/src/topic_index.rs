//! The record slots of a topic: a run of consecutive sequence numbers, each with
//! a record or a hole.
use crate::seqs::rising;
use crate::tag_index::{selected, TagIndex};
use crate::types::{copy_json, copy_text, text_of, Filter, Json};
use vstd::prelude::*;

verus! {

/// A record as a topic holds it. `data` is absent where the payload is not held
/// in memory: the record was deleted, or its payload lives in a sealed segment.
#[derive(Debug)]
pub struct StoredRecord {
    pub ts: i64,
    pub node: Option<String>,
    pub tag: Option<String>,
    pub data: Option<Json>,
    pub meta: Option<Json>,
    pub bytes: u64,
    pub deleted: bool,
    pub payload_resident: bool,
    pub hops: u8,
}

/// A slot that holds no record.
pub open spec fn hole() -> StoredRecord {
    StoredRecord {
        ts: 0,
        node: None,
        tag: None,
        data: None,
        meta: None,
        bytes: 0,
        deleted: true,
        payload_resident: true,
        hops: 0,
    }
}

/// A slot that holds no record.
pub fn deleted_hole() -> (r: StoredRecord)
    ensures
        r == hole(),
{
    StoredRecord {
        ts: 0,
        node: None,
        tag: None,
        data: None,
        meta: None,
        bytes: 0,
        deleted: true,
        payload_resident: true,
        hops: 0,
    }
}

impl StoredRecord {
    /// What is left of a record once it is deleted.
    pub open spec fn erased(self) -> StoredRecord {
        StoredRecord { tag: None, data: None, meta: None, bytes: 0, deleted: true, ..self }
    }

    /// What is left of a record in memory once its payload lives elsewhere.
    pub open spec fn released(self) -> StoredRecord {
        StoredRecord { data: None, meta: None, payload_resident: false, ..self }
    }

    /// A deleted record keeps neither a tag nor a size.
    pub open spec fn ok(self) -> bool {
        self.deleted ==> self.tag is None && self.bytes == 0
    }

    /// An equal record.
    pub fn copy(&self) -> (r: StoredRecord)
        ensures
            r == *self,
    {
        StoredRecord {
            ts: self.ts,
            node: copy_text(&self.node),
            tag: copy_text(&self.tag),
            data: copy_json(&self.data),
            meta: copy_json(&self.meta),
            bytes: self.bytes,
            deleted: self.deleted,
            payload_resident: self.payload_resident,
            hops: self.hops,
        }
    }
}

/// How many records of a run are not deleted.
pub open spec fn live_in(recs: Seq<StoredRecord>) -> nat
    decreases recs.len(),
{
    if recs.len() == 0 {
        0
    } else {
        live_in(recs.drop_last()) + if recs.last().deleted {
            0nat
        } else {
            1
        }
    }
}

/// The size of a run of records.
pub open spec fn bytes_in(recs: Seq<StoredRecord>) -> nat
    decreases recs.len(),
{
    if recs.len() == 0 {
        0
    } else {
        bytes_in(recs.drop_last()) + recs.last().bytes as nat
    }
}

/// Count and size of two runs are those of their concatenation.
pub proof fn run_sums_add(a: Seq<StoredRecord>, b: Seq<StoredRecord>)
    ensures
        live_in(a + b) == live_in(a) + live_in(b),
        bytes_in(a + b) == bytes_in(a) + bytes_in(b),
    decreases b.len(),
{
    if b.len() == 0 {
        assert(a + b =~= a);
    } else {
        run_sums_add(a, b.drop_last());
        assert((a + b).drop_last() =~= a + b.drop_last());
        assert((a + b).last() == b.last());
    }
}

/// A run holds no more live records than slots.
pub proof fn live_at_most_len(a: Seq<StoredRecord>)
    ensures
        live_in(a) <= a.len(),
    decreases a.len(),
{
    if a.len() > 0 {
        live_at_most_len(a.drop_last());
    }
}

/// Deleting one record takes one from the count and its size from the size.
pub proof fn erase_sums(a: Seq<StoredRecord>, i: int)
    requires
        0 <= i < a.len(),
        !a[i].deleted,
    ensures
        live_in(a.update(i, a[i].erased())) == live_in(a) - 1,
        bytes_in(a.update(i, a[i].erased())) == bytes_in(a) - a[i].bytes,
        live_in(a) >= 1,
        bytes_in(a) >= a[i].bytes,
    decreases a.len(),
{
    let b = a.update(i, a[i].erased());
    if i == a.len() - 1 {
        assert(b.drop_last() =~= a.drop_last());
    } else {
        erase_sums(a.drop_last(), i);
        assert(b.drop_last() =~= a.drop_last().update(i, a[i].erased()));
    }
}

/// The pairs of tag and sequence number of the records from slot `from` on.
pub open spec fn tag_pairs(base: u64, recs: Seq<StoredRecord>, from: int) -> Set<(Seq<char>, u64)> {
    Set::new(
        |p: (Seq<char>, u64)|
            base + from <= p.1 < base + recs.len() && text_of(recs[p.1 - base].tag) == Some(p.0),
    )
}

/// The sequence numbers below `bound` whose tag the filter selects.
pub open spec fn matching(
    base: u64,
    recs: Seq<StoredRecord>,
    filter: Filter,
    bound: u64,
) -> Set<u64> {
    Set::new(
        |s: u64|
            base <= s < base + recs.len() && s < bound && match recs[s - base].tag {
                Some(t) => filter.selects(t@),
                None => false,
            },
    )
}

/// The slots of a topic, from `base_seq` on.
#[derive(Debug)]
pub struct TopicIndex {
    pub base_seq: u64,
    pub records: Vec<StoredRecord>,
    pub tag_index: TagIndex,
    pub delete_below: u64,
}

/// The slots of a topic, under the name the box API uses.
pub type BoxIndex = TopicIndex;

impl TopicIndex {
    /// The slots fit the sequence space, deleted records are erased, and the tag
    /// index lists exactly the tags of the slots.
    pub open spec fn wf(&self) -> bool {
        &&& self.base_seq + self.records@.len() <= u64::MAX
        &&& self.tag_index.wf()
        &&& self.tag_index@ == tag_pairs(self.base_seq, self.records@, 0)
        &&& forall|i: int| 0 <= i < self.records@.len() ==> (#[trigger] self.records@[i]).ok()
    }

    /// The first sequence number without a slot.
    pub open spec fn tail(&self) -> int {
        self.base_seq + self.records@.len()
    }

    /// There is a slot for `seq`.
    pub open spec fn has(&self, seq: u64) -> bool {
        self.base_seq <= seq < self.base_seq + self.records@.len()
    }

    /// The record in the slot for `seq`.
    pub open spec fn rec(&self, seq: u64) -> StoredRecord {
        self.records@[seq - self.base_seq]
    }

    /// The sequence numbers of the live records.
    pub open spec fn live_set(&self) -> Set<u64> {
        Set::new(|s: u64| self.has(s) && !self.rec(s).deleted)
    }

    /// No read can return `seq` any more.
    pub open spec fn dead(&self, seq: u64) -> bool {
        ||| seq < self.delete_below
        ||| seq < self.base_seq
        ||| self.has(seq) && self.rec(seq).deleted
    }

    /// The slots of a fresh topic.
    pub fn new(base_seq: u64) -> (r: TopicIndex)
        ensures
            r.wf(),
            r.base_seq == base_seq,
            r.records@ == Seq::<StoredRecord>::empty(),
            r.delete_below == 0,
    {
        let r = TopicIndex {
            base_seq,
            records: Vec::new(),
            tag_index: TagIndex::new(),
            delete_below: 0,
        };
        assert(r.tag_index@ =~= tag_pairs(r.base_seq, r.records@, 0));
        r
    }

    /// The record in the slot for `seq`.
    pub fn get(&self, seq: u64) -> (r: Option<&StoredRecord>)
        ensures
            match r {
                Some(x) => self.has(seq) && *x == self.rec(seq),
                None => !self.has(seq),
            },
    {
        match self.slot_idx(seq) {
            Some(i) => Some(&self.records[i]),
            None => None,
        }
    }

    fn slot_idx(&self, seq: u64) -> (r: Option<usize>)
        ensures
            match r {
                Some(i) => self.has(seq) && i == seq - self.base_seq,
                None => !self.has(seq),
            },
    {
        if seq < self.base_seq {
            return None;
        }
        let i: u64 = seq - self.base_seq;
        if i < self.records.len() as u64 {
            Some(i as usize)
        } else {
            None
        }
    }

    /// Whether `seq` can no longer be read. What was not written yet is not dead.
    pub fn is_dead(&self, seq: u64) -> (r: bool)
        ensures
            r == self.dead(seq),
    {
        if seq < self.delete_below {
            return true;
        }
        match self.slot_idx(seq) {
            Some(i) => self.records[i].deleted,
            None => seq < self.base_seq,
        }
    }

    /// Whether nothing from `start` to `end` can be read any more.
    pub fn range_all_dead(&self, start: u64, end: u64) -> (r: bool)
        ensures
            r == (forall|s: u64| start <= s <= end ==> #[trigger] self.dead(s)),
    {
        if start > end {
            return true;
        }
        let mut seq: u64 = start;
        loop
            invariant
                start <= seq <= end,
                forall|s: u64| start <= s < seq ==> #[trigger] self.dead(s),
            decreases end - seq,
        {
            if !self.is_dead(seq) {
                return false;
            }
            if seq == end {
                return true;
            }
            seq += 1;
        }
    }

    /// The sequence numbers below `bound` whose tag the filter selects, ascending.
    pub fn matching_live_seqs(&self, filter: &Filter, bound: u64) -> (r: Vec<u64>)
        requires
            self.wf(),
        ensures
            rising(r@),
            r@.to_set() == matching(self.base_seq, self.records@, *filter, bound),
    {
        proof {
            let a = selected(self.tag_index@, *filter, bound);
            let b = matching(self.base_seq, self.records@, *filter, bound);
            assert forall|s: u64| a.contains(s) <==> b.contains(s) by {
                if a.contains(s) {
                    let t = choose|t: Seq<char>| #[trigger]
                        self.tag_index@.contains((t, s)) && filter.selects(t);
                    assert(text_of(self.rec(s).tag) == Some(t));
                }
                if b.contains(s) {
                    let t = self.rec(s).tag->0@;
                    assert(self.tag_index@.contains((t, s)));
                }
            }
            assert(a =~= b);
        }
        self.tag_index.select(filter, bound)
    }

    /// Adds a slot at the end.
    pub fn push(&mut self, rec: StoredRecord)
        requires
            old(self).wf(),
            old(self).tail() < u64::MAX,
            rec.ok(),
        ensures
            final(self).wf(),
            final(self).base_seq == old(self).base_seq,
            final(self).delete_below == old(self).delete_below,
            final(self).records@ == old(self).records@.push(rec),
    {
        let seq: u64 = self.base_seq + self.records.len() as u64;
        match &rec.tag {
            Some(t) => {
                self.tag_index.index_tag(seq, t.as_str());
            },
            None => {},
        }
        self.records.push(rec);
        proof {
            let a = old(self).records@;
            let b = self.records@;
            assert forall|p: (Seq<char>, u64)|
                self.tag_index@.contains(p) <==> tag_pairs(self.base_seq, b, 0).contains(p) by {
                if p.1 < self.base_seq + a.len() && p.1 >= self.base_seq {
                    assert(b[p.1 - self.base_seq] == a[p.1 - self.base_seq]);
                }
            }
            assert(self.tag_index@ =~= tag_pairs(self.base_seq, b, 0));
        }
    }

    /// Takes the last slot away.
    pub fn pop(&mut self)
        requires
            old(self).wf(),
            old(self).records@.len() > 0,
        ensures
            final(self).wf(),
            final(self).base_seq == old(self).base_seq,
            final(self).delete_below == old(self).delete_below,
            final(self).records@ == old(self).records@.drop_last(),
    {
        let n: usize = self.records.len();
        let seq: u64 = self.base_seq + (n - 1) as u64;
        let rec = self.records.pop();
        match rec {
            Some(r) => match &r.tag {
                Some(t) => {
                    self.tag_index.unindex_tag(t.as_str(), seq);
                },
                None => {},
            },
            None => {},
        }
        proof {
            let a = old(self).records@;
            let b = self.records@;
            assert(b =~= a.drop_last());
            assert forall|p: (Seq<char>, u64)|
                self.tag_index@.contains(p) <==> tag_pairs(self.base_seq, b, 0).contains(p) by {
                if p.1 < self.base_seq + b.len() && p.1 >= self.base_seq {
                    assert(b[p.1 - self.base_seq] == a[p.1 - self.base_seq]);
                }
            }
            assert(self.tag_index@ =~= tag_pairs(self.base_seq, b, 0));
        }
    }

    /// Takes up to `n` slots away at the front, and says how many held a live
    /// record.
    pub fn drain_front(&mut self, n: usize) -> (r: u64)
        requires
            old(self).wf(),
        ensures
            final(self).wf(),
            final(self).delete_below == old(self).delete_below,
            ({
                let k = if n <= old(self).records@.len() {
                    n as int
                } else {
                    old(self).records@.len() as int
                };
                &&& final(self).base_seq == old(self).base_seq + k
                &&& final(self).records@ == old(self).records@.skip(k)
                &&& r == live_in(old(self).records@.take(k))
            }),
    {
        let k: usize = if n <= self.records.len() {
            n
        } else {
            self.records.len()
        };
        let ghost a = self.records@;
        let ghost base = self.base_seq;
        let mut live: u64 = 0;
        let mut i: usize = 0;
        proof {
            assert(a.take(0) =~= Seq::<StoredRecord>::empty());
        }
        while i < k
            invariant
                i <= k <= a.len(),
                self.records@ == a,
                self.base_seq == base,
                self.delete_below == old(self).delete_below,
                base + a.len() <= u64::MAX,
                self.tag_index.wf(),
                self.tag_index@ == tag_pairs(base, a, i as int),
                live == live_in(a.take(i as int)),
                live <= i,
            decreases k - i,
        {
            let seq: u64 = self.base_seq + i as u64;
            proof {
                assert(a.take(i + 1).drop_last() =~= a.take(i as int));
                assert(a.take(i + 1).last() == a[i as int]);
            }
            if !self.records[i].deleted {
                live = live + 1;
            }
            match &self.records[i].tag {
                Some(t) => {
                    self.tag_index.unindex_tag(t.as_str(), seq);
                },
                None => {},
            }
            proof {
                assert forall|p: (Seq<char>, u64)|
                    self.tag_index@.contains(p) <==> tag_pairs(base, a, i + 1).contains(p) by {
                    if p.1 == seq {
                        assert(a[p.1 - base] == a[i as int]);
                    }
                }
                assert(self.tag_index@ =~= tag_pairs(base, a, i + 1));
            }
            i = i + 1;
        }
        let rest = self.records.split_off(k);
        self.records = rest;
        self.base_seq = self.base_seq + k as u64;
        proof {
            let b = self.records@;
            assert(b =~= a.skip(k as int));
            assert forall|p: (Seq<char>, u64)|
                self.tag_index@.contains(p) <==> tag_pairs(self.base_seq, b, 0).contains(p) by {
                if self.base_seq <= p.1 < self.base_seq + b.len() {
                    assert(b[p.1 - self.base_seq] == a[p.1 - base]);
                }
            }
            assert(self.tag_index@ =~= tag_pairs(self.base_seq, b, 0));
            assert forall|j: int| 0 <= j < b.len() implies (#[trigger] b[j]).ok() by {
                assert(b[j] == a[j + k]);
            }
        }
        live
    }

    /// Deletes the record in the slot for `seq`, and says how large it was. There
    /// is nothing to do where there is no slot or no live record in it.
    pub fn mark_deleted(&mut self, seq: u64) -> (r: Option<u64>)
        requires
            old(self).wf(),
        ensures
            final(self).wf(),
            final(self).base_seq == old(self).base_seq,
            final(self).delete_below == old(self).delete_below,
            match r {
                Some(freed) => {
                    &&& old(self).has(seq)
                    &&& !old(self).rec(seq).deleted
                    &&& freed == old(self).rec(seq).bytes
                    &&& final(self).records@ == old(self).records@.update(
                        seq - old(self).base_seq,
                        old(self).rec(seq).erased(),
                    )
                },
                None => {
                    &&& !old(self).has(seq) || old(self).rec(seq).deleted
                    &&& final(self).records@ == old(self).records@
                },
            },
    {
        let i: usize = match self.slot_idx(seq) {
            Some(i) => i,
            None => {
                return None;
            },
        };
        if self.records[i].deleted {
            return None;
        }
        let ghost a = self.records@;
        let freed: u64 = self.records[i].bytes;
        match &self.records[i].tag {
            Some(t) => {
                self.tag_index.unindex_tag(t.as_str(), seq);
            },
            None => {},
        }
        let rec = StoredRecord {
            ts: self.records[i].ts,
            node: copy_text(&self.records[i].node),
            tag: None,
            data: None,
            meta: None,
            bytes: 0,
            deleted: true,
            payload_resident: self.records[i].payload_resident,
            hops: self.records[i].hops,
        };
        self.records.set(i, rec);
        proof {
            let b = self.records@;
            assert(b =~= a.update(i as int, a[i as int].erased()));
            assert forall|p: (Seq<char>, u64)|
                self.tag_index@.contains(p) <==> tag_pairs(self.base_seq, b, 0).contains(p) by {
                if self.base_seq <= p.1 < self.base_seq + b.len() && p.1 != seq {
                    assert(b[p.1 - self.base_seq] == a[p.1 - self.base_seq]);
                }
            }
            assert(self.tag_index@ =~= tag_pairs(self.base_seq, b, 0));
        }
        Some(freed)
    }

    /// Lets go of the payload in the slot for `seq`, which from then on is read
    /// from its segment. A deleted record, or one without a payload in memory,
    /// stays as it is.
    pub fn release_payload(&mut self, seq: u64)
        requires
            old(self).wf(),
        ensures
            final(self).wf(),
            final(self).base_seq == old(self).base_seq,
            final(self).delete_below == old(self).delete_below,
            old(self).has(seq) && !old(self).rec(seq).deleted && old(self).rec(
                seq,
            ).payload_resident ==> final(self).records@ == old(self).records@.update(
                seq - old(self).base_seq,
                old(self).rec(seq).released(),
            ),
            !(old(self).has(seq) && !old(self).rec(seq).deleted && old(self).rec(
                seq,
            ).payload_resident) ==> final(self).records@ == old(self).records@,
    {
        let i: usize = match self.slot_idx(seq) {
            Some(i) => i,
            None => {
                return;
            },
        };
        if self.records[i].deleted || !self.records[i].payload_resident {
            return;
        }
        let ghost a = self.records@;
        let rec = StoredRecord {
            ts: self.records[i].ts,
            node: copy_text(&self.records[i].node),
            tag: copy_text(&self.records[i].tag),
            data: None,
            meta: None,
            bytes: self.records[i].bytes,
            deleted: false,
            payload_resident: false,
            hops: self.records[i].hops,
        };
        self.records.set(i, rec);
        proof {
            let b = self.records@;
            assert(b =~= a.update(i as int, a[i as int].released()));
            assert(tag_pairs(self.base_seq, b, 0) =~= tag_pairs(self.base_seq, a, 0));
        }
    }
}

/// Adding a record and taking it back leaves every slot as it was.
pub proof fn push_then_pop(recs: Seq<StoredRecord>, rec: StoredRecord)
    ensures
        recs.push(rec).drop_last() == recs,
{
    assert(recs.push(rec).drop_last() =~= recs);
}

} // verus!
