//! Reading from a cursor on.
use crate::config::{DEFAULT_LIMIT, DEFAULT_MAX_BATCH_BYTES, MAX_BATCH_BYTES, MAX_LIMIT};
use crate::engine::{Engine, EngineView};
use crate::eviction::{after, before, build_tombstone, gap_report, larger, max64, min64, sat_sub,
    smaller};
use crate::filters::{decision, evaluate, ReadDecision};
use crate::jobs::{fetched_at, find_fetched, Fetched};
use crate::seqs::rising;
use crate::topic_index::StoredRecord;
use crate::topic_laws::retention_keeps;
use crate::topic_state::{cap64, TopicState, TopicView};
use crate::types::{copy_json, copy_text, Error, ErrorCode, Json, NodeFilter, Tombstone,
    TombstoneReason};
use vstd::prelude::*;

verus! {

/// A request to read.
#[derive(Debug)]
pub struct DiffRequest {
    /// The last sequence number the reader has passed.
    pub from_seq: u64,
    /// How many records at most; `0` leaves it to the engine.
    pub limit: u64,
    /// The nodes the reader stands for.
    pub node: Option<NodeFilter>,
    pub include_tags: bool,
    pub include_meta: bool,
    /// How many bytes at most; `0` leaves it to the engine.
    pub max_batch_bytes: u64,
}

impl Default for DiffRequest {
    fn default() -> (r: DiffRequest)
        ensures
            r == (DiffRequest {
                from_seq: 0,
                limit: 0,
                node: None,
                include_tags: false,
                include_meta: false,
                max_batch_bytes: 0,
            }),
    {
        DiffRequest {
            from_seq: 0,
            limit: 0,
            node: None,
            include_tags: false,
            include_meta: false,
            max_batch_bytes: 0,
        }
    }
}

/// A record as a reader gets it. Data is absent where it has to be fetched from a
/// segment first.
#[derive(Debug)]
pub struct RecordOut {
    pub seq: u64,
    pub ts: i64,
    pub node: Option<String>,
    pub tag: Option<String>,
    pub data: Option<Json>,
    pub meta: Option<Json>,
}

/// The answer to a reader.
#[derive(Debug)]
pub struct DiffResponse {
    pub records: Vec<RecordOut>,
    /// Where to read on.
    pub next_from_seq: u64,
    pub head_seq: u64,
    pub earliest_seq: u64,
    pub caught_up: bool,
    /// The gap the reader ran into, if any.
    pub tombstone: Option<Tombstone>,
    pub lag: u64,
    /// How many slots were looked at.
    pub records_scanned: u64,
    /// The places of the records whose payload lives in a segment.
    pub sealed: Vec<usize>,
}

/// The answer to a read of a topic.
pub open spec fn answers_read(t: TopicView, req: DiffRequest, now: i64, r: DiffResponse) -> bool {
    let start = t.start(req.from_seq);
    &&& r.head_seq == t.head
    &&& r.earliest_seq == t.earliest()
    &&& r.tombstone == t.gap(req.from_seq)
    &&& t.is_batch(
        req.node,
        now,
        start,
        read_limit(req.limit),
        read_budget(req.max_batch_bytes),
        seqs_of(r.records@),
        r.next_from_seq,
    )
    &&& forall|i: int|
        0 <= i < r.records@.len() ==> #[trigger] r.records@[i] == shown(
            r.records@[i].seq,
            t.rec(r.records@[i].seq),
            req.include_tags,
            req.include_meta,
        )
    &&& r.caught_up == (r.next_from_seq == t.head)
    &&& r.lag == sat_sub(t.head, r.next_from_seq)
    &&& r.records_scanned == sat_sub(r.next_from_seq, max64(start, before(t.base)))
    &&& forall|k: int|
        0 <= k < r.sealed@.len() ==> (#[trigger] r.sealed@[k]) < r.records@.len()
    &&& forall|i: int|
        0 <= i < r.records@.len() ==> (r.sealed@.contains(i as usize) <==> !t.rec(
            (#[trigger] r.records@[i]).seq,
        ).payload_resident)
}

/// How many records a read returns at most.
pub open spec fn read_limit(limit: u64) -> u64 {
    if limit == 0 {
        DEFAULT_LIMIT
    } else {
        min64(limit, MAX_LIMIT)
    }
}

/// How many bytes a read returns at most, unless a single record has more.
pub open spec fn read_budget(bytes: u64) -> u64 {
    if bytes == 0 {
        DEFAULT_MAX_BATCH_BYTES
    } else {
        min64(bytes, MAX_BATCH_BYTES)
    }
}

/// A record as a reader gets it.
pub open spec fn shown(seq: u64, rec: StoredRecord, tags: bool, meta: bool) -> RecordOut {
    RecordOut {
        seq,
        ts: rec.ts,
        node: rec.node,
        tag: if tags {
            rec.tag
        } else {
            None
        },
        data: if rec.payload_resident {
            rec.data
        } else {
            None
        },
        meta: if rec.payload_resident && meta {
            rec.meta
        } else {
            None
        },
    }
}

impl TopicView {
    /// The reader that node filtering looks at.
    pub open spec fn reader(self, node: Option<NodeFilter>) -> Option<NodeFilter> {
        if self.config.dedupe_node {
            node
        } else {
            None
        }
    }

    /// A reader gets the record of a sequence number.
    pub open spec fn delivers(self, node: Option<NodeFilter>, now: i64, seq: u64) -> bool {
        &&& self.has(seq)
        &&& decision(
            self.reader(node),
            self.config.ttl_ms,
            now,
            self.rec(seq).ts,
            self.rec(seq).deleted,
            self.rec(seq).node,
        ) == ReadDecision::Deliver
    }

    /// The size of the records of a list of sequence numbers.
    pub open spec fn size_of(self, seqs: Seq<u64>) -> nat
        decreases seqs.len(),
    {
        if seqs.len() == 0 {
            0
        } else {
            self.size_of(seqs.drop_last()) + self.rec(seqs.last()).bytes as nat
        }
    }

    /// The gap a reader runs into: the topic was created again since, or records
    /// after the cursor were lost.
    pub open spec fn gap(self, from_seq: u64) -> Option<Tombstone> {
        if from_seq > self.head {
            Some(
                Tombstone {
                    gap_from: self.seq_base,
                    gap_to: self.head,
                    reason: TombstoneReason::Recreated,
                    missed_estimate: after(sat_sub(self.head, self.seq_base)),
                    earliest_seq: self.earliest(),
                    head_seq: self.head,
                },
            )
        } else if after(from_seq) < self.first_kept() {
            Some(
                gap_report(
                    from_seq,
                    self.first_kept(),
                    self.head,
                    self.floors.reason(after(from_seq)),
                ),
            )
        } else {
            None
        }
    }

    /// The last sequence number passed when the read starts.
    pub open spec fn start(self, from_seq: u64) -> u64 {
        if from_seq > self.head {
            before(self.earliest())
        } else if after(from_seq) < self.first_kept() {
            max64(before(self.earliest()), from_seq)
        } else {
            from_seq
        }
    }

    /// What a read returns, and where it stops: what the reader gets from the start
    /// on, in order and without a gap, until the head is reached, or the limit, or
    /// the next record would exceed the budget. The first record is returned
    /// whatever its size.
    pub open spec fn is_batch(
        self,
        node: Option<NodeFilter>,
        now: i64,
        start: u64,
        limit: u64,
        budget: u64,
        seqs: Seq<u64>,
        next: u64,
    ) -> bool {
        &&& rising(seqs)
        &&& seqs.len() <= limit
        &&& forall|i: int|
            0 <= i < seqs.len() ==> start < #[trigger] seqs[i] <= next && self.delivers(
                node,
                now,
                seqs[i],
            )
        &&& forall|s: u64|
            start < s <= next && #[trigger] self.delivers(node, now, s) ==> seqs.contains(s)
        &&& start <= next <= max64(start, self.head)
        &&& seqs.len() > 1 ==> self.size_of(seqs) <= budget
        &&& seqs.len() == limit ==> next == (if limit == 0 {
            start
        } else {
            seqs.last()
        })
        &&& seqs.len() < limit && next < self.head ==> {
            &&& seqs.len() > 0
            &&& self.delivers(node, now, (next + 1) as u64)
            &&& self.size_of(seqs) + self.rec((next + 1) as u64).bytes > budget
        }
    }
}

/// The numbers of a list of records.
pub open spec fn seqs_of(records: Seq<RecordOut>) -> Seq<u64> {
    records.map_values(|r: RecordOut| r.seq)
}

/// The size of a list does not depend on records outside it.
proof fn size_of_push(t: TopicView, seqs: Seq<u64>, s: u64)
    ensures
        t.size_of(seqs.push(s)) == t.size_of(seqs) + t.rec(s).bytes,
{
    assert(seqs.push(s).drop_last() =~= seqs);
}

impl TopicState {
    /// Reads from a cursor on, and says where to read on and how many slots were
    /// looked at.
    pub fn walk(
        &self,
        start: u64,
        limit: u64,
        budget: u64,
        req: &DiffRequest,
        now: i64,
    ) -> (r: (Vec<RecordOut>, u64, u64, Vec<usize>))
        requires
            self.wf(),
            budget < u64::MAX,
        ensures
            self@.is_batch(req.node, now, start, limit, budget, seqs_of(r.0@), r.1),
            forall|i: int|
                0 <= i < r.0@.len() ==> #[trigger] r.0@[i] == shown(
                    r.0@[i].seq,
                    self@.rec(r.0@[i].seq),
                    req.include_tags,
                    req.include_meta,
                ),
            r.2 == sat_sub(r.1, max64(start, before(self@.base))),
            forall|i: int|
                0 <= i < r.0@.len() ==> (r.3@.contains(i as usize) <==> !self@.rec(
                    (#[trigger] r.0@[i]).seq,
                ).payload_resident),
            forall|k: int| 0 <= k < r.3@.len() ==> (#[trigger] r.3@[k]) < r.0@.len(),
    {
        let ghost t = self@;
        let head: u64 = self.head_seq;
        let ttl_ms: u64 = self.config.ttl_ms;
        let mut records: Vec<RecordOut> = Vec::new();
        let mut sealed: Vec<usize> = Vec::new();
        let mut scanned: u64 = 0;
        let mut bytes: u64 = 0;
        let reader = if self.config.dedupe_node {
            req.node.as_ref()
        } else {
            None
        };
        proof {
            assert(crate::filters::reader_of(reader) == t.reader(req.node));
            assert(seqs_of(records@) =~= Seq::<u64>::empty());
        }
        if limit == 0 {
            return (records, start, 0, sealed);
        }
        let mut next: u64 = larger(start, smaller(head, self.index.base_seq.saturating_sub(1)));
        while next < head && (records.len() as u64) < limit
            invariant
                self.wf(),
                t == self@,
                head == t.head,
                ttl_ms == t.config.ttl_ms,
                budget < u64::MAX,
                limit > 0,
                crate::filters::reader_of(reader) == t.reader(req.node),
                next < head ==> next + 1 >= t.base,
                start <= next <= max64(start, head),
                rising(seqs_of(records@)),
                records@.len() <= limit,
                forall|i: int|
                    0 <= i < records@.len() ==> start < (#[trigger] records@[i]).seq <= next
                        && t.delivers(req.node, now, records@[i].seq),
                forall|s: u64|
                    start < s <= next && #[trigger] t.delivers(req.node, now, s) ==> seqs_of(
                        records@,
                    ).contains(s),
                bytes == cap64(t.size_of(seqs_of(records@))),
                records@.len() > 1 ==> bytes <= budget,
                records@.len() == limit ==> next == records@.last().seq,
                forall|i: int|
                    0 <= i < records@.len() ==> #[trigger] records@[i] == shown(
                        records@[i].seq,
                        t.rec(records@[i].seq),
                        req.include_tags,
                        req.include_meta,
                    ),
                scanned == sat_sub(next, max64(start, before(t.base))),
                forall|i: int|
                    0 <= i < records@.len() ==> (sealed@.contains(i as usize) <==> !t.rec(
                        (#[trigger] records@[i]).seq,
                    ).payload_resident),
                forall|k: int| 0 <= k < sealed@.len() ==> (#[trigger] sealed@[k]) < records@.len(),
            decreases head - next,
        {
            let seq: u64 = next + 1;
            assert(t.has(seq));
            let rec = match self.index.get(seq) {
                Some(rec) => rec,
                None => {
                    return (records, next, scanned, sealed);
                },
            };
            let ghost r0 = records@;
            let ghost l0 = sealed@;
            assert(*rec == t.rec(seq));
            match evaluate(reader, ttl_ms, now, rec.ts, rec.deleted, &rec.node) {
                ReadDecision::Deliver => {
                    assert(t.delivers(req.node, now, seq));
                    if records.len() > 0 && bytes.saturating_add(rec.bytes) > budget {
                        return (records, next, scanned, sealed);
                    }
                    bytes = bytes.saturating_add(rec.bytes);
                    let place: usize = records.len();
                    let resident = rec.payload_resident;
                    if !resident {
                        sealed.push(place);
                    }
                    records.push(
                        RecordOut {
                            seq,
                            ts: rec.ts,
                            node: copy_text(&rec.node),
                            tag: if req.include_tags {
                                copy_text(&rec.tag)
                            } else {
                                None
                            },
                            data: if resident {
                                copy_json(&rec.data)
                            } else {
                                None
                            },
                            meta: if resident && req.include_meta {
                                copy_json(&rec.meta)
                            } else {
                                None
                            },
                        },
                    );
                    proof {
                        assert(seqs_of(records@) =~= seqs_of(r0).push(seq));
                        size_of_push(t, seqs_of(r0), seq);
                        assert forall|s: u64|
                            start < s <= seq && #[trigger] t.delivers(
                                req.node,
                                now,
                                s,
                            ) implies seqs_of(records@).contains(s) by {
                            if s == seq {
                                assert(seqs_of(records@)[r0.len() as int] == seq);
                            } else {
                                assert(seqs_of(r0).contains(s));
                                let m = choose|m: int|
                                    0 <= m < seqs_of(r0).len() && seqs_of(r0)[m] == s;
                                assert(seqs_of(records@)[m] == s);
                            }
                        }
                        assert forall|m: int| 0 <= m < records@.len() implies (sealed@.contains(
                            m as usize,
                        ) <==> !t.rec((#[trigger] records@[m]).seq).payload_resident) by {
                            if m < r0.len() {
                                assert(records@[m] == r0[m]);
                                if l0.contains(m as usize) {
                                    let k = choose|k: int|
                                        0 <= k < l0.len() && l0[k] == m as usize;
                                    assert(sealed@[k] == m as usize);
                                }
                                if sealed@.contains(m as usize) {
                                    let k = choose|k: int|
                                        0 <= k < sealed@.len() && sealed@[k] == m as usize;
                                    if k < l0.len() {
                                        assert(l0[k] == m as usize);
                                    }
                                }
                            } else {
                                if !resident {
                                    assert(sealed@[l0.len() as int] == m as usize);
                                } else if sealed@.contains(m as usize) {
                                    let k = choose|k: int|
                                        0 <= k < sealed@.len() && sealed@[k] == m as usize;
                                    assert(l0[k] < r0.len());
                                }
                            }
                        }
                    }
                },
                _ => {
                    assert(!t.delivers(req.node, now, seq));
                },
            }
            next = seq;
            scanned = scanned + 1;
        }
        (records, next, scanned, sealed)
    }
}

impl EngineView {
    /// A topic when it is read: retention is enforced, and the time is noted.
    pub open spec fn read_topic(self, name: Seq<char>, now: i64) -> TopicView {
        TopicView { last_read: now, last_consumed: now, ..self.topics[name].retained(now) }
    }
}

impl Engine {
    /// Reads a topic from a cursor on.
    pub fn diff(&mut self, name: &str, req: &DiffRequest, now: i64) -> (r: Result<
        DiffResponse,
        Error,
    >)
        requires
            old(self).wf(),
        ensures
            final(self).wf(),
            old(self)@.quiet() ==> final(self)@.quiet(),
            !old(self)@.topics.contains_key(name@) ==> {
                &&& r is Err
                &&& r->Err_0.code == ErrorCode::TopicNotFound
                &&& r->Err_0.detail is Plain
                &&& final(self)@ == old(self)@
            },
            old(self)@.topics.contains_key(name@) ==> ({
                let t = old(self)@.read_topic(name@, now);
                &&& final(self)@ == old(self)@.with_topic(t)
                &&& r is Ok
                &&& answers_read(t, *req, now, r->Ok_0)
            }),
    {
        let ghost v = self@;
        let mut t = match self.take_topic(name) {
            Some(t) => t,
            None => {
                return Err(Error::new(ErrorCode::TopicNotFound));
            },
        };
        proof {
            retention_keeps(t@, now);
        }
        let _ = t.enforce_retention(now);
        t.last_read_ms = now;
        t.last_consumed_ms = now;
        let limit: u64 = if req.limit == 0 {
            DEFAULT_LIMIT
        } else {
            smaller(req.limit, MAX_LIMIT)
        };
        let budget: u64 = if req.max_batch_bytes == 0 {
            DEFAULT_MAX_BATCH_BYTES
        } else {
            smaller(req.max_batch_bytes, MAX_BATCH_BYTES)
        };
        let head: u64 = t.head_seq();
        let earliest: u64 = t.earliest_seq();
        let kept: u64 = t.evict_earliest_seq();
        let from: u64 = req.from_seq;
        let mut tombstone: Option<Tombstone> = None;
        let mut start: u64 = from;
        if from > head {
            tombstone = Some(
                Tombstone {
                    gap_from: t.seq_base,
                    gap_to: head,
                    reason: TombstoneReason::Recreated,
                    missed_estimate: head.saturating_sub(t.seq_base).saturating_add(1),
                    earliest_seq: earliest,
                    head_seq: head,
                },
            );
            start = earliest.saturating_sub(1);
        } else if from.saturating_add(1) < kept {
            let reason = t.floors.reason_for_gap(from.saturating_add(1));
            tombstone = Some(build_tombstone(from, kept, head, reason));
            start = larger(earliest.saturating_sub(1), from);
        }
        let (records, next_from_seq, records_scanned, sealed) = t.walk(
            start,
            limit,
            budget,
            req,
            now,
        );
        self.put_topic(t);
        proof {
            assert(self@.topics =~= v.topics.insert(name@, t@));
        }
        Ok(
            DiffResponse {
                records,
                next_from_seq,
                head_seq: head,
                earliest_seq: earliest,
                caught_up: next_from_seq == head,
                tombstone,
                lag: head.saturating_sub(next_from_seq),
                records_scanned,
                sealed,
            },
        )
    }
}

/// A record is another with the payload that was fetched for it; where none was, its
/// data is `null`.
pub open spec fn filled(a: RecordOut, b: RecordOut, fetched: Seq<Fetched>, meta: bool) -> bool {
    let i = fetched_at(fetched, a.seq);
    &&& b.seq == a.seq
    &&& b.ts == a.ts
    &&& b.node == a.node
    &&& b.tag == a.tag
    &&& b.data is Some
    &&& if i >= 0 {
        &&& b.data->0 == fetched[i].1
        &&& b.meta == (if meta {
            fetched[i].2
        } else {
            None
        })
    } else {
        b.data->0.is_null() && b.meta is None
    }
}

impl DiffResponse {
    /// Puts in the payloads that were fetched from segments.
    pub fn fill_sealed(&mut self, fetched: &Vec<Fetched>, include_meta: bool)
        requires
            forall|k: int|
                0 <= k < old(self).sealed@.len() ==> (#[trigger] old(self).sealed@[k])
                    < old(self).records@.len(),
        ensures
            final(self).records@.len() == old(self).records@.len(),
            forall|i: int|
                0 <= i < old(self).records@.len() ==> if old(self).sealed@.contains(i as usize) {
                    filled(
                        old(self).records@[i],
                        #[trigger] final(self).records@[i],
                        fetched@,
                        include_meta,
                    )
                } else {
                    final(self).records@[i] == old(self).records@[i]
                },
            final(self).sealed@.len() == 0,
            final(self).next_from_seq == old(self).next_from_seq,
            final(self).head_seq == old(self).head_seq,
            final(self).earliest_seq == old(self).earliest_seq,
            final(self).caught_up == old(self).caught_up,
            final(self).tombstone == old(self).tombstone,
            final(self).lag == old(self).lag,
            final(self).records_scanned == old(self).records_scanned,
    {
        let ghost recs = self.records@;
        let mut sealed: Vec<usize> = Vec::new();
        std::mem::swap(&mut self.sealed, &mut sealed);
        let mut k: usize = 0;
        while k < sealed.len()
            invariant
                k <= sealed@.len(),
                self.records@.len() == recs.len(),
                forall|m: int| 0 <= m < sealed@.len() ==> (#[trigger] sealed@[m]) < recs.len(),
                forall|i: int|
                    0 <= i < recs.len() ==> if sealed@.take(k as int).contains(i as usize) {
                        filled(recs[i], #[trigger] self.records@[i], fetched@, include_meta)
                    } else {
                        self.records@[i] == recs[i]
                    },
                self.sealed@.len() == 0,
                self.next_from_seq == old(self).next_from_seq,
                self.head_seq == old(self).head_seq,
                self.earliest_seq == old(self).earliest_seq,
                self.caught_up == old(self).caught_up,
                self.tombstone == old(self).tombstone,
                self.lag == old(self).lag,
                self.records_scanned == old(self).records_scanned,
            decreases sealed@.len() - k,
        {
            let at: usize = sealed[k];
            let r = &self.records[at];
            let (data, meta) = match find_fetched(fetched, r.seq) {
                Some(i) => {
                    let f = &fetched[i];
                    (
                        f.1.copy(),
                        if include_meta {
                            copy_json(&f.2)
                        } else {
                            None
                        },
                    )
                },
                None => (Json::null(), None),
            };
            let out = RecordOut {
                seq: r.seq,
                ts: r.ts,
                node: copy_text(&r.node),
                tag: copy_text(&r.tag),
                data: Some(data),
                meta,
            };
            let ghost before = self.records@;
            self.records.set(at, out);
            proof {
                let a = sealed@.take(k as int);
                let b = sealed@.take(k + 1);
                assert(b =~= a.push(at));
                assert forall|i: int| 0 <= i < recs.len() implies if b.contains(i as usize) {
                    filled(recs[i], #[trigger] self.records@[i], fetched@, include_meta)
                } else {
                    self.records@[i] == recs[i]
                } by {
                    assert(before[i].seq == recs[i].seq);
                    if i == at {
                        assert(b[k as int] == at);
                    } else {
                        if a.contains(i as usize) {
                            let m = choose|m: int| 0 <= m < a.len() && a[m] == i as usize;
                            assert(b[m] == i as usize);
                        }
                        if b.contains(i as usize) {
                            let m = choose|m: int| 0 <= m < b.len() && b[m] == i as usize;
                            assert(i as usize == i) by {
                                assert(self.records.len() == self.records@.len());
                            }
                            assert(m < k);
                            assert(a[m] == i as usize);
                        }
                        assert(self.records@[i] == before[i]);
                    }
                }
            }
            k += 1;
        }
        assert(sealed@.take(k as int) =~= sealed@);
    }
}

} // verus!
