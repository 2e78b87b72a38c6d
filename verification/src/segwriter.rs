//! The segments of a topic: which records lie in which, which payloads are kept at
//! hand, and which segments move or go.
use crate::eviction::sat_add;
use crate::payload::{decode_payload, json_value, opened};
use crate::seqs::{rising, SeqSet};
use crate::types::{copy_json, Json};
use vstd::prelude::*;

verus! {

/// Where a segment lies.
#[derive(Debug, Clone, Copy, PartialEq, Eq, Structural)]
pub enum Tier {
    Hot,
    Cold,
}

/// When a segment is sealed, and how much stays in the hot tier. `0` stands for
/// "no limit" except for `max_events` and `hot_retain_segments`.
#[derive(Debug, Clone, Copy, PartialEq, Eq, Structural)]
pub struct SegmentConfig {
    pub max_events: u64,
    pub max_bytes: u64,
    pub max_age_ms: u64,
    pub hot_retain_segments: u64,
    pub hot_retain_bytes: u64,
}

/// A sealed segment: its first and last sequence number, its size, and where it
/// lies. It goes by its first sequence number.
#[derive(Debug, Clone, Copy, PartialEq, Eq, Structural)]
pub struct SealedSegment {
    pub start_seq: u64,
    pub end_seq: u64,
    pub data_len: u64,
    pub tier: Tier,
}

/// A payload.
#[derive(Debug)]
pub struct ResolvedPayload {
    pub data: Option<Json>,
    pub meta: Option<Json>,
}

/// A payload at hand.
#[derive(Debug)]
pub struct CachedPayload {
    pub seq: u64,
    pub data: Option<Json>,
    pub meta: Option<Json>,
}

/// How many payloads of sealed records are kept at hand.
pub const PAYLOAD_CACHE_CAP: usize = 4096;

/// How many payloads read from the cold tier are kept at hand.
pub const COLD_CACHE_CAP: usize = 1024;

/// Where the payload of a sealed record is to be read.
#[derive(Debug, Clone, Copy, PartialEq, Eq, Structural)]
pub struct SealedLocator {
    pub seg: SealedSegment,
    pub seq: u64,
}

impl SealedLocator {
    /// Whether the read goes to the cold tier.
    pub fn is_cold(&self) -> (r: bool)
        ensures
            r == (self.seg.tier == Tier::Cold),
    {
        match self.seg.tier {
            Tier::Cold => true,
            Tier::Hot => false,
        }
    }
}

/// How the payload of a record is got.
#[derive(Debug)]
pub enum SealedResolve {
    /// It is at hand.
    Hit(ResolvedPayload),
    /// It is to be read from its segment.
    Read(SealedLocator),
    /// The record lies in no sealed segment.
    NotSealed,
}

/// A record of the open segment: its payload is the text that goes into the
/// segment.
#[derive(Debug)]
pub struct OpenRecord {
    pub seq: u64,
    pub blob: String,
}

/// The open segment.
#[derive(Debug)]
pub struct OpenSegment {
    pub start_seq: u64,
    pub records: Vec<OpenRecord>,
    /// The size of the records as they are framed.
    pub data_len: u64,
    /// When the first record came.
    pub started_ms: i64,
}

impl OpenSegment {
    /// The records have consecutive sequence numbers from the first on.
    pub open spec fn wf(&self) -> bool {
        &&& self.records@.len() > 0
        &&& self.start_seq + self.records@.len() <= u64::MAX
        &&& forall|i: int|
            0 <= i < self.records@.len() ==> (#[trigger] self.records@[i]).seq == self.start_seq
                + i
    }

    /// The last sequence number.
    pub open spec fn end(&self) -> u64 {
        (self.start_seq + self.records@.len() - 1) as u64
    }
}

/// What became of the open segment when it was to be stored.
#[derive(Debug, Clone, Copy, PartialEq, Eq, Structural)]
pub enum SealOutcome {
    /// It was there already.
    Found(Tier),
    /// It was stored in the hot tier.
    Stored,
    /// It could not be stored.
    Failed,
}

/// What is to be done to have a segment in the cold tier.
#[derive(Debug, Clone, Copy, PartialEq, Eq, Structural)]
pub enum CopyAction {
    Nothing,
    Copy,
}

/// Decides whether a segment is to be copied to the cold tier: there is one, and
/// it does not hold both parts of the segment yet.
pub fn copy_segment_to_cold(has_cold: bool, cold_data: bool, cold_idx: bool) -> (r: CopyAction)
    ensures
        r == (if has_cold && !(cold_data && cold_idx) {
            CopyAction::Copy
        } else {
            CopyAction::Nothing
        }),
{
    if !has_cold || (cold_data && cold_idx) {
        CopyAction::Nothing
    } else {
        CopyAction::Copy
    }
}

/// The segments of a topic.
#[derive(Debug)]
pub struct SegmentWriter {
    pub cfg: SegmentConfig,
    pub has_cold: bool,
    pub active: Option<OpenSegment>,
    pub sealed: Vec<SealedSegment>,
    pub cache: Vec<CachedPayload>,
    pub cache_cap: usize,
    pub cold_cache: Vec<CachedPayload>,
    pub cold_cache_cap: usize,
    pub cold_reads: u64,
    pub evict_resident: bool,
}

/// The last `n` of a list.
pub open spec fn last_of<T>(s: Seq<T>, n: nat) -> Seq<T> {
    if s.len() > n {
        s.skip(s.len() - n)
    } else {
        s
    }
}

/// The payloads of a list outside a range of sequence numbers.
pub open spec fn outside(s: Seq<CachedPayload>, start: u64, end: u64) -> Seq<CachedPayload> {
    s.filter(|c: CachedPayload| c.seq < start || c.seq > end)
}

/// The segment holds a sequence number.
pub open spec fn holds(s: SealedSegment, seq: u64) -> bool {
    s.start_seq <= seq <= s.end_seq
}

/// Sealed segments lie one after the other.
pub open spec fn in_line(s: Seq<SealedSegment>) -> bool {
    &&& forall|i: int| 0 <= i < s.len() ==> (#[trigger] s[i]).start_seq <= s[i].end_seq
    &&& forall|i: int, j: int|
        0 <= i < j < s.len() ==> (#[trigger] s[i]).end_seq < (#[trigger] s[j]).start_seq
}

/// The size of the segments from `i` on.
pub open spec fn size_from(s: Seq<SealedSegment>, i: int) -> u64
    decreases s.len() - i,
{
    if i < 0 || i >= s.len() {
        0
    } else {
        sat_add(size_from(s, i + 1), s[i].data_len)
    }
}

/// The first place from which on the segments fit into a size.
pub open spec fn fits_from(s: Seq<SealedSegment>, i: int, bytes: u64) -> int
    decreases i,
{
    if i <= 0 || size_from(s, i - 1) > bytes {
        i
    } else {
        fits_from(s, i - 1, bytes)
    }
}

/// The payload in a cache, the newest first.
pub open spec fn cached(s: Seq<CachedPayload>, seq: u64) -> Option<CachedPayload>
    decreases s.len(),
{
    if s.len() == 0 {
        None
    } else if s.last().seq == seq {
        Some(s.last())
    } else {
        cached(s.drop_last(), seq)
    }
}

/// A payload in the cache is what the text of its record holds.
pub open spec fn reads_as(c: CachedPayload, r: OpenRecord) -> bool {
    &&& c.seq == r.seq
    &&& if json_value(r.blob@) is Some && json_value(r.blob@)->Some_0.1 is None {
        crate::payload::json_parts(c.data) == json_value(r.blob@) && c.meta is None
    } else {
        crate::payload::json_parts(c.data) == opened(r.blob@).0
            && crate::payload::json_parts(c.meta) == opened(r.blob@).1
    }
}

fn trim_front(cache: &mut Vec<CachedPayload>, cap: usize)
    ensures
        final(cache)@ == last_of(old(cache)@, cap as nat),
{
    if cache.len() > cap {
        let n: usize = cache.len() - cap;
        let rest = cache.split_off(n);
        *cache = rest;
        assert(cache@ =~= old(cache)@.skip(n as int));
    }
}

fn drop_range(cache: &mut Vec<CachedPayload>, start: u64, end: u64)
    ensures
        final(cache)@ == outside(old(cache)@, start, end),
{
    let ghost all = cache@;
    let ghost p = |c: CachedPayload| c.seq < start || c.seq > end;
    let mut kept: Vec<CachedPayload> = Vec::new();
    let mut turned: Vec<CachedPayload> = Vec::new();
    while cache.len() > 0
        invariant
            cache@ == all.take(cache@.len() as int),
            cache@.len() + turned@.len() == all.len(),
            forall|j: int|
                0 <= j < turned@.len() ==> #[trigger] turned@[j] == all[all.len() - 1 - j],
        decreases cache@.len(),
    {
        let ghost c0 = cache@;
        match cache.pop() {
            Some(x) => {
                assert(x == all[c0.len() - 1]);
                turned.push(x);
                assert(cache@ =~= all.take(c0.len() - 1));
            },
            None => {},
        }
    }
    let ghost mut i: int = 0;
    proof {
        assert(all.take(0) =~= Seq::<CachedPayload>::empty());
        assert(Seq::<CachedPayload>::empty().filter(p) =~= kept@) by {
            reveal(Seq::filter);
        }
    }
    while turned.len() > 0
        invariant
            p == (|c: CachedPayload| c.seq < start || c.seq > end),
            i + turned@.len() == all.len(),
            0 <= i,
            forall|j: int|
                0 <= j < turned@.len() ==> #[trigger] turned@[j] == all[all.len() - 1 - j],
            kept@ == all.take(i).filter(p),
        decreases turned@.len(),
    {
        match turned.pop() {
            Some(x) => {
                proof {
                    assert(x == all[i]);
                    assert(all.take(i + 1).drop_last() =~= all.take(i));
                    assert(all.take(i + 1).last() == x);
                    reveal(Seq::filter);
                }
                if x.seq < start || x.seq > end {
                    kept.push(x);
                }
                proof {
                    i = i + 1;
                }
            },
            None => {},
        }
    }
    proof {
        assert(all.take(i) =~= all);
    }
    *cache = kept;
}

fn find_cached(cache: &Vec<CachedPayload>, seq: u64) -> (r: Option<usize>)
    ensures
        match r {
            Some(i) => i < cache@.len() && cached(cache@, seq) == Some(cache@[i as int]),
            None => cached(cache@, seq) is None,
        },
{
    let mut i: usize = cache.len();
    proof {
        assert(cache@.take(cache@.len() as int) =~= cache@);
    }
    while i > 0
        invariant
            i <= cache@.len(),
            cached(cache@, seq) == cached(cache@.take(i as int), seq),
        decreases i,
    {
        i = i - 1;
        proof {
            assert(cache@.take(i + 1).drop_last() =~= cache@.take(i as int));
            assert(cache@.take(i + 1).last() == cache@[i as int]);
        }
        if cache[i].seq == seq {
            return Some(i);
        }
    }
    None
}

impl SegmentWriter {
    /// Segments lie one after the other, the open one behind the sealed ones, and
    /// the caches keep their limits.
    pub open spec fn wf(&self) -> bool {
        &&& in_line(self.sealed@)
        &&& self.active is Some ==> {
            &&& self.active->0.wf()
            &&& forall|i: int|
                0 <= i < self.sealed@.len() ==> (#[trigger] self.sealed@[i]).end_seq
                    < self.active->0.start_seq
        }
        &&& self.cache@.len() <= self.cache_cap
        &&& self.cold_cache@.len() <= self.cold_cache_cap
    }

    /// No segments.
    pub fn new(cfg: SegmentConfig, has_cold: bool) -> (r: SegmentWriter)
        ensures
            r.wf(),
            r.cfg == cfg,
            r.has_cold == has_cold,
            r.active is None,
            r.sealed@.len() == 0,
            r.cache@.len() == 0,
            r.cache_cap == PAYLOAD_CACHE_CAP,
            r.cold_cache@.len() == 0,
            r.cold_cache_cap == COLD_CACHE_CAP,
            r.cold_reads == 0,
            r.evict_resident,
    {
        SegmentWriter {
            cfg,
            has_cold,
            active: None,
            sealed: Vec::new(),
            cache: Vec::new(),
            cache_cap: PAYLOAD_CACHE_CAP,
            cold_cache: Vec::new(),
            cold_cache_cap: COLD_CACHE_CAP,
            cold_reads: 0,
            evict_resident: true,
        }
    }

    /// Changes how many payloads of sealed records are kept at hand. The oldest go.
    pub fn set_cache_cap(&mut self, cap: usize)
        requires
            old(self).wf(),
        ensures
            final(self).wf(),
            final(self).cache_cap == cap,
            final(self).cache@ == last_of(old(self).cache@, cap as nat),
            final(self).same_but_cache(*old(self)),
            final(self).cold_cache@ == old(self).cold_cache@,
            final(self).cold_cache_cap == old(self).cold_cache_cap,
    {
        self.cache_cap = cap;
        trim_front(&mut self.cache, cap);
    }

    /// Changes how many payloads read from the cold tier are kept at hand. The
    /// oldest go.
    pub fn set_cold_cache_cap(&mut self, cap: usize)
        requires
            old(self).wf(),
        ensures
            final(self).wf(),
            final(self).cold_cache_cap == cap,
            final(self).cold_cache@ == last_of(old(self).cold_cache@, cap as nat),
            final(self).same_but_cache(*old(self)),
            final(self).cache@ == old(self).cache@,
            final(self).cache_cap == old(self).cache_cap,
    {
        self.cold_cache_cap = cap;
        trim_front(&mut self.cold_cache, cap);
    }

    /// The settings are the same.
    pub open spec fn same_settings(&self, o: SegmentWriter) -> bool {
        &&& self.cfg == o.cfg
        &&& self.has_cold == o.has_cold
        &&& self.cache_cap == o.cache_cap
        &&& self.cold_cache_cap == o.cold_cache_cap
        &&& self.evict_resident == o.evict_resident
    }

    /// Nothing but the caches differs.
    pub open spec fn same_but_cache(&self, o: SegmentWriter) -> bool {
        &&& self.cfg == o.cfg
        &&& self.has_cold == o.has_cold
        &&& self.active == o.active
        &&& self.sealed == o.sealed
        &&& self.cold_reads == o.cold_reads
        &&& self.evict_resident == o.evict_resident
    }

    /// Whether payloads leave memory once they are sealed.
    pub fn evicts_resident(&self) -> (r: bool)
        ensures
            r == self.evict_resident,
    {
        self.evict_resident
    }

    /// Sets whether payloads leave memory once they are sealed.
    pub fn set_evict_resident(&mut self, on: bool)
        requires
            old(self).wf(),
        ensures
            final(self).wf(),
            *final(self) == (SegmentWriter { evict_resident: on, ..*old(self) }),
    {
        self.evict_resident = on;
    }

    /// The open segment is too old.
    pub open spec fn aged(&self, now: i64) -> bool {
        self.active is Some && self.cfg.max_age_ms > 0 && now - self.active->0.started_ms
            >= self.cfg.max_age_ms
    }

    /// The open segment is full, or too old.
    pub open spec fn is_due(&self, now: i64) -> bool {
        self.active is Some && {
            ||| self.active->0.records@.len() >= self.cfg.max_events
            ||| self.cfg.max_bytes > 0 && self.active->0.data_len >= self.cfg.max_bytes
            ||| self.aged(now)
        }
    }

    /// Whether the open segment is to be sealed before the next record.
    pub fn should_seal_before(&self, now: i64) -> (r: bool)
        ensures
            r == self.is_due(now),
    {
        match &self.active {
            Some(a) => {
                if a.records.len() as u64 >= self.cfg.max_events {
                    return true;
                }
                if self.cfg.max_bytes > 0 && a.data_len >= self.cfg.max_bytes {
                    return true;
                }
                self.cfg.max_age_ms > 0 && (now as i128) - (a.started_ms as i128)
                    >= self.cfg.max_age_ms as i128
            },
            None => false,
        }
    }

    /// Whether the open segment is to be sealed though no record comes.
    pub fn should_seal_idle(&self, now: i64) -> (r: bool)
        ensures
            r == self.aged(now),
    {
        match &self.active {
            Some(a) => self.cfg.max_age_ms > 0 && (now as i128) - (a.started_ms as i128)
                >= self.cfg.max_age_ms as i128,
            None => false,
        }
    }

    /// Puts a record into the open segment, and opens one where there is none.
    pub fn append_record(&mut self, seq: u64, ts: i64, blob: String, frame_len: u64)
        requires
            old(self).wf(),
            seq < u64::MAX,
            old(self).active is Some ==> seq == old(self).active->0.end() + 1,
            forall|i: int|
                0 <= i < old(self).sealed@.len() ==> (#[trigger] old(self).sealed@[i]).end_seq
                    < seq,
        ensures
            final(self).wf(),
            final(self).sealed@ == old(self).sealed@,
            final(self).cache@ == old(self).cache@,
            final(self).cold_cache@ == old(self).cold_cache@,
            final(self).same_settings(*old(self)),
            final(self).cold_reads == old(self).cold_reads,
            final(self).active is Some,
            old(self).active is Some ==> {
                &&& final(self).active->0.start_seq == old(self).active->0.start_seq
                &&& final(self).active->0.started_ms == old(self).active->0.started_ms
                &&& final(self).active->0.records@ == old(self).active->0.records@.push(
                    OpenRecord { seq, blob },
                )
                &&& final(self).active->0.data_len == sat_add(
                    old(self).active->0.data_len,
                    frame_len,
                )
            },
            old(self).active is None ==> {
                &&& final(self).active->0.start_seq == seq
                &&& final(self).active->0.started_ms == ts
                &&& final(self).active->0.records@ == seq![OpenRecord { seq, blob }]
                &&& final(self).active->0.data_len == frame_len
            },
    {
        let mut active: Option<OpenSegment> = None;
        std::mem::swap(&mut self.active, &mut active);
        match active {
            Some(a) => {
                let mut a = a;
                a.records.push(OpenRecord { seq, blob });
                a.data_len = a.data_len.saturating_add(frame_len);
                self.active = Some(a);
            },
            None => {
                let mut records: Vec<OpenRecord> = Vec::new();
                records.push(OpenRecord { seq, blob });
                assert(records@ =~= seq![OpenRecord { seq, blob }]);
                self.active = Some(
                    OpenSegment { start_seq: seq, records, data_len: frame_len, started_ms: ts },
                );
            },
        }
    }

    /// Closes the open segment and hands it out, to be stored.
    pub fn take_active(&mut self) -> (r: Option<OpenSegment>)
        requires
            old(self).wf(),
        ensures
            final(self).wf(),
            r == old(self).active,
            *final(self) == (SegmentWriter { active: None, ..*old(self) }),
    {
        let mut active: Option<OpenSegment> = None;
        std::mem::swap(&mut self.active, &mut active);
        active
    }

    /// Registers a segment that was closed and stored, keeps its payloads at hand,
    /// and names its records. One that could not be stored is not registered.
    pub fn seal_active(&mut self, seg: OpenSegment, outcome: SealOutcome) -> (r: Vec<u64>)
        requires
            old(self).wf(),
            old(self).active is None,
            seg.wf(),
            forall|i: int|
                0 <= i < old(self).sealed@.len() ==> (#[trigger] old(self).sealed@[i]).end_seq
                    < seg.start_seq,
        ensures
            final(self).wf(),
            final(self).active is None,
            final(self).same_settings(*old(self)),
            final(self).cold_reads == old(self).cold_reads,
            final(self).cold_cache@ == old(self).cold_cache@,
            outcome == SealOutcome::Failed ==> {
                &&& r@.len() == 0
                &&& final(self).sealed@ == old(self).sealed@
                &&& final(self).cache@ == old(self).cache@
            },
            outcome != SealOutcome::Failed ==> {
                &&& r@ == seg.records@.map_values(|x: OpenRecord| x.seq)
                &&& final(self).sealed@ == old(self).sealed@.push(
                    SealedSegment {
                        start_seq: seg.start_seq,
                        end_seq: seg.end(),
                        data_len: seg.data_len,
                        tier: match outcome {
                            SealOutcome::Found(t) => t,
                            _ => Tier::Hot,
                        },
                    },
                )
                &&& exists|new: Seq<CachedPayload>|
                    #![trigger old(self).cache@ + new]
                    new.len() == seg.records@.len() && (forall|i: int|
                        0 <= i < new.len() ==> reads_as(#[trigger] new[i], seg.records@[i]))
                        && final(self).cache@ == last_of(
                        old(self).cache@ + new,
                        old(self).cache_cap as nat,
                    )
            },
    {
        let tier = match outcome {
            SealOutcome::Found(t) => t,
            SealOutcome::Stored => Tier::Hot,
            SealOutcome::Failed => {
                return Vec::new();
            },
        };
        let n: usize = seg.records.len();
        let end_seq: u64 = seg.start_seq + (n - 1) as u64;
        let ghost sealed0 = self.sealed@;
        self.sealed.push(
            SealedSegment { start_seq: seg.start_seq, end_seq, data_len: seg.data_len, tier },
        );
        let ghost cache0 = self.cache@;
        let ghost mut new: Seq<CachedPayload> = Seq::empty();
        let mut seqs: Vec<u64> = Vec::new();
        let mut i: usize = 0;
        assert(cache0 + new =~= cache0);
        while i < n
            invariant
                i <= n,
                n == seg.records@.len(),
                seqs@ == seg.records@.map_values(|x: OpenRecord| x.seq).take(i as int),
                new.len() == i,
                forall|k: int| 0 <= k < i ==> reads_as(#[trigger] new[k], seg.records@[k]),
                self.cache@ == last_of(cache0 + new, self.cache_cap as nat),
                self.same_settings(*old(self)),
                self.cold_reads == old(self).cold_reads,
                self.active is None,
                self.cold_cache@ == old(self).cold_cache@,
                self.sealed@ == sealed0.push(
                    SealedSegment {
                        start_seq: seg.start_seq,
                        end_seq,
                        data_len: seg.data_len,
                        tier,
                    },
                ),
            decreases n - i,
        {
            let r = &seg.records[i];
            seqs.push(r.seq);
            assert(seqs@ =~= seg.records@.map_values(|x: OpenRecord| x.seq).take(i + 1));
            let (data, meta) = decode_payload(r.blob.as_str());
            let c = CachedPayload { seq: r.seq, data, meta };
            self.cache.push(c);
            let cap: usize = self.cache_cap;
            trim_front(&mut self.cache, cap);
            proof {
                assert(reads_as(c, seg.records@[i as int]));
                last_of_push(cache0 + new, c, cap as nat);
                assert((cache0 + new).push(c) =~= cache0 + new.push(c));
                new = new.push(c);
            }
            i += 1;
        }
        proof {
            assert(seg.records@.map_values(|x: OpenRecord| x.seq).take(i as int)
                =~= seg.records@.map_values(|x: OpenRecord| x.seq));
            assert(cache0 + new == old(self).cache@ + new);
            assert(in_line(self.sealed@)) by {
                let s = self.sealed@;
                assert forall|a: int, b: int| 0 <= a < b < s.len() implies (
                #[trigger] s[a]).end_seq < (#[trigger] s[b]).start_seq by {
                    if b == sealed0.len() {
                        assert(s[a] == sealed0[a]);
                    } else {
                        assert(s[a] == sealed0[a] && s[b] == sealed0[b]);
                    }
                }
            }
        }
        seqs
    }

    /// How the payload of a record is got: from memory where it is at hand, else
    /// from its segment.
    pub fn resolve_sealed_fast(&self, seq: u64) -> (r: SealedResolve)
        requires
            self.wf(),
        ensures
            ({
                let hot = cached(self.cache@, seq);
                let cold = cached(self.cold_cache@, seq);
                let hit = if hot is Some {
                    hot
                } else {
                    cold
                };
                match r {
                    SealedResolve::Hit(p) => hit is Some && p.data == hit->0.data && p.meta
                        == hit->0.meta,
                    SealedResolve::Read(loc) => hit is None && loc.seq == seq && holds(
                        loc.seg,
                        seq,
                    ) && self.sealed@.contains(loc.seg),
                    SealedResolve::NotSealed => hit is None && forall|i: int|
                        0 <= i < self.sealed@.len() ==> !holds(#[trigger] self.sealed@[i], seq),
                }
            }),
    {
        match find_cached(&self.cache, seq) {
            Some(i) => {
                let c = &self.cache[i];
                return SealedResolve::Hit(
                    ResolvedPayload { data: copy_json(&c.data), meta: copy_json(&c.meta) },
                );
            },
            None => {},
        }
        match find_cached(&self.cold_cache, seq) {
            Some(i) => {
                let c = &self.cold_cache[i];
                return SealedResolve::Hit(
                    ResolvedPayload { data: copy_json(&c.data), meta: copy_json(&c.meta) },
                );
            },
            None => {},
        }
        match self.segment_for(seq) {
            Some(seg) => SealedResolve::Read(SealedLocator { seg, seq }),
            None => SealedResolve::NotSealed,
        }
    }

    /// Keeps a payload that was read from the cold tier at hand, and counts the
    /// read.
    pub fn record_cold_read(&mut self, loc: &SealedLocator, p: &ResolvedPayload)
        requires
            old(self).wf(),
        ensures
            final(self).wf(),
            final(self).sealed@ == old(self).sealed@,
            final(self).active == old(self).active,
            final(self).cache@ == old(self).cache@,
            final(self).same_settings(*old(self)),
            loc.seg.tier == Tier::Hot ==> final(self).cold_cache@ == old(self).cold_cache@
                && final(self).cold_reads == old(self).cold_reads,
            loc.seg.tier == Tier::Cold ==> {
                &&& final(self).cold_reads == sat_add(old(self).cold_reads, 1)
                &&& final(self).cold_cache@ == last_of(
                    old(self).cold_cache@.push(
                        CachedPayload { seq: loc.seq, data: p.data, meta: p.meta },
                    ),
                    old(self).cold_cache_cap as nat,
                )
            },
    {
        if loc.is_cold() {
            self.cold_reads = self.cold_reads.saturating_add(1);
            self.cold_cache.push(
                CachedPayload {
                    seq: loc.seq,
                    data: copy_json(&p.data),
                    meta: copy_json(&p.meta),
                },
            );
            let cap: usize = self.cold_cache_cap;
            trim_front(&mut self.cold_cache, cap);
        }
    }

    /// How many records were read from the cold tier.
    pub fn cold_reads(&self) -> (r: u64)
        ensures
            r == self.cold_reads,
    {
        self.cold_reads
    }

    /// Whether a record lies in a sealed segment.
    pub fn is_sealed(&self, seq: u64) -> (r: bool)
        requires
            self.wf(),
        ensures
            r == (exists|i: int|
                0 <= i < self.sealed@.len() && holds(#[trigger] self.sealed@[i], seq)),
    {
        self.segment_for(seq).is_some()
    }

    /// The sealed segment that holds a sequence number.
    pub fn segment_for(&self, seq: u64) -> (r: Option<SealedSegment>)
        requires
            self.wf(),
        ensures
            match r {
                Some(s) => self.sealed@.contains(s) && holds(s, seq),
                None => forall|i: int|
                    0 <= i < self.sealed@.len() ==> !holds(#[trigger] self.sealed@[i], seq),
            },
    {
        let mut lo: usize = 0;
        let mut hi: usize = self.sealed.len();
        while lo < hi
            invariant
                self.wf(),
                lo <= hi <= self.sealed@.len(),
                forall|j: int| 0 <= j < lo ==> (#[trigger] self.sealed@[j]).start_seq <= seq,
                forall|j: int|
                    hi <= j < self.sealed@.len() ==> seq < (#[trigger] self.sealed@[j]).start_seq,
            decreases hi - lo,
        {
            let mid: usize = lo + (hi - lo) / 2;
            if self.sealed[mid].start_seq <= seq {
                proof {
                    assert forall|j: int| 0 <= j < mid + 1 implies (
                    #[trigger] self.sealed@[j]).start_seq <= seq by {
                        if j < mid {
                            assert(self.sealed@[j].end_seq < self.sealed@[mid as int].start_seq);
                        }
                    }
                }
                lo = mid + 1;
            } else {
                proof {
                    assert forall|j: int| mid <= j < self.sealed@.len() implies seq < (
                    #[trigger] self.sealed@[j]).start_seq by {
                        if j > mid {
                            assert(self.sealed@[mid as int].end_seq < self.sealed@[j].start_seq);
                        }
                    }
                }
                hi = mid;
            }
        }
        if lo == 0 {
            return None;
        }
        let s = self.sealed[lo - 1];
        if seq <= s.end_seq {
            assert(self.sealed@.contains(s));
            Some(s)
        } else {
            proof {
                assert forall|i: int| 0 <= i < self.sealed@.len() implies !holds(
                    #[trigger] self.sealed@[i],
                    seq,
                ) by {
                    if i < lo - 1 {
                        assert(self.sealed@[i].end_seq < self.sealed@[lo - 1].start_seq);
                    }
                }
            }
            None
        }
    }

    /// How many segments are sealed.
    pub fn sealed_count(&self) -> (r: usize)
        ensures
            r == self.sealed@.len(),
    {
        self.sealed.len()
    }

    /// The sealed segments, the oldest first.
    pub fn sealed_segments(&self) -> (r: Vec<SealedSegment>)
        ensures
            r@ == self.sealed@,
    {
        let mut out: Vec<SealedSegment> = Vec::new();
        let mut i: usize = 0;
        while i < self.sealed.len()
            invariant
                i <= self.sealed@.len(),
                out@ == self.sealed@.take(i as int),
            decreases self.sealed@.len() - i,
        {
            out.push(self.sealed[i]);
            assert(out@ =~= self.sealed@.take(i + 1));
            i += 1;
        }
        assert(self.sealed@.take(i as int) =~= self.sealed@);
        out
    }

    /// The first sequence number of the open segment.
    pub fn active_start(&self) -> (r: Option<u64>)
        ensures
            r == (match self.active {
                Some(a) => Some(a.start_seq),
                None => None,
            }),
    {
        match &self.active {
            Some(a) => Some(a.start_seq),
            None => None,
        }
    }

    /// How many records the open segment holds.
    pub fn active_record_count(&self) -> (r: usize)
        ensures
            r == (match self.active {
                Some(a) => a.records@.len(),
                None => 0,
            }),
    {
        match &self.active {
            Some(a) => a.records.len(),
            None => 0,
        }
    }

    /// How many payloads of sealed records are at hand.
    pub fn cache_len(&self) -> (r: usize)
        ensures
            r == self.cache@.len(),
    {
        self.cache.len()
    }

    /// How many payloads read from the cold tier are at hand.
    pub fn cold_cache_len(&self) -> (r: usize)
        ensures
            r == self.cold_cache@.len(),
    {
        self.cold_cache.len()
    }

    /// The place from which on segments stay in the hot tier: the newest ones, as
    /// far as their number and their size allow.
    pub open spec fn keep_from(&self) -> int {
        let n = self.sealed@.len() as int;
        let by_count = if n > self.cfg.hot_retain_segments {
            n - self.cfg.hot_retain_segments
        } else {
            0
        };
        let by_size = if self.cfg.hot_retain_bytes > 0 {
            fits_from(self.sealed@, n, self.cfg.hot_retain_bytes)
        } else {
            0
        };
        if by_count > by_size {
            by_count
        } else {
            by_size
        }
    }

    /// The segments to be moved to the cold tier, the oldest first, with their
    /// sizes. There are none without a cold tier.
    pub fn relocation_plan(&self) -> (r: Vec<(u64, u64)>)
        requires
            self.wf(),
        ensures
            !self.has_cold ==> r@.len() == 0,
            self.has_cold ==> r@ == planned(self.sealed@, self.keep_from()),
    {
        let mut out: Vec<(u64, u64)> = Vec::new();
        if !self.has_cold {
            return out;
        }
        let n: usize = self.sealed.len();
        let mut keep: usize = if n as u64 > self.cfg.hot_retain_segments {
            (n as u64 - self.cfg.hot_retain_segments) as usize
        } else {
            0
        };
        if self.cfg.hot_retain_bytes > 0 {
            let mut kept: u64 = 0;
            let mut i: usize = n;
            let mut open = true;
            while i > 0 && open
                invariant
                    i <= n,
                    n == self.sealed@.len(),
                    kept == size_from(self.sealed@, i as int),
                    open ==> fits_from(self.sealed@, n as int, self.cfg.hot_retain_bytes)
                        == fits_from(self.sealed@, i as int, self.cfg.hot_retain_bytes),
                    !open ==> fits_from(self.sealed@, n as int, self.cfg.hot_retain_bytes) == i,
                decreases i, open as int,
            {
                let next: u64 = kept.saturating_add(self.sealed[i - 1].data_len);
                if next > self.cfg.hot_retain_bytes {
                    open = false;
                } else {
                    kept = next;
                    i = i - 1;
                }
            }
            if i > keep {
                keep = i;
            }
        }
        assert(keep == self.keep_from());
        let mut k: usize = 0;
        proof {
            fits_from_within(self.sealed@, n as int, self.cfg.hot_retain_bytes);
        }
        while k < keep
            invariant
                k <= keep <= self.sealed@.len(),
                out@ == planned(self.sealed@, k as int),
            decreases keep - k,
        {
            if self.sealed[k].tier == Tier::Hot {
                out.push((self.sealed[k].start_seq, self.sealed[k].data_len));
            }
            k += 1;
        }
        out
    }

    /// Notes that a segment lies in the cold tier now, and lets go of its payloads.
    /// Says whether its hot copy can go. A segment that is unknown, or in the cold
    /// tier already, stays as it is.
    pub fn confirm_relocated(&mut self, id: u64) -> (r: bool)
        requires
            old(self).wf(),
        ensures
            final(self).wf(),
            final(self).active == old(self).active,
            final(self).same_settings(*old(self)),
            final(self).cold_reads == old(self).cold_reads,
            final(self).cold_cache@ == old(self).cold_cache@,
            match place_of(old(self).sealed@, id) {
                Some(i) => if old(self).sealed@[i].tier == Tier::Hot {
                    &&& r
                    &&& final(self).sealed@ == old(self).sealed@.update(
                        i,
                        SealedSegment { tier: Tier::Cold, ..old(self).sealed@[i] },
                    )
                    &&& final(self).cache@ == outside(
                        old(self).cache@,
                        old(self).sealed@[i].start_seq,
                        old(self).sealed@[i].end_seq,
                    )
                } else {
                    !r && *final(self) == *old(self)
                },
                None => !r && *final(self) == *old(self),
            },
    {
        let i: usize = match self.find_segment(id) {
            Some(i) => i,
            None => {
                return false;
            },
        };
        let s = self.sealed[i];
        if s.tier == Tier::Cold {
            return false;
        }
        let ghost s0 = self.sealed@;
        self.sealed.set(
            i,
            SealedSegment {
                start_seq: s.start_seq,
                end_seq: s.end_seq,
                data_len: s.data_len,
                tier: Tier::Cold,
            },
        );
        let ghost c0 = self.cache@;
        drop_range(&mut self.cache, s.start_seq, s.end_seq);
        proof {
            outside_is_shorter(c0, s.start_seq, s.end_seq);
            assert(in_line(self.sealed@)) by {
                let t = self.sealed@;
                assert forall|a: int, b: int| 0 <= a < b < t.len() implies (
                #[trigger] t[a]).end_seq < (#[trigger] t[b]).start_seq by {
                    assert(s0[a].end_seq < s0[b].start_seq);
                }
            }
        }
        true
    }

    fn find_segment(&self, id: u64) -> (r: Option<usize>)
        requires
            self.wf(),
        ensures
            match r {
                Some(i) => i < self.sealed@.len() && place_of(self.sealed@, id) == Some(i as int),
                None => place_of(self.sealed@, id) is None,
            },
            r is Some ==> self.sealed@[r->0 as int].start_seq == id,
            r is None ==> forall|i: int|
                0 <= i < self.sealed@.len() ==> (#[trigger] self.sealed@[i]).start_seq != id,
    {
        let mut i: usize = 0;
        while i < self.sealed.len()
            invariant
                self.wf(),
                i <= self.sealed@.len(),
                forall|j: int| 0 <= j < i ==> (#[trigger] self.sealed@[j]).start_seq != id,
            decreases self.sealed@.len() - i,
        {
            if self.sealed[i].start_seq == id {
                proof {
                    place_is(self.sealed@, id, i as int);
                }
                return Some(i);
            }
            i += 1;
        }
        None
    }

    /// Takes a segment out of the register, and lets go of its payloads. Says
    /// whether it was there.
    pub fn drop_segment(&mut self, id: u64) -> (r: bool)
        requires
            old(self).wf(),
        ensures
            final(self).wf(),
            final(self).active == old(self).active,
            final(self).same_settings(*old(self)),
            final(self).cold_reads == old(self).cold_reads,
            match place_of(old(self).sealed@, id) {
                Some(i) => {
                    let s = old(self).sealed@[i];
                    &&& r
                    &&& final(self).sealed@ == old(self).sealed@.remove(i)
                    &&& final(self).cache@ == outside(old(self).cache@, s.start_seq, s.end_seq)
                    &&& final(self).cold_cache@ == outside(
                        old(self).cold_cache@,
                        s.start_seq,
                        s.end_seq,
                    )
                },
                None => !r && *final(self) == *old(self),
            },
    {
        let i: usize = match self.find_segment(id) {
            Some(i) => i,
            None => {
                return false;
            },
        };
        let ghost s0 = self.sealed@;
        let s = self.sealed.remove(i);
        let ghost c0 = self.cache@;
        let ghost d0 = self.cold_cache@;
        drop_range(&mut self.cache, s.start_seq, s.end_seq);
        drop_range(&mut self.cold_cache, s.start_seq, s.end_seq);
        proof {
            outside_is_shorter(c0, s.start_seq, s.end_seq);
            outside_is_shorter(d0, s.start_seq, s.end_seq);
            assert(in_line(self.sealed@)) by {
                let t = self.sealed@;
                assert forall|a: int, b: int| 0 <= a < b < t.len() implies (
                #[trigger] t[a]).end_seq < (#[trigger] t[b]).start_seq by {
                    let x = if a < i {
                        a
                    } else {
                        a + 1
                    };
                    let y = if b < i {
                        b
                    } else {
                        b + 1
                    };
                    assert(s0[x].end_seq < s0[y].start_seq);
                }
            }
        }
        true
    }

    /// The sealed segments all of whose records lie below a floor, the oldest first.
    pub fn segments_below(&self, live_floor: u64) -> (r: Vec<u64>)
        requires
            self.wf(),
        ensures
            rising(r@),
            forall|id: u64| #[trigger]
                r@.contains(id) <==> exists|i: int|
                    0 <= i < self.sealed@.len() && (#[trigger] self.sealed@[i]).start_seq == id
                        && self.sealed@[i].end_seq < live_floor,
    {
        let mut out: Vec<u64> = Vec::new();
        let mut i: usize = 0;
        while i < self.sealed.len()
            invariant
                self.wf(),
                i <= self.sealed@.len(),
                rising(out@),
                i < self.sealed@.len() ==> forall|k: int|
                    0 <= k < out@.len() ==> #[trigger] out@[k] < self.sealed@[i as int].start_seq,
                forall|id: u64| #[trigger]
                    out@.contains(id) <==> exists|k: int|
                        0 <= k < i && (#[trigger] self.sealed@[k]).start_seq == id
                            && self.sealed@[k].end_seq < live_floor,
            decreases self.sealed@.len() - i,
        {
            let ghost o = out@;
            let s = self.sealed[i];
            if s.end_seq < live_floor {
                out.push(s.start_seq);
            }
            proof {
                if i + 1 < self.sealed@.len() {
                    assert(self.sealed@[i as int].end_seq < self.sealed@[i + 1].start_seq);
                }
                assert forall|id: u64| #[trigger] out@.contains(id) <==> exists|k: int|
                    0 <= k < i + 1 && (#[trigger] self.sealed@[k]).start_seq == id
                        && self.sealed@[k].end_seq < live_floor by {
                    if out@.contains(id) {
                        let m = choose|m: int| 0 <= m < out@.len() && out@[m] == id;
                        if m < o.len() {
                            assert(o[m] == id);
                            assert(o.contains(id));
                        } else {
                            assert(self.sealed@[i as int].start_seq == id);
                        }
                    }
                    if exists|k: int|
                        0 <= k < i + 1 && (#[trigger] self.sealed@[k]).start_seq == id
                            && self.sealed@[k].end_seq < live_floor {
                        let k = choose|k: int|
                            0 <= k < i + 1 && (#[trigger] self.sealed@[k]).start_seq == id
                                && self.sealed@[k].end_seq < live_floor;
                        if k < i {
                            assert(o.contains(id));
                            let m = choose|m: int| 0 <= m < o.len() && o[m] == id;
                            assert(out@[m] == id);
                        } else {
                            assert(out@[o.len() as int] == id);
                        }
                    }
                }
            }
            i += 1;
        }
        out
    }

    /// Of the segments that lie in the stores, those below a floor that are not
    /// registered: nothing of them can be read any more. Ascending, each once.
    pub fn reclaim_orphans_below(&self, stored: &Vec<u64>, live_floor: u64) -> (r: Vec<u64>)
        requires
            self.wf(),
        ensures
            rising(r@),
            forall|id: u64| #[trigger]
                r@.contains(id) <==> stored@.contains(id) && id < live_floor && place_of(
                    self.sealed@,
                    id,
                ) is None,
    {
        let mut out = SeqSet::new();
        let mut i: usize = 0;
        while i < stored.len()
            invariant
                self.wf(),
                out.wf(),
                i <= stored@.len(),
                forall|id: u64| #[trigger]
                    out@.contains(id) <==> stored@.take(i as int).contains(id) && id < live_floor
                        && place_of(self.sealed@, id) is None,
            decreases stored@.len() - i,
        {
            let id: u64 = stored[i];
            proof {
                let a = stored@.take(i as int);
                let b = stored@.take(i + 1);
                assert forall|x: u64| b.contains(x) <==> a.contains(x) || x == id by {
                    if a.contains(x) {
                        let m = choose|m: int| 0 <= m < a.len() && a[m] == x;
                        assert(b[m] == x);
                    }
                    if b.contains(x) {
                        let m = choose|m: int| 0 <= m < b.len() && b[m] == x;
                        if m < i {
                            assert(a[m] == x);
                        }
                    }
                    assert(b[i as int] == id);
                }
            }
            if id < live_floor && self.find_segment(id).is_none() {
                let _ = out.insert(id);
            }
            i += 1;
        }
        proof {
            assert(stored@.take(i as int) =~= stored@);
        }
        let r = out.into_list();
        proof {
            assert forall|id: u64| #[trigger] r@.contains(id) <==> stored@.contains(id) && id
                < live_floor && place_of(self.sealed@, id) is None by {
                assert(r@.contains(id) <==> r@.to_set().contains(id));
            }
        }
        r
    }
}

/// The place of the segment that goes by `id`.
pub open spec fn place_of(s: Seq<SealedSegment>, id: u64) -> Option<int> {
    if exists|i: int| 0 <= i < s.len() && (#[trigger] s[i]).start_seq == id {
        Some(choose|i: int| 0 <= i < s.len() && (#[trigger] s[i]).start_seq == id)
    } else {
        None
    }
}

proof fn place_is(s: Seq<SealedSegment>, id: u64, i: int)
    requires
        in_line(s),
        0 <= i < s.len(),
        s[i].start_seq == id,
    ensures
        place_of(s, id) == Some(i),
{
    let j = choose|j: int| 0 <= j < s.len() && (#[trigger] s[j]).start_seq == id;
    assert(0 <= j < s.len() && s[j].start_seq == id);
    if i < j {
        assert(s[i].end_seq < s[j].start_seq);
    } else if j < i {
        assert(s[j].end_seq < s[i].start_seq);
    }
}

/// The hot segments among the first `n`, with their sizes.
pub open spec fn planned(s: Seq<SealedSegment>, n: int) -> Seq<(u64, u64)>
    decreases n,
{
    if n <= 0 {
        Seq::empty()
    } else if s[n - 1].tier == Tier::Hot {
        planned(s, n - 1).push((s[n - 1].start_seq, s[n - 1].data_len))
    } else {
        planned(s, n - 1)
    }
}

proof fn fits_from_within(s: Seq<SealedSegment>, i: int, bytes: u64)
    requires
        0 <= i <= s.len(),
    ensures
        0 <= fits_from(s, i, bytes) <= i,
    decreases i,
{
    if i > 0 && size_from(s, i - 1) <= bytes {
        fits_from_within(s, i - 1, bytes);
    }
}

proof fn last_of_push<T>(s: Seq<T>, x: T, n: nat)
    ensures
        last_of(last_of(s, n).push(x), n) == last_of(s.push(x), n),
{
    assert(last_of(last_of(s, n).push(x), n) =~= last_of(s.push(x), n));
}

proof fn outside_is_shorter(s: Seq<CachedPayload>, start: u64, end: u64)
    ensures
        outside(s, start, end).len() <= s.len(),
    decreases s.len(),
{
    reveal(Seq::filter);
    if s.len() > 0 {
        outside_is_shorter(s.drop_last(), start, end);
    }
}

/// A payload that is at hand is let go of with its segment: afterwards it is read
/// from where the segment lies, or not at all.
pub proof fn dropped_payloads_are_not_at_hand(
    s: Seq<CachedPayload>,
    start: u64,
    end: u64,
    seq: u64,
)
    requires
        start <= seq <= end,
    ensures
        cached(outside(s, start, end), seq) is None,
    decreases s.len(),
{
    reveal(Seq::filter);
    if s.len() > 0 {
        let p = |c: CachedPayload| c.seq < start || c.seq > end;
        dropped_payloads_are_not_at_hand(s.drop_last(), start, end, seq);
        if p(s.last()) {
            let o = outside(s, start, end);
            assert(o.drop_last() =~= outside(s.drop_last(), start, end));
        }
    }
}

/// Moving segments on makes the plan empty: what was moved is not moved again.
pub proof fn moved_segments_are_not_planned(s: Seq<SealedSegment>, n: int)
    requires
        0 <= n <= s.len(),
        forall|i: int| 0 <= i < n ==> (#[trigger] s[i]).tier == Tier::Cold,
    ensures
        planned(s, n).len() == 0,
    decreases n,
{
    if n > 0 {
        moved_segments_are_not_planned(s, n - 1);
    }
}

} // verus!
