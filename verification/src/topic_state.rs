//! One topic: its slots, its floors, and what happens to them.
use crate::eviction::{after, larger, max64, min64, sat_sub, smaller, Floors};
use crate::names::{take_one_more, NameMap};
use crate::text::texts;
use crate::publish::{next_ticket, PublishGate};
use crate::queue::{fresh_queue, QueueProjection, QueueView};
use crate::seqs::rising;
use crate::topic_index::{bytes_in, deleted_hole, erase_sums, hole, live_in, live_at_most_len,
    matching, run_sums_add, StoredRecord, TopicIndex};
use crate::types::{Filter, TopicConfig, TopicType};
use vstd::prelude::*;

verus! {

/// What is remembered of a keyed write, so that its retry is recognised.
#[derive(Debug)]
pub struct DedupeEntry {
    pub seqs: Vec<u64>,
    pub head_seq: u64,
    pub created_ms: i64,
}

/// What is remembered of a keyed write.
pub ghost struct DedupeView {
    pub seqs: Seq<u64>,
    pub head_seq: u64,
    pub created_ms: i64,
}

impl View for DedupeEntry {
    type V = DedupeView;

    open spec fn view(&self) -> DedupeView {
        DedupeView { seqs: self.seqs@, head_seq: self.head_seq, created_ms: self.created_ms }
    }
}

/// The time of something that never happened.
pub const TS_NEVER: i64 = i64::MIN;

/// The time, unless it never happened.
pub fn read_ts(value: i64) -> (r: Option<i64>)
    ensures
        r == (if value == TS_NEVER {
            None
        } else {
            Some(value)
        }),
{
    if value == TS_NEVER {
        None
    } else {
        Some(value)
    }
}

/// How far retention moved the floors, and whether the move must be logged before
/// it counts: the caps by count can be derived again, age and size cannot.
#[derive(Debug, Clone, Copy, PartialEq, Eq, Structural)]
pub struct RetentionAdvance {
    pub floor_advanced: bool,
    pub durable_advance: bool,
    pub evict_floor: u64,
    pub expiry_floor: u64,
    pub bytes_reclaimed: u64,
}

/// Nothing moved.
pub open spec fn no_advance() -> RetentionAdvance {
    RetentionAdvance {
        floor_advanced: false,
        durable_advance: false,
        evict_floor: 0,
        expiry_floor: 0,
        bytes_reclaimed: 0,
    }
}

impl RetentionAdvance {
    /// Nothing moved.
    pub fn none() -> (r: RetentionAdvance)
        ensures
            r == no_advance(),
    {
        RetentionAdvance {
            floor_advanced: false,
            durable_advance: false,
            evict_floor: 0,
            expiry_floor: 0,
            bytes_reclaimed: 0,
        }
    }
}

/// What a deletion removed.
#[derive(Debug, Clone, Copy, PartialEq, Eq, Structural)]
pub struct DeleteStats {
    pub deleted: u64,
    pub bytes_freed: u64,
}

/// A run of records that is written but cannot be read yet.
#[derive(Debug)]
pub struct StagedAppend {
    pub start: u64,
    pub count: u64,
    pub added_bytes: u64,
    pub pre_len: usize,
}

/// The numbers from `start`, `count` of them.
pub open spec fn run(start: u64, count: u64) -> Seq<u64> {
    Seq::new(count as nat, |i: int| (start + i) as u64)
}

impl StagedAppend {
    /// The run fits the sequence space.
    pub open spec fn fits(self) -> bool {
        self.start + self.count <= u64::MAX
    }

    /// The head once the run is published, `0` for an empty run.
    pub open spec fn top(self) -> u64 {
        if self.count == 0 {
            0
        } else {
            (self.start + self.count - 1) as u64
        }
    }

    /// An empty run.
    pub fn empty() -> (r: StagedAppend)
        ensures
            r == (StagedAppend { start: 0, count: 0, added_bytes: 0, pre_len: 0 }),
    {
        StagedAppend { start: 0, count: 0, added_bytes: 0, pre_len: 0 }
    }

    /// Whether the run is empty.
    pub fn is_empty(&self) -> (r: bool)
        ensures
            r == (self.count == 0),
    {
        self.count == 0
    }

    /// The sequence numbers of the run.
    pub fn seqs(&self) -> (r: Vec<u64>)
        requires
            self.fits(),
        ensures
            r@ == run(self.start, self.count),
    {
        let mut out: Vec<u64> = Vec::new();
        let mut i: u64 = 0;
        while i < self.count
            invariant
                self.fits(),
                i <= self.count,
                out@ == run(self.start, i),
            decreases self.count - i,
        {
            out.push(self.start + i);
            assert(out@ =~= run(self.start, (i + 1) as u64));
            i += 1;
        }
        out
    }

    /// The head once the run is published, `0` for an empty run.
    pub fn publish_head(&self) -> (r: u64)
        requires
            self.fits(),
        ensures
            r == self.top(),
    {
        if self.count == 0 {
            0
        } else {
            self.start + (self.count - 1)
        }
    }
}

/// A number, or the largest there is.
pub open spec fn cap64(n: nat) -> u64 {
    if n > u64::MAX {
        u64::MAX
    } else {
        n as u64
    }
}

/// The first place from `i` on that holds no deleted record.
pub open spec fn dead_run(recs: Seq<StoredRecord>, i: int) -> int
    decreases recs.len() - i,
{
    if 0 <= i < recs.len() && recs[i].deleted {
        dead_run(recs, i + 1)
    } else {
        i
    }
}

/// The first place from `i` on that holds a record no older than `ttl_ms`.
pub open spec fn aged_run(recs: Seq<StoredRecord>, ttl_ms: u64, now: i64, i: int) -> int
    decreases recs.len() - i,
{
    if 0 <= i < recs.len() && now - recs[i].ts > ttl_ms {
        aged_run(recs, ttl_ms, now, i + 1)
    } else {
        i
    }
}

/// The first place from `i` on before which `over` bytes are shed, or the end.
pub open spec fn shed_run(recs: Seq<StoredRecord>, i: int, over: u64) -> int
    decreases recs.len() - i,
{
    if 0 <= i < recs.len() && over > 0 {
        shed_run(recs, i + 1, sat_sub(over, recs[i].bytes))
    } else {
        i
    }
}

/// The records with those of a set deleted.
pub open spec fn erase_set(
    base: u64,
    recs: Seq<StoredRecord>,
    victims: Set<u64>,
) -> Seq<StoredRecord> {
    Seq::new(
        recs.len(),
        |i: int|
            if victims.contains((base + i) as u64) && !recs[i].deleted {
                recs[i].erased()
            } else {
                recs[i]
            },
    )
}

/// The state of a topic.
pub ghost struct TopicView {
    pub name: Seq<char>,
    pub topic_id: u64,
    pub config: TopicConfig,
    /// The slots, from `base` on.
    pub base: u64,
    pub recs: Seq<StoredRecord>,
    /// Everything below was deleted.
    pub delete_below: u64,
    pub floors: Floors,
    pub dedupe: Map<Seq<char>, DedupeView>,
    /// The last sequence number that can be read.
    pub head: u64,
    /// No sequence number up to here is ever given out again.
    pub reserved: u64,
    pub seq_base: u64,
    pub epoch: u64,
    /// Size and number of the records that can be read.
    pub bytes: u64,
    pub live: u64,
    pub last_write: i64,
    pub last_read: i64,
    pub last_consumed: i64,
    pub queue: Option<QueueView>,
    /// The next publish ticket, and whose turn it is.
    pub next_ticket: u64,
    pub turn: u64,
}

impl TopicView {
    /// The first sequence number without a slot.
    pub open spec fn tail(self) -> int {
        self.base + self.recs.len()
    }

    /// There is a slot for `seq`.
    pub open spec fn has(self, seq: u64) -> bool {
        self.base <= seq < self.base + self.recs.len()
    }

    /// The record in the slot for `seq`.
    pub open spec fn rec(self, seq: u64) -> StoredRecord {
        self.recs[seq - self.base]
    }

    /// The slot for `seq` holds a live record.
    pub open spec fn has_live(self, seq: u64) -> bool {
        self.has(seq) && !self.rec(seq).deleted
    }

    /// The sequence numbers of the live records.
    pub open spec fn live_set(self) -> Set<u64> {
        Set::new(|s: u64| self.has_live(s))
    }

    /// The slots reach just beyond the head or further, within the sequence space,
    /// and the floors cover what was deleted.
    pub open spec fn ok(self) -> bool {
        &&& self.seq_base >= 1
        &&& self.head < self.tail() <= u64::MAX
        &&& sat_sub(self.delete_below, 1) <= self.floors.delete_floor
        &&& forall|i: int| 0 <= i < self.recs.len() ==> (#[trigger] self.recs[i]).ok()
        &&& self.queue is Some <==> self.config.topic_type == TopicType::Queue
    }

    /// Nothing is staged, and number and size are those of the slots.
    pub open spec fn settled(self) -> bool {
        &&& self.tail() == self.head + 1
        &&& self.live == live_in(self.recs)
        &&& self.bytes == bytes_in(self.recs)
    }

    /// There is room for `n` more records of `bytes` bytes in all.
    pub open spec fn room(self, n: nat, bytes: nat) -> bool {
        &&& self.tail() + n <= u64::MAX
        &&& self.live + n <= u64::MAX
        &&& self.bytes + bytes <= u64::MAX
    }

    /// The first sequence number that can be read.
    pub open spec fn earliest(self) -> u64 {
        min64(
            max64(self.floors.earliest(self.seq_base, self.head), self.base),
            after(self.head),
        )
    }

    /// The first sequence number above involuntary loss.
    pub open spec fn first_kept(self) -> u64 {
        self.floors.first_kept(self.seq_base, self.head)
    }

    /// The floor of age that retention calls for.
    pub open spec fn expiry_plan(self, now: i64) -> u64 {
        let k = aged_run(self.recs, self.config.ttl_ms, now, 0);
        if self.config.ttl_ms > 0 && k > 0 {
            max64(self.floors.expiry_floor, (self.base + k - 1) as u64)
        } else {
            self.floors.expiry_floor
        }
    }

    /// The floor of eviction that the cap by count calls for.
    pub open spec fn cap_plan(self) -> u64 {
        if self.config.cap_records > 0 && self.head > self.config.cap_records {
            max64(self.floors.evict_floor, (self.head - self.config.cap_records) as u64)
        } else {
            self.floors.evict_floor
        }
    }

    /// The first place whose record is above a floor.
    pub open spec fn place_above(self, floor: u64) -> int {
        if floor < self.base {
            0
        } else if floor - self.base + 1 < self.recs.len() {
            floor - self.base + 1
        } else {
            self.recs.len() as int
        }
    }

    /// How far the size lies above its cap once the cap by count and the age have
    /// taken what they call for.
    pub open spec fn bytes_over(self, now: i64) -> u64 {
        let i = self.place_above(max64(self.cap_plan(), self.expiry_plan(now)));
        sat_sub(
            sat_sub(self.bytes, cap64(bytes_in(self.recs.take(i)))),
            self.config.cap_bytes,
        )
    }

    /// The floor of eviction that both caps call for: the oldest records go until
    /// the size is no more above the cap.
    pub open spec fn evict_plan(self, now: i64) -> u64 {
        let i = self.place_above(max64(self.cap_plan(), self.expiry_plan(now)));
        let j = shed_run(self.recs, i, self.bytes_over(now));
        if self.config.cap_bytes > 0 && j > i {
            (self.base + j - 1) as u64
        } else {
            self.cap_plan()
        }
    }

    /// There is something to retain, and a rule for it.
    pub open spec fn retention_due(self) -> bool {
        &&& self.head != 0
        &&& self.config.ttl_ms > 0 || self.config.cap_records > 0 || self.config.cap_bytes > 0
    }

    /// What retention calls for.
    pub open spec fn plan(self, now: i64) -> RetentionAdvance {
        if !self.retention_due() {
            no_advance()
        } else {
            RetentionAdvance {
                floor_advanced: self.evict_plan(now) > self.floors.evict_floor
                    || self.expiry_plan(now) > self.floors.expiry_floor,
                durable_advance: self.evict_plan(now) > self.cap_plan() || self.expiry_plan(now)
                    > self.floors.expiry_floor,
                evict_floor: self.evict_plan(now),
                expiry_floor: self.expiry_plan(now),
                bytes_reclaimed: 0,
            }
        }
    }

    /// How many slots at the front hold nothing that can be read.
    pub open spec fn reclaim_count(self) -> int {
        let e = self.floors.earliest(self.seq_base, self.head);
        let n = if e <= self.base {
            0
        } else if e - self.base < self.recs.len() {
            e - self.base
        } else {
            self.recs.len() as int
        };
        dead_run(self.recs, n)
    }

    /// The topic without the slots at the front that hold nothing that can be read.
    pub open spec fn reclaimed(self) -> TopicView {
        let n = self.reclaim_count();
        TopicView {
            base: (self.base + n) as u64,
            recs: self.recs.skip(n),
            bytes: sat_sub(self.bytes, cap64(bytes_in(self.recs.take(n)))),
            live: sat_sub(self.live, cap64(live_in(self.recs.take(n)))),
            ..self
        }
    }

    /// The size of the slots at the front that hold nothing that can be read.
    pub open spec fn reclaim_bytes(self) -> u64 {
        cap64(bytes_in(self.recs.take(self.reclaim_count())))
    }

    /// The topic with floors raised to those of a plan.
    pub open spec fn with_floors(self, evict_floor: u64, expiry_floor: u64) -> TopicView {
        TopicView {
            floors: Floors {
                evict_floor: max64(self.floors.evict_floor, evict_floor),
                expiry_floor: max64(self.floors.expiry_floor, expiry_floor),
                ..self.floors
            },
            ..self
        }
    }

    /// The topic after retention.
    pub open spec fn retained(self, now: i64) -> TopicView {
        if !self.retention_due() {
            self
        } else {
            self.with_floors(self.evict_plan(now), self.expiry_plan(now)).reclaimed()
        }
    }

    /// The size of what retention reclaims.
    pub open spec fn retained_bytes(self, now: i64) -> u64 {
        if !self.retention_due() {
            0
        } else {
            self.with_floors(self.evict_plan(now), self.expiry_plan(now)).reclaim_bytes()
        }
    }

    /// The topic with records staged at the end.
    pub open spec fn staged(self, records: Seq<StoredRecord>) -> TopicView {
        TopicView { recs: self.recs + records, ..self }
    }

    /// The run that staging yields.
    pub open spec fn staging(self, records: Seq<StoredRecord>) -> StagedAppend {
        if records.len() == 0 {
            StagedAppend { start: 0, count: 0, added_bytes: 0, pre_len: 0 }
        } else {
            StagedAppend {
                start: self.tail() as u64,
                count: records.len() as u64,
                added_bytes: cap64(bytes_in(records)),
                pre_len: self.recs.len() as usize,
            }
        }
    }

    /// The topic with a run taken back that was staged last.
    pub open spec fn unstaged(self, staged: StagedAppend) -> TopicView {
        if staged.count == 0 || staged.pre_len >= self.recs.len() {
            self
        } else {
            TopicView { recs: self.recs.take(staged.pre_len as int), ..self }
        }
    }

    /// The topic with a staged run made readable.
    pub open spec fn published(self, staged: StagedAppend, now: i64) -> TopicView {
        if staged.count == 0 {
            self
        } else {
            TopicView {
                head: (staged.start + staged.count - 1) as u64,
                bytes: (self.bytes + staged.added_bytes) as u64,
                live: (self.live + staged.count) as u64,
                last_write: now,
                ..self
            }
        }
    }

    /// The topic with records written and made readable.
    pub open spec fn appended(self, records: Seq<StoredRecord>, now: i64) -> TopicView {
        self.staged(records).published(self.staging(records), now)
    }

    /// The topic with a set of records deleted.
    pub open spec fn without(self, victims: Set<u64>) -> TopicView {
        let recs = erase_set(self.base, self.recs, victims);
        TopicView {
            recs,
            bytes: sat_sub(self.bytes, cap64((bytes_in(self.recs) - bytes_in(recs)) as nat)),
            live: sat_sub(self.live, cap64((live_in(self.recs) - live_in(recs)) as nat)),
            ..self
        }
    }

    /// How many records of a set are live, and their size.
    pub open spec fn loss(self, victims: Set<u64>) -> DeleteStats {
        let recs = erase_set(self.base, self.recs, victims);
        DeleteStats {
            deleted: cap64((live_in(self.recs) - live_in(recs)) as nat),
            bytes_freed: cap64((bytes_in(self.recs) - bytes_in(recs)) as nat),
        }
    }

    /// What a deletion applies to: everything below, by position and by the head
    /// of the moment it was asked for.
    pub open spec fn delete_bound(self, before: Option<u64>, bound_head: Option<u64>) -> u64 {
        let pit = match bound_head {
            Some(b) => b,
            None => after(self.head),
        };
        match before {
            Some(b) => min64(b, pit),
            None => pit,
        }
    }

    /// The records a deletion removes.
    pub open spec fn victims(self, filter: Option<Filter>, bound: u64) -> Set<u64> {
        match filter {
            Some(f) => matching(self.base, self.recs, f, bound),
            None => Set::new(
                |s: u64| max64(self.earliest(), self.base) <= s < bound && self.has_live(s),
            ),
        }
    }

    /// Everything below `bound` counts as deleted from now on.
    pub open spec fn with_delete_below(self, bound: u64) -> TopicView {
        let d = max64(self.delete_below, bound);
        TopicView {
            delete_below: d,
            floors: Floors {
                delete_floor: max64(self.floors.delete_floor, sat_sub(d, 1)),
                ..self.floors
            },
            ..self
        }
    }

    /// The topic after a deletion.
    pub open spec fn after_delete(
        self,
        before: Option<u64>,
        filter: Option<Filter>,
        bound_head: Option<u64>,
        now: i64,
    ) -> TopicView {
        let t = self.retained(now);
        let bound = t.delete_bound(before, bound_head);
        let u = t.without(t.victims(filter, bound));
        let v = u.with_delete_below(
            if filter is None && before is Some {
                bound
            } else {
                0
            },
        );
        v.reclaimed()
    }

    /// What a deletion removes.
    pub open spec fn delete_stats(
        self,
        before: Option<u64>,
        filter: Option<Filter>,
        bound_head: Option<u64>,
        now: i64,
    ) -> DeleteStats {
        let t = self.retained(now);
        let bound = t.delete_bound(before, bound_head);
        let victims = t.victims(filter, bound);
        let v = t.without(victims).with_delete_below(
            if filter is None && before is Some {
                bound
            } else {
                0
            },
        );
        DeleteStats {
            deleted: t.loss(victims).deleted,
            bytes_freed: crate::eviction::sat_add(
                crate::eviction::sat_add(self.retained_bytes(now), t.loss(victims).bytes_freed),
                v.reclaim_bytes(),
            ),
        }
    }

    /// The topic after the deletion of single records.
    pub open spec fn after_delete_seqs(self, seqs: Set<u64>) -> TopicView {
        self.without(seqs).reclaimed()
    }

    /// The keyed writes that are too long ago to be recognised.
    pub open spec fn forgotten(self, now: i64) -> Set<Seq<char>> {
        self.dedupe.dom().filter(
            |k: Seq<char>|
                now - self.dedupe[k].created_ms > self.config.idempotency_window_ms,
        )
    }

    /// The topic without the keyed writes that are too long ago.
    pub open spec fn pruned(self, now: i64) -> TopicView {
        TopicView { dedupe: self.dedupe.remove_keys(self.forgotten(now)), ..self }
    }

    /// The topic with a keyed write remembered.
    pub open spec fn remembering(self, key: Seq<char>, e: DedupeView) -> TopicView {
        TopicView { dedupe: self.dedupe.insert(key, e), ..self }
    }

    /// The topic with a publish ticket given out.
    pub open spec fn ticketed(self) -> TopicView {
        TopicView { next_ticket: next_ticket(self.next_ticket), ..self }
    }

    /// The topic with the turn passed on.
    pub open spec fn turned(self) -> TopicView {
        TopicView { turn: next_ticket(self.turn), ..self }
    }

    /// Nothing is staged, no ticket is out, and number and size agree.
    pub open spec fn idle(self) -> bool {
        &&& self.settled()
        &&& self.turn == self.next_ticket
    }

    /// The topic padded with holes up to `reserved`, which becomes its head.
    pub open spec fn padded(self, reserved: u64) -> TopicView {
        let t = TopicView { reserved: max64(self.reserved, reserved), ..self };
        if reserved <= self.head {
            t
        } else {
            let missing = if reserved + 1 > self.tail() {
                (reserved + 1 - self.tail()) as nat
            } else {
                0
            };
            TopicView {
                recs: self.recs + Seq::new(missing, |i: int| hole()),
                head: reserved,
                ..t
            }
        }
    }

    /// The topic with a gap from its source noted: a hole at the end.
    pub open spec fn trimmed(self) -> TopicView {
        let s = self.tail() as u64;
        TopicView {
            recs: self.recs.push(hole()),
            head: s,
            floors: Floors {
                source_trim_floor: max64(self.floors.source_trim_floor, s),
                ..self.floors
            },
            ..self
        }
    }
}

/// A fresh topic.
pub open spec fn fresh_topic(
    name: Seq<char>,
    topic_id: u64,
    config: TopicConfig,
    seq_base: u64,
    epoch: u64,
) -> TopicView {
    TopicView {
        name,
        topic_id,
        config,
        base: seq_base,
        recs: Seq::empty(),
        delete_below: 0,
        floors: crate::eviction::no_floors(),
        dedupe: Map::empty(),
        head: sat_sub(seq_base, 1),
        reserved: sat_sub(seq_base, 1),
        seq_base,
        epoch,
        bytes: 0,
        live: 0,
        last_write: TS_NEVER,
        last_read: TS_NEVER,
        last_consumed: TS_NEVER,
        queue: if config.topic_type == TopicType::Queue {
            Some(fresh_queue(seq_base))
        } else {
            None
        },
        next_ticket: 0,
        turn: 0,
    }
}

/// The first place that holds no deleted record is not before the place asked
/// for, and not beyond the end.
pub proof fn dead_run_within(recs: Seq<StoredRecord>, i: int)
    requires
        0 <= i <= recs.len(),
    ensures
        i <= dead_run(recs, i) <= recs.len(),
        forall|j: int| i <= j < dead_run(recs, i) ==> (#[trigger] recs[j]).deleted,
        dead_run(recs, i) < recs.len() ==> !recs[dead_run(recs, i)].deleted,
    decreases recs.len() - i,
{
    if i < recs.len() && recs[i].deleted {
        dead_run_within(recs, i + 1);
    }
}

/// The first place with a young record is not before the place asked for, and not
/// beyond the end.
pub proof fn aged_run_within(recs: Seq<StoredRecord>, ttl_ms: u64, now: i64, i: int)
    requires
        0 <= i <= recs.len(),
    ensures
        i <= aged_run(recs, ttl_ms, now, i) <= recs.len(),
    decreases recs.len() - i,
{
    if i < recs.len() && now - recs[i].ts > ttl_ms {
        aged_run_within(recs, ttl_ms, now, i + 1);
    }
}

/// Shedding stops as soon as enough is shed: what is shed is enough, or all there
/// is, and without its last record it is not enough.
pub proof fn shed_run_within(recs: Seq<StoredRecord>, i: int, over: u64)
    requires
        0 <= i <= recs.len(),
    ensures
        i <= shed_run(recs, i, over) <= recs.len(),
        bytes_in(recs.subrange(i, shed_run(recs, i, over))) >= over || shed_run(recs, i, over)
            == recs.len(),
        shed_run(recs, i, over) > i ==> bytes_in(
            recs.subrange(i, shed_run(recs, i, over) - 1),
        ) < over,
    decreases recs.len() - i,
{
    let j = shed_run(recs, i, over);
    if i < recs.len() && over > 0 {
        let rest = sat_sub(over, recs[i].bytes);
        shed_run_within(recs, i + 1, rest);
        let one = recs.subrange(i, i + 1);
        assert(one =~= seq![recs[i]]);
        assert(one.drop_last() =~= Seq::<StoredRecord>::empty());
        assert(bytes_in(one.drop_last()) == 0);
        assert(bytes_in(one) == recs[i].bytes);
        assert(recs.subrange(i, j) =~= one + recs.subrange(i + 1, j));
        run_sums_add(one, recs.subrange(i + 1, j));
        if j - 1 > i {
            assert(recs.subrange(i, j - 1) =~= one + recs.subrange(i + 1, j - 1));
            run_sums_add(one, recs.subrange(i + 1, j - 1));
        } else {
            assert(recs.subrange(i, j - 1) =~= Seq::<StoredRecord>::empty());
        }
    } else {
        assert(recs.subrange(i, i) =~= Seq::<StoredRecord>::empty());
    }
}

/// Deleting one more record of a set.
pub proof fn erase_one_more(base: u64, recs: Seq<StoredRecord>, s: Set<u64>, x: u64)
    requires
        base + recs.len() <= u64::MAX,
    ensures
        ({
            let a = erase_set(base, recs, s);
            let b = erase_set(base, recs, s.insert(x));
            &&& base <= x < base + recs.len() && !a[x - base].deleted ==> b == a.update(
                x - base,
                a[x - base].erased(),
            )
            &&& !(base <= x < base + recs.len() && !a[x - base].deleted) ==> b == a
        }),
{
    let a = erase_set(base, recs, s);
    let b = erase_set(base, recs, s.insert(x));
    assert forall|i: int| 0 <= i < recs.len() && i != x - base implies b[i] == a[i] by {
        assert((base + i) as u64 != x);
    }
    if base <= x < base + recs.len() {
        assert((base + (x - base)) as u64 == x);
        if !a[x - base].deleted {
            assert(b =~= a.update(x - base, a[x - base].erased()));
        } else {
            assert(b =~= a);
        }
    } else {
        assert(b =~= a);
    }
}

/// Deleting nothing.
pub proof fn erase_nothing(base: u64, recs: Seq<StoredRecord>)
    ensures
        erase_set(base, recs, Set::empty()) == recs,
{
    assert(erase_set(base, recs, Set::empty()) =~= recs);
}

/// Deleting records makes neither number nor size grow.
pub proof fn erase_shrinks(base: u64, recs: Seq<StoredRecord>, s: Set<u64>)
    ensures
        live_in(erase_set(base, recs, s)) <= live_in(recs),
        bytes_in(erase_set(base, recs, s)) <= bytes_in(recs),
    decreases recs.len(),
{
    if recs.len() > 0 {
        let r = recs.drop_last();
        erase_shrinks(base, r, s);
        assert(erase_set(base, recs, s).drop_last() =~= erase_set(base, r, s));
    }
}

/// Deletes the records named, and says how many of them were live, their size,
/// and which they were.
fn erase_all(index: &mut TopicIndex, victims: &[u64]) -> (r: (u64, u64, Vec<u64>))
    requires
        old(index).wf(),
    ensures
        final(index).wf(),
        final(index).base_seq == old(index).base_seq,
        final(index).delete_below == old(index).delete_below,
        final(index).records@ == erase_set(
            old(index).base_seq,
            old(index).records@,
            victims@.to_set(),
        ),
        r.0 == live_in(old(index).records@) - live_in(final(index).records@),
        r.1 == cap64((bytes_in(old(index).records@) - bytes_in(final(index).records@)) as nat),
        forall|s: u64| #[trigger]
            r.2@.contains(s) <==> victims@.contains(s) && old(index).has(s) && !old(index).rec(
                s,
            ).deleted,
{
    let ghost base = index.base_seq;
    let ghost recs = index.records@;
    let mut deleted: u64 = 0;
    let mut freed: u64 = 0;
    let mut gone: Vec<u64> = Vec::new();
    let mut k: usize = 0;
    proof {
        assert(victims@.take(0).to_set() =~= Set::<u64>::empty());
        erase_nothing(base, recs);
        live_at_most_len(recs);
    }
    while k < victims.len()
        invariant
            k <= victims@.len(),
            index.wf(),
            index.base_seq == base,
            index.delete_below == old(index).delete_below,
            base == old(index).base_seq,
            recs == old(index).records@,
            base + recs.len() <= u64::MAX,
            live_in(recs) <= recs.len(),
            index.records@ == erase_set(base, recs, victims@.take(k as int).to_set()),
            live_in(index.records@) <= live_in(recs),
            bytes_in(index.records@) <= bytes_in(recs),
            deleted == live_in(recs) - live_in(index.records@),
            freed == cap64((bytes_in(recs) - bytes_in(index.records@)) as nat),
            forall|s: u64| #[trigger]
                gone@.contains(s) <==> victims@.take(k as int).contains(s) && old(index).has(s)
                    && !old(index).rec(s).deleted,
        decreases victims@.len() - k,
    {
        let seq: u64 = victims[k];
        let ghost before = index.records@;
        let ghost done = victims@.take(k as int);
        let ghost g0 = gone@;
        proof {
            let next = victims@.take(k + 1);
            assert(next =~= done.push(seq));
            assert forall|x: u64| next.contains(x) <==> done.contains(x) || x == seq by {
                if done.contains(x) {
                    let m = choose|m: int| 0 <= m < done.len() && done[m] == x;
                    assert(next[m] == x);
                }
                assert(next[k as int] == seq);
            }
            assert(next.to_set() =~= done.to_set().insert(seq));
            erase_one_more(base, recs, done.to_set(), seq);
            erase_shrinks(base, recs, next.to_set());
        }
        match index.mark_deleted(seq) {
            Some(f) => {
                proof {
                    erase_sums(before, seq - base);
                    assert((base + (seq - base)) as u64 == seq);
                    assert(!recs[seq - base].deleted);
                }
                freed = freed.saturating_add(f);
                deleted = deleted + 1;
                gone.push(seq);
                proof {
                    assert forall|s: u64| #[trigger]
                        gone@.contains(s) <==> g0.contains(s) || s == seq by {
                        if g0.contains(s) {
                            let m = choose|m: int| 0 <= m < g0.len() && g0[m] == s;
                            assert(gone@[m] == s);
                        }
                        assert(gone@[g0.len() as int] == seq);
                    }
                }
            },
            None => {
                proof {
                    if old(index).has(seq) && !old(index).rec(seq).deleted {
                        assert((base + (seq - base)) as u64 == seq);
                        assert(done.to_set().contains(seq));
                        assert(gone@.contains(seq));
                    }
                }
            },
        }
        k += 1;
    }
    assert(victims@.take(k as int) =~= victims@);
    (deleted, freed, gone)
}

/// One topic.
#[derive(Debug)]
pub struct TopicState {
    pub name: String,
    pub topic_id: u64,
    pub config: TopicConfig,
    pub index: TopicIndex,
    pub floors: Floors,
    pub dedupe: NameMap<DedupeEntry>,
    pub head_seq: u64,
    pub reserved_head: u64,
    pub seq_base: u64,
    pub epoch: u64,
    pub bytes_retained: u64,
    pub live_count: u64,
    pub last_write_ms: i64,
    pub last_read_ms: i64,
    pub last_consumed_ms: i64,
    pub queue: Option<QueueProjection>,
    pub gate: PublishGate,
}

/// One topic, under the name the box API uses.
pub type BoxState = TopicState;

impl View for TopicState {
    type V = TopicView;

    open spec fn view(&self) -> TopicView {
        TopicView {
            name: self.name@,
            topic_id: self.topic_id,
            config: self.config,
            base: self.index.base_seq,
            recs: self.index.records@,
            delete_below: self.index.delete_below,
            floors: self.floors,
            dedupe: self.dedupe@.map_values(|e: DedupeEntry| e@),
            head: self.head_seq,
            reserved: self.reserved_head,
            seq_base: self.seq_base,
            epoch: self.epoch,
            bytes: self.bytes_retained,
            live: self.live_count,
            last_write: self.last_write_ms,
            last_read: self.last_read_ms,
            last_consumed: self.last_consumed_ms,
            queue: match self.queue {
                Some(q) => Some(q@),
                None => None,
            },
            next_ticket: self.gate.next_ticket,
            turn: self.gate.turn,
        }
    }
}

impl TopicState {
    /// The parts are well-formed, and fit together.
    pub open spec fn wf(&self) -> bool {
        &&& self.index.wf()
        &&& self.dedupe.wf()
        &&& self@.ok()
        &&& self.queue is Some ==> self.queue->0.wf()
    }

    /// A fresh topic. Sequence numbers start at `seq_base`, which is not 0.
    pub fn new(
        name: String,
        topic_id: u64,
        config: TopicConfig,
        seq_base: u64,
        epoch: u64,
    ) -> (r: TopicState)
        requires
            1 <= seq_base,
        ensures
            r.wf(),
            r@ == fresh_topic(name@, topic_id, config, seq_base, epoch),
    {
        let queue = if config.is_queue() {
            Some(QueueProjection::new(seq_base))
        } else {
            None
        };
        let r = TopicState {
            name,
            topic_id,
            config,
            index: TopicIndex::new(seq_base),
            floors: Floors::default(),
            dedupe: NameMap::new(),
            head_seq: seq_base - 1,
            reserved_head: seq_base - 1,
            seq_base,
            epoch,
            bytes_retained: 0,
            live_count: 0,
            last_write_ms: TS_NEVER,
            last_read_ms: TS_NEVER,
            last_consumed_ms: TS_NEVER,
            queue,
            gate: PublishGate { next_ticket: 0, turn: 0 },
        };
        proof {
            assert(r@.dedupe =~= Map::<Seq<char>, DedupeView>::empty());
        }
        r
    }

    /// Whether the topic is a queue.
    pub fn is_queue(&self) -> (r: bool)
        ensures
            r == (self@.queue is Some),
    {
        self.queue.is_some()
    }

    /// The last sequence number that can be read.
    pub fn head_seq(&self) -> (r: u64)
        ensures
            r == self@.head,
    {
        self.head_seq
    }

    /// The sequence number up to which none is ever given out again.
    pub fn reserved_head(&self) -> (r: u64)
        ensures
            r == self@.reserved,
    {
        self.reserved_head
    }

    /// Reserves the sequence numbers up to `reserved`. A reservation is never
    /// taken back.
    pub fn set_reserved_head(&mut self, reserved: u64)
        requires
            old(self).wf(),
        ensures
            final(self).wf(),
            final(self)@ == (TopicView {
                reserved: max64(old(self)@.reserved, reserved),
                ..old(self)@
            }),
    {
        self.reserved_head = larger(self.reserved_head, reserved);
    }

    /// Moves the head to a reservation that no record reached, with holes in
    /// between, so that no sequence number is given out twice.
    pub fn restore_head_watermark(&mut self, reserved: u64)
        requires
            old(self).wf(),
            reserved < u64::MAX,
        ensures
            final(self).wf(),
            final(self)@ == old(self)@.padded(reserved),
    {
        self.set_reserved_head(reserved);
        if reserved <= self.head_seq {
            return;
        }
        let ghost t = self@;
        let mut next: u64 = self.index.base_seq + self.index.records.len() as u64;
        let ghost mut n: nat = 0;
        assert(t.recs + Seq::new(0, |i: int| hole()) =~= t.recs);
        while next <= reserved
            invariant
                reserved < u64::MAX,
                self.wf(),
                next == self@.tail(),
                self@ == (TopicView { recs: t.recs + Seq::new(n, |i: int| hole()), ..t }),
                n == next - t.tail(),
                next > reserved ==> n == 0 || next == reserved + 1,
            decreases reserved + 1 - next,
        {
            self.index.push(deleted_hole());
            proof {
                assert((t.recs + Seq::new(n, |i: int| hole())).push(hole()) =~= t.recs + Seq::new(
                    n + 1,
                    |i: int| hole(),
                ));
                n = n + 1;
            }
            next += 1;
        }
        self.head_seq = reserved;
    }

    /// How often the topic was created.
    pub fn epoch(&self) -> (r: u64)
        ensures
            r == self@.epoch,
    {
        self.epoch
    }

    /// The sequence number after the head.
    pub fn next_seq(&self) -> (r: u64)
        ensures
            r == after(self@.head),
    {
        self.head_seq.saturating_add(1)
    }

    /// The first sequence number that can be read.
    pub fn earliest_seq(&self) -> (r: u64)
        ensures
            r == self@.earliest(),
    {
        let floor: u64 = self.floors.earliest_seq(self.seq_base, self.head_seq);
        smaller(larger(floor, self.index.base_seq), self.head_seq.saturating_add(1))
    }

    /// The first sequence number above involuntary loss.
    pub fn evict_earliest_seq(&self) -> (r: u64)
        ensures
            r == self@.first_kept(),
    {
        self.floors.evict_earliest(self.seq_base, self.head_seq)
    }

    /// The highest sequence number lost to a cap or to age.
    pub fn involuntary_floor(&self) -> (r: u64)
        ensures
            r == max64(self@.floors.evict_floor, self@.floors.expiry_floor),
    {
        larger(self.floors.evict_floor, self.floors.expiry_floor)
    }

    /// The record in the slot for `seq`, and whether it is live.
    pub fn forward_lookup(&self, seq: u64) -> (r: Option<(StoredRecord, bool)>)
        ensures
            r == (if self@.has(seq) {
                Some((self@.rec(seq), !self@.rec(seq).deleted))
            } else {
                None
            }),
    {
        match self.index.get(seq) {
            Some(rec) => Some((rec.copy(), !rec.deleted)),
            None => None,
        }
    }

    /// Notes that records of a router's source were gone before they could be
    /// forwarded: a hole at the end, above which the reader is told of the gap.
    pub fn note_source_trim(&mut self)
        requires
            old(self).wf(),
            old(self)@.tail() < u64::MAX,
        ensures
            final(self).wf(),
            final(self)@ == old(self)@.trimmed(),
    {
        let seq: u64 = self.index.base_seq + self.index.records.len() as u64;
        self.index.push(deleted_hole());
        self.head_seq = seq;
        self.floors.source_trim_floor = larger(self.floors.source_trim_floor, seq);
    }

    /// Writes records and makes them readable. Their sequence numbers follow the
    /// last slot.
    pub fn append(&mut self, records: Vec<StoredRecord>, now_ms: i64) -> (r: Vec<u64>)
        requires
            old(self).wf(),
            old(self)@.room(records@.len(), bytes_in(records@)),
            forall|i: int| 0 <= i < records@.len() ==> (#[trigger] records@[i]).ok(),
        ensures
            final(self).wf(),
            final(self)@ == old(self)@.appended(records@, now_ms),
            r@ == run(old(self)@.tail() as u64, records@.len() as u64),
    {
        let staged = self.stage_append(records);
        if staged.is_empty() {
            assert(old(self)@.recs + records@ =~= old(self)@.recs);
            assert(run(old(self)@.tail() as u64, 0) =~= Seq::<u64>::empty());
            return Vec::new();
        }
        let seqs = staged.seqs();
        self.publish_staged(staged, now_ms);
        seqs
    }

    /// Puts records into new slots at the end, where they cannot be read yet.
    pub fn stage_append(&mut self, records: Vec<StoredRecord>) -> (r: StagedAppend)
        requires
            old(self).wf(),
            old(self)@.tail() + records@.len() <= u64::MAX,
            forall|i: int| 0 <= i < records@.len() ==> (#[trigger] records@[i]).ok(),
        ensures
            final(self).wf(),
            final(self)@ == old(self)@.staged(records@),
            r == old(self)@.staging(records@),
    {
        let ghost all = records@;
        if records.len() == 0 {
            assert(self@.recs + all =~= self@.recs);
            return StagedAppend::empty();
        }
        let count: u64 = records.len() as u64;
        let pre_len: usize = self.index.records.len();
        let start: u64 = self.index.base_seq + pre_len as u64;
        let mut added: u64 = 0;
        let mut rest = records;
        let ghost mut done: Seq<StoredRecord> = Seq::empty();
        assert(self@.recs + done =~= self@.recs);
        assert(all.take(0) =~= Seq::<StoredRecord>::empty());
        let mut i: u64 = 0;
        // The records are taken from the back of the reversed list.
        let mut turned: Vec<StoredRecord> = Vec::new();
        while rest.len() > 0
            invariant
                rest@.len() + turned@.len() == all.len(),
                rest@ == all.take(rest@.len() as int),
                forall|j: int|
                    0 <= j < turned@.len() ==> #[trigger] turned@[j] == all[all.len() - 1 - j],
            decreases rest@.len(),
        {
            let ghost r0 = rest@;
            match rest.pop() {
                Some(x) => {
                    assert(x == all[r0.len() - 1]);
                    turned.push(x);
                    assert(rest@ =~= all.take(r0.len() - 1));
                },
                None => {},
            }
        }
        while turned.len() > 0
            invariant
                self.wf(),
                all.len() <= u64::MAX,
                i + turned@.len() == all.len(),
                done == all.take(i as int),
                forall|j: int|
                    0 <= j < turned@.len() ==> #[trigger] turned@[j] == all[all.len() - 1 - j],
                forall|j: int| 0 <= j < all.len() ==> (#[trigger] all[j]).ok(),
                old(self)@.tail() + all.len() <= u64::MAX,
                self@ == (TopicView { recs: old(self)@.recs + done, ..old(self)@ }),
                added == cap64(bytes_in(done)),
            decreases turned@.len(),
        {
            match turned.pop() {
                Some(x) => {
                    proof {
                        assert(x == all[i as int]);
                        assert(all.take(i + 1).drop_last() =~= all.take(i as int));
                        assert(all.take(i + 1).last() == all[i as int]);
                        assert((old(self)@.recs + done).push(x) =~= old(self)@.recs + all.take(
                            i + 1,
                        ));
                    }
                    added = added.saturating_add(x.bytes);
                    self.index.push(x);
                    proof {
                        done = all.take(i + 1);
                    }
                    i += 1;
                },
                None => {},
            }
        }
        assert(all.take(i as int) =~= all);
        StagedAppend { start, count, added_bytes: added, pre_len }
    }

    /// Makes a staged run readable.
    pub fn publish_staged(&mut self, staged: StagedAppend, now_ms: i64) -> (r: Option<(u64, u64)>)
        requires
            old(self).wf(),
            staged.count > 0 ==> staged.start + staged.count <= old(self)@.tail(),
            old(self)@.bytes + staged.added_bytes <= u64::MAX,
            old(self)@.live + staged.count <= u64::MAX,
        ensures
            final(self).wf(),
            final(self)@ == old(self)@.published(staged, now_ms),
            r == (if staged.count == 0 {
                None
            } else {
                Some((staged.start, (staged.start + staged.count - 1) as u64))
            }),
    {
        if staged.is_empty() {
            return None;
        }
        let new_head: u64 = staged.start + (staged.count - 1);
        self.head_seq = new_head;
        self.bytes_retained = self.bytes_retained + staged.added_bytes;
        self.live_count = self.live_count + staged.count;
        self.last_write_ms = now_ms;
        Some((staged.start, new_head))
    }

    /// Takes the slots of a staged run back. Nothing may be staged behind it.
    pub fn rollback_staged(&mut self, staged: StagedAppend)
        requires
            old(self).wf(),
            staged.count > 0 ==> old(self)@.head < old(self)@.base + staged.pre_len,
        ensures
            final(self).wf(),
            final(self)@ == old(self)@.unstaged(staged),
    {
        if staged.is_empty() {
            return;
        }
        let ghost t = self@;
        proof {
            assert(t.recs.take(t.recs.len() as int) =~= t.recs);
        }
        while self.index.records.len() > staged.pre_len
            invariant
                self.wf(),
                t.head < t.base + staged.pre_len,
                self@.recs.len() <= t.recs.len(),
                staged.pre_len < t.recs.len() ==> staged.pre_len <= self@.recs.len(),
                self@ == (TopicView { recs: t.recs.take(self@.recs.len() as int), ..t }),
                staged.pre_len >= t.recs.len() ==> self@.recs.len() == t.recs.len(),
            decreases self.index.records@.len(),
        {
            let ghost k = self@.recs.len() as int;
            assert(t.recs.take(k).drop_last() =~= t.recs.take(k - 1));
            self.index.pop();
        }
    }

    /// Deletes the records of a staged run in place, where others may be staged
    /// behind it.
    pub fn rollback_staged_by_seqs(&mut self, staged: &StagedAppend)
        requires
            old(self).wf(),
            staged.fits(),
        ensures
            final(self).wf(),
            final(self)@ == (TopicView {
                recs: erase_set(
                    old(self)@.base,
                    old(self)@.recs,
                    run(staged.start, staged.count).to_set(),
                ),
                ..old(self)@
            }),
    {
        let seqs = staged.seqs();
        let _ = erase_all(&mut self.index, seqs.as_slice());
    }

    /// The size of the first slots.
    fn front_bytes(&self, k: usize) -> (r: u64)
        requires
            k <= self@.recs.len(),
        ensures
            r == cap64(bytes_in(self@.recs.take(k as int))),
    {
        let mut sum: u64 = 0;
        let mut i: usize = 0;
        assert(self@.recs.take(0) =~= Seq::<StoredRecord>::empty());
        while i < k
            invariant
                i <= k <= self@.recs.len(),
                sum == cap64(bytes_in(self@.recs.take(i as int))),
            decreases k - i,
        {
            proof {
                assert(self@.recs.take(i + 1).drop_last() =~= self@.recs.take(i as int));
                assert(self@.recs.take(i + 1).last() == self@.recs[i as int]);
            }
            sum = sum.saturating_add(self.index.records[i].bytes);
            i += 1;
        }
        sum
    }

    /// What retention calls for at `now_ms`.
    pub fn plan_retention(&self, now_ms: i64) -> (r: RetentionAdvance)
        requires
            self.wf(),
        ensures
            r == self@.plan(now_ms),
    {
        let ttl_ms: u64 = self.config.ttl_ms;
        let cap_records: u64 = self.config.cap_records;
        let cap_bytes: u64 = self.config.cap_bytes;
        if self.head_seq == 0 || (ttl_ms == 0 && cap_records == 0 && cap_bytes == 0) {
            return RetentionAdvance::none();
        }
        let base: u64 = self.index.base_seq;
        let n: usize = self.index.records.len();
        let mut expiry_floor: u64 = self.floors.expiry_floor;
        proof {
            aged_run_within(self@.recs, ttl_ms, now_ms, 0);
        }
        if ttl_ms > 0 {
            let mut i: usize = 0;
            while i < n && (now_ms as i128) - (self.index.records[i].ts as i128) > ttl_ms as i128
                invariant
                    self.wf(),
                    i <= n,
                    n == self@.recs.len(),
                    aged_run(self@.recs, ttl_ms, now_ms, 0) == aged_run(
                        self@.recs,
                        ttl_ms,
                        now_ms,
                        i as int,
                    ),
                decreases n - i,
            {
                i += 1;
            }
            if i > 0 {
                expiry_floor = larger(expiry_floor, base + (i - 1) as u64);
            }
        }
        let mut evict_floor: u64 = self.floors.evict_floor;
        if cap_records > 0 && self.head_seq > cap_records {
            evict_floor = larger(evict_floor, self.head_seq - cap_records);
        }
        let cap_floor: u64 = evict_floor;
        if cap_bytes > 0 {
            let current: u64 = larger(evict_floor, expiry_floor);
            let first: usize = if current < base {
                0
            } else if current - base < n as u64 && current - base + 1 < n as u64 {
                (current - base + 1) as usize
            } else {
                n
            };
            let gone: u64 = self.front_bytes(first);
            let mut over: u64 = self.bytes_retained.saturating_sub(gone).saturating_sub(
                cap_bytes,
            );
            let mut i: usize = first;
            let ghost over0 = over;
            assert(first == self@.place_above(current));
            while i < n && over > 0
                invariant
                    self.wf(),
                    first <= i <= n,
                    n == self@.recs.len(),
                    shed_run(self@.recs, first as int, over0) == shed_run(
                        self@.recs,
                        i as int,
                        over,
                    ),
                decreases n - i,
            {
                over = over.saturating_sub(self.index.records[i].bytes);
                i += 1;
            }
            if i > first {
                evict_floor = base + (i - 1) as u64;
            }
        }
        RetentionAdvance {
            floor_advanced: evict_floor > self.floors.evict_floor || expiry_floor
                > self.floors.expiry_floor,
            durable_advance: evict_floor > cap_floor || expiry_floor > self.floors.expiry_floor,
            evict_floor,
            expiry_floor,
            bytes_reclaimed: 0,
        }
    }

    /// Drops what is too old or too much, and says how far the floors moved.
    pub fn enforce_retention(&mut self, now_ms: i64) -> (r: RetentionAdvance)
        requires
            old(self).wf(),
        ensures
            final(self).wf(),
            final(self)@ == old(self)@.retained(now_ms),
            r == (RetentionAdvance {
                bytes_reclaimed: old(self)@.retained_bytes(now_ms),
                ..old(self)@.plan(now_ms)
            }),
    {
        let mut plan = self.plan_retention(now_ms);
        if self.head_seq == 0 || (self.config.ttl_ms == 0 && self.config.cap_records == 0
            && self.config.cap_bytes == 0) {
            return plan;
        }
        if plan.evict_floor > self.floors.evict_floor {
            self.floors.evict_floor = plan.evict_floor;
        }
        if plan.expiry_floor > self.floors.expiry_floor {
            self.floors.expiry_floor = plan.expiry_floor;
        }
        plan.bytes_reclaimed = self.reclaim_front();
        plan
    }

    /// As [`enforce_retention`](Self::enforce_retention), where a move of the
    /// floors that cannot be derived again counts only if it was logged:
    /// `hardened` says whether that succeeded. Nothing changes if it did not.
    pub fn enforce_retention_hardened(
        &mut self,
        now_ms: i64,
        hardened: bool,
    ) -> (r: Option<RetentionAdvance>)
        requires
            old(self).wf(),
        ensures
            final(self).wf(),
            ({
                let p = old(self)@.plan(now_ms);
                if p.floor_advanced && p.durable_advance && !hardened {
                    r is None && final(self)@ == old(self)@
                } else {
                    &&& final(self)@ == old(self)@.retained(now_ms)
                    &&& r == Some(
                        RetentionAdvance { bytes_reclaimed: old(self)@.retained_bytes(now_ms), ..p },
                    )
                }
            }),
    {
        let plan = self.plan_retention(now_ms);
        if plan.floor_advanced && plan.durable_advance && !hardened {
            return None;
        }
        Some(self.enforce_retention(now_ms))
    }

    /// Drops the slots at the front that hold nothing that can be read, and says
    /// how large they were.
    pub fn reclaim_front(&mut self) -> (r: u64)
        requires
            old(self).wf(),
        ensures
            final(self).wf(),
            final(self)@ == old(self)@.reclaimed(),
            r == old(self)@.reclaim_bytes(),
    {
        let ghost t = self@;
        let earliest: u64 = self.floors.earliest_seq(self.seq_base, self.head_seq);
        let base: u64 = self.index.base_seq;
        let n: usize = self.index.records.len();
        let mut k: usize = 0;
        if earliest > base {
            if earliest - base < n as u64 {
                k = (earliest - base) as usize;
            } else {
                k = n;
            }
        }
        let ghost k0 = k as int;
        proof {
            dead_run_within(t.recs, k0);
        }
        while k < n && self.index.records[k].deleted
            invariant
                k <= n,
                n == t.recs.len(),
                self@ == t,
                dead_run(t.recs, k0) == dead_run(t.recs, k as int),
            decreases n - k,
        {
            k += 1;
        }
        let mut freed: u64 = 0;
        let mut i: usize = 0;
        proof {
            assert(t.recs.take(0) =~= Seq::<StoredRecord>::empty());
        }
        while i < k
            invariant
                i <= k <= n,
                n == t.recs.len(),
                self@ == t,
                freed == cap64(bytes_in(t.recs.take(i as int))),
            decreases k - i,
        {
            proof {
                assert(t.recs.take(i + 1).drop_last() =~= t.recs.take(i as int));
                assert(t.recs.take(i + 1).last() == t.recs[i as int]);
            }
            freed = freed.saturating_add(self.index.records[i].bytes);
            i += 1;
        }
        let live: u64 = self.index.drain_front(k);
        self.bytes_retained = self.bytes_retained.saturating_sub(freed);
        self.live_count = self.live_count.saturating_sub(live);
        proof {
            live_at_most_len(t.recs.take(k as int));
            assert forall|j: int| 0 <= j < self@.recs.len() implies (#[trigger] self@.recs[j]).ok() by {
                assert(self@.recs[j] == t.recs[j + k]);
            }
        }
        freed
    }

    /// Forgets the keyed writes that are too long ago.
    pub fn prune_dedupe(&mut self, now_ms: i64)
        requires
            old(self).wf(),
        ensures
            final(self).wf(),
            final(self)@ == old(self)@.pruned(now_ms),
    {
        let window: u64 = self.config.idempotency_window_ms;
        let ghost t = self@;
        let mut stale: Vec<String> = Vec::new();
        let mut i: usize = 0;
        while i < self.dedupe.len()
            invariant
                self.wf(),
                self@ == t,
                *self == *old(self),
                window == t.config.idempotency_window_ms,
                i <= self.dedupe.pairs().len(),
                forall|k: Seq<char>| #[trigger]
                    texts(stale@).contains(k) <==> exists|j: int|
                        0 <= j < i && (#[trigger] self.dedupe.pairs()[j]).0@ == k && now_ms
                            - self.dedupe.pairs()[j].1.created_ms > window,
            decreases self.dedupe.pairs().len() - i,
        {
            let p = self.dedupe.at(i);
            let ghost s0 = texts(stale@);
            if (now_ms as i128) - (p.1.created_ms as i128) > window as i128 {
                stale.push(p.0.clone());
                assert(texts(stale@) =~= s0.push(p.0@));
            }
            proof {
                let s1 = texts(stale@);
                let hit = now_ms - p.1.created_ms > window;
                assert forall|k: Seq<char>| #[trigger] s1.contains(k) <==> s0.contains(k) || (hit
                    && k == p.0@) by {
                    if s0.contains(k) {
                        let m = choose|m: int| 0 <= m < s0.len() && s0[m] == k;
                        assert(s1[m] == k);
                    }
                    if hit {
                        assert(s1[s0.len() as int] == p.0@);
                    }
                }
                assert forall|k: Seq<char>| #[trigger] s1.contains(k) <==> exists|j: int|
                    0 <= j < i + 1 && (#[trigger] self.dedupe.pairs()[j]).0@ == k && now_ms
                        - self.dedupe.pairs()[j].1.created_ms > window by {
                    if s1.contains(k) && !s0.contains(k) {
                        assert(self.dedupe.pairs()[i as int].0@ == k);
                    }
                    if exists|j: int|
                        0 <= j < i + 1 && (#[trigger] self.dedupe.pairs()[j]).0@ == k && now_ms
                            - self.dedupe.pairs()[j].1.created_ms > window {
                        let j = choose|j: int|
                            0 <= j < i + 1 && (#[trigger] self.dedupe.pairs()[j]).0@ == k
                                && now_ms - self.dedupe.pairs()[j].1.created_ms > window;
                        if j < i {
                            assert(s0.contains(k));
                        }
                    }
                }
            }
            i += 1;
        }
        proof {
            assert forall|k: Seq<char>| texts(stale@).contains(k) <==> t.forgotten(
                now_ms,
            ).contains(k) by {
                if texts(stale@).contains(k) {
                    let j = choose|j: int|
                        0 <= j < i && (#[trigger] self.dedupe.pairs()[j]).0@ == k && now_ms
                            - self.dedupe.pairs()[j].1.created_ms > window;
                    self.dedupe.pair_in_map(j);
                }
                if t.forgotten(now_ms).contains(k) {
                    let j = self.dedupe.key_in_list(k);
                    assert(self.dedupe.pairs()[j].0@ == k);
                }
            }
        }
        let ghost gone = texts(stale@);
        let ghost d0 = self.dedupe@;
        assert(gone.take(0).to_set() =~= Set::<Seq<char>>::empty());
        let mut j: usize = 0;
        while j < stale.len()
            invariant
                j <= stale@.len(),
                gone == texts(stale@),
                self.dedupe.wf(),
                self.index == old(self).index,
                self@ == (TopicView { dedupe: self@.dedupe, ..t }),
                self.queue == old(self).queue,
                self.dedupe@ =~= d0.remove_keys(gone.take(j as int).to_set()),
            decreases stale@.len() - j,
        {
            let _ = self.dedupe.remove(stale[j].as_str());
            proof {
                take_one_more(gone, j as int);
                assert(gone.take(j + 1).to_set() =~= gone.take(j as int).to_set().insert(
                    gone[j as int],
                ));
            }
            j += 1;
        }
        proof {
            assert(gone.take(j as int) =~= gone);
            assert(gone.to_set() =~= t.forgotten(now_ms));
            assert(self@.dedupe =~= t.pruned(now_ms).dedupe);
        }
    }

    /// What is remembered of a keyed write.
    pub fn recall(&self, key: &str) -> (r: Option<&DedupeEntry>)
        requires
            self.wf(),
        ensures
            match r {
                Some(e) => self@.dedupe.contains_key(key@) && e@ == self@.dedupe[key@],
                None => !self@.dedupe.contains_key(key@),
            },
    {
        self.dedupe.get(key)
    }

    /// Remembers a keyed write.
    pub fn remember(&mut self, key: &str, entry: DedupeEntry)
        requires
            old(self).wf(),
        ensures
            final(self).wf(),
            final(self)@ == old(self)@.remembering(key@, entry@),
    {
        self.dedupe.insert(key.to_owned(), entry);
        assert(self@.dedupe =~= old(self)@.dedupe.insert(key@, entry@));
    }

    /// Gives out the next publish ticket.
    pub fn next_publish_ticket(&mut self) -> (r: u64)
        requires
            old(self).wf(),
        ensures
            final(self).wf(),
            final(self)@ == old(self)@.ticketed(),
            r == old(self)@.next_ticket,
    {
        self.gate.take_ticket()
    }

    /// Whether it is the turn of a ticket.
    pub fn is_turn(&self, ticket: u64) -> (r: bool)
        ensures
            r == (self@.turn == ticket),
    {
        self.gate.turn == ticket
    }

    /// Passes the turn on. It was the turn of `ticket`.
    pub fn publish_done(&mut self, ticket: u64)
        requires
            old(self).wf(),
            old(self)@.turn == ticket,
        ensures
            final(self).wf(),
            final(self)@ == old(self)@.turned(),
    {
        self.gate.pass_turn();
    }

    /// Whether every ticket given out has come up.
    pub fn is_quiet(&self) -> (r: bool)
        ensures
            r == (self@.turn == self@.next_ticket),
    {
        self.gate.is_quiet()
    }

    /// How many records can be read.
    pub fn count(&self) -> (r: u64)
        ensures
            r == self@.live,
    {
        self.live_count
    }

    /// The size of the records that can be read.
    pub fn bytes(&self) -> (r: u64)
        ensures
            r == self@.bytes,
    {
        self.bytes_retained
    }

    /// Deletes records by position, by tag, or both, up to the head at
    /// `bound_head`, and says how many.
    pub fn apply_delete(
        &mut self,
        before_seq: Option<u64>,
        match_: Option<&Filter>,
        bound_head: Option<u64>,
        now_ms: i64,
    ) -> (r: u64)
        requires
            old(self).wf(),
        ensures
            final(self).wf(),
            final(self)@ == old(self)@.after_delete(
                before_seq,
                filter_of(match_),
                bound_head,
                now_ms,
            ),
            r == old(self)@.delete_stats(
                before_seq,
                filter_of(match_),
                bound_head,
                now_ms,
            ).deleted,
    {
        self.apply_delete_stats(before_seq, match_, bound_head, now_ms).0.deleted
    }

    /// As [`apply_delete`](Self::apply_delete), with the size of what was freed
    /// and the records that were deleted.
    pub fn apply_delete_stats(
        &mut self,
        before_seq: Option<u64>,
        match_: Option<&Filter>,
        bound_head: Option<u64>,
        now_ms: i64,
    ) -> (r: (DeleteStats, Vec<u64>))
        requires
            old(self).wf(),
        ensures
            final(self).wf(),
            final(self)@ == old(self)@.after_delete(
                before_seq,
                filter_of(match_),
                bound_head,
                now_ms,
            ),
            r.0 == old(self)@.delete_stats(
                before_seq,
                filter_of(match_),
                bound_head,
                now_ms,
            ),
            ({
                let t = old(self)@.retained(now_ms);
                let bound = t.delete_bound(before_seq, bound_head);
                forall|s: u64| #[trigger]
                    r.1@.contains(s) <==> t.victims(filter_of(match_), bound).contains(s)
                        && t.has_live(s)
            }),
    {
        let retention = self.enforce_retention(now_ms);
        let ghost t = self@;
        let ghost filter = filter_of(match_);
        let earliest: u64 = self.earliest_seq();
        let pit: u64 = match bound_head {
            Some(b) => b,
            None => self.head_seq.saturating_add(1),
        };
        let bound: u64 = match before_seq {
            Some(b) => smaller(b, pit),
            None => pit,
        };
        let victims: Vec<u64> = match match_ {
            Some(f) => self.index.matching_live_seqs(f, bound),
            None => self.live_between(larger(earliest, self.index.base_seq), bound),
        };
        proof {
            let want = t.victims(filter, bound);
            assert(victims@.to_set() =~= want);
            assert forall|s: u64| victims@.contains(s) <==> want.contains(s) by {
                assert(victims@.to_set().contains(s) <==> victims@.contains(s));
            }
        }
        let (deleted, freed, gone) = self.erase(victims.as_slice());
        if match_.is_none() && before_seq.is_some() {
            self.raise_delete_below(bound);
        } else {
            self.raise_delete_below(0);
        }
        let front: u64 = self.reclaim_front();
        (
            DeleteStats {
                deleted,
                bytes_freed: retention.bytes_reclaimed.saturating_add(freed).saturating_add(front),
            },
            gone,
        )
    }

    /// Deletes the records named, and says how many of them were live, their size,
    /// and which they were.
    fn erase(&mut self, victims: &[u64]) -> (r: (u64, u64, Vec<u64>))
        requires
            old(self).wf(),
        ensures
            final(self).wf(),
            final(self)@ == old(self)@.without(victims@.to_set()),
            r.0 == old(self)@.loss(victims@.to_set()).deleted,
            r.1 == old(self)@.loss(victims@.to_set()).bytes_freed,
            forall|s: u64| #[trigger]
                r.2@.contains(s) <==> victims@.contains(s) && old(self)@.has_live(s),
    {
        let ghost t = self@;
        proof {
            erase_shrinks(t.base, t.recs, victims@.to_set());
            live_at_most_len(t.recs);
        }
        let (deleted, freed, gone) = erase_all(&mut self.index, victims);
        self.bytes_retained = self.bytes_retained.saturating_sub(freed);
        self.live_count = self.live_count.saturating_sub(deleted);
        assert(self@ == t.without(victims@.to_set()));
        (deleted, freed, gone)
    }

    /// From now on everything below `bound` counts as deleted.
    fn raise_delete_below(&mut self, bound: u64)
        requires
            old(self).wf(),
        ensures
            final(self).wf(),
            final(self)@ == old(self)@.with_delete_below(bound),
    {
        if bound > self.index.delete_below {
            self.index.delete_below = bound;
        }
        let floor: u64 = self.index.delete_below.saturating_sub(1);
        if floor > self.floors.delete_floor {
            self.floors.delete_floor = floor;
        }
    }

    fn live_between(&self, lo: u64, hi: u64) -> (r: Vec<u64>)
        requires
            self.wf(),
        ensures
            r@.to_set() == Set::new(|s: u64| lo <= s < hi && self@.has_live(s)),
            rising(r@),
    {
        let mut out: Vec<u64> = Vec::new();
        let n: usize = self.index.records.len();
        let base: u64 = self.index.base_seq;
        let ghost want = Set::new(|s: u64| lo <= s < hi && self@.has_live(s));
        let mut i: usize = 0;
        while i < n
            invariant
                self.wf(),
                n == self@.recs.len(),
                base == self@.base,
                want == Set::new(|s: u64| lo <= s < hi && self@.has_live(s)),
                i <= n,
                rising(out@),
                forall|j: int| 0 <= j < out@.len() ==> #[trigger] out@[j] < base + i,
                forall|s: u64| #[trigger]
                    out@.contains(s) <==> want.contains(s) && s < base + i,
            decreases n - i,
        {
            let seq: u64 = base + i as u64;
            let ghost o = out@;
            if seq >= lo && seq < hi && !self.index.records[i].deleted {
                out.push(seq);
                proof {
                    assert forall|s: u64| #[trigger] out@.contains(s) <==> o.contains(s) || s
                        == seq by {
                        if o.contains(s) {
                            let m = choose|m: int| 0 <= m < o.len() && o[m] == s;
                            assert(out@[m] == s);
                        }
                        assert(out@[o.len() as int] == seq);
                    }
                    assert(want.contains(seq));
                }
            } else {
                proof {
                    assert(!want.contains(seq)) by {
                        if want.contains(seq) {
                            assert(self@.rec(seq) == self@.recs[i as int]);
                        }
                    }
                }
            }
            i += 1;
        }
        assert(out@.to_set() =~= want);
        out
    }

    /// Deletes single records, and says how many were live.
    pub fn delete_seqs(&mut self, seqs: &[u64]) -> (r: u64)
        requires
            old(self).wf(),
        ensures
            final(self).wf(),
            final(self)@ == old(self)@.after_delete_seqs(seqs@.to_set()),
            r == old(self)@.loss(seqs@.to_set()).deleted,
    {
        self.delete_seqs_stats(seqs).0.deleted
    }

    /// As [`delete_seqs`](Self::delete_seqs), with the size of what was freed and
    /// the records that were deleted.
    pub fn delete_seqs_stats(&mut self, seqs: &[u64]) -> (r: (DeleteStats, Vec<u64>))
        requires
            old(self).wf(),
        ensures
            final(self).wf(),
            final(self)@ == old(self)@.after_delete_seqs(seqs@.to_set()),
            r.0.deleted == old(self)@.loss(seqs@.to_set()).deleted,
            r.0.bytes_freed == crate::eviction::sat_add(
                old(self)@.loss(seqs@.to_set()).bytes_freed,
                old(self)@.without(seqs@.to_set()).reclaim_bytes(),
            ),
            forall|s: u64| #[trigger]
                r.1@.contains(s) <==> seqs@.contains(s) && old(self)@.has_live(s),
    {
        let (deleted, freed, gone) = self.erase(seqs);
        let front: u64 = self.reclaim_front();
        (DeleteStats { deleted, bytes_freed: freed.saturating_add(front) }, gone)
    }
}

/// The filter behind an optional reference.
pub open spec fn filter_of(f: Option<&Filter>) -> Option<Filter> {
    match f {
        Some(x) => Some(*x),
        None => None,
    }
}

} // verus!
