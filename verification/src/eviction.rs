//! Retention floors, admission and gap reports.
use crate::types::{Discard, Tombstone, TombstoneReason};
use vstd::prelude::*;

verus! {

/// The larger of two numbers.
pub open spec fn max64(a: u64, b: u64) -> u64 {
    if a > b {
        a
    } else {
        b
    }
}

/// The smaller of two numbers.
pub open spec fn min64(a: u64, b: u64) -> u64 {
    if a < b {
        a
    } else {
        b
    }
}

/// The next number, where there is one.
pub open spec fn after(a: u64) -> u64 {
    if a == u64::MAX {
        a
    } else {
        (a + 1) as u64
    }
}

/// The number before, where there is one.
pub open spec fn before(a: u64) -> u64 {
    if a == 0 {
        a
    } else {
        (a - 1) as u64
    }
}

/// The sum, or the largest number where it does not fit.
pub open spec fn sat_add(a: u64, b: u64) -> u64 {
    if a + b > u64::MAX {
        u64::MAX
    } else {
        (a + b) as u64
    }
}

/// The difference, or 0 where it would be negative.
pub open spec fn sat_sub(a: u64, b: u64) -> u64 {
    if a < b {
        0
    } else {
        (a - b) as u64
    }
}

/// The larger of two numbers.
pub fn larger(a: u64, b: u64) -> (r: u64)
    ensures
        r == max64(a, b),
{
    if a > b {
        a
    } else {
        b
    }
}

/// The smaller of two numbers.
pub fn smaller(a: u64, b: u64) -> (r: u64)
    ensures
        r == min64(a, b),
{
    if a < b {
        a
    } else {
        b
    }
}

/// The floors of a topic: for each way a record can go, the highest sequence
/// number it has gone by. `0` stands for "none".
#[derive(Debug, Clone, Copy, PartialEq, Eq, Structural)]
pub struct Floors {
    /// Evicted to keep a cap.
    pub evict_floor: u64,
    /// Too old.
    pub expiry_floor: u64,
    /// Deleted on request.
    pub delete_floor: u64,
    /// Missing from a router's source.
    pub source_trim_floor: u64,
}

impl Default for Floors {
    fn default() -> (r: Floors)
        ensures
            r == no_floors(),
    {
        Floors { evict_floor: 0, expiry_floor: 0, delete_floor: 0, source_trim_floor: 0 }
    }
}

/// The floors of a topic that has lost nothing.
pub open spec fn no_floors() -> Floors {
    Floors { evict_floor: 0, expiry_floor: 0, delete_floor: 0, source_trim_floor: 0 }
}

impl Floors {
    /// The highest sequence number lost against the reader's will.
    pub open spec fn lost(self) -> u64 {
        max64(max64(self.evict_floor, self.expiry_floor), self.source_trim_floor)
    }

    /// The highest sequence number gone in any way.
    pub open spec fn gone(self) -> u64 {
        max64(self.lost(), self.delete_floor)
    }

    /// The first sequence number above every floor, within the topic.
    pub open spec fn earliest(self, seq_base: u64, head: u64) -> u64 {
        min64(max64(after(self.gone()), seq_base), after(head))
    }

    /// The first sequence number above the floors of involuntary loss, within the
    /// topic.
    pub open spec fn first_kept(self, seq_base: u64, head: u64) -> u64 {
        min64(max64(after(self.lost()), seq_base), after(head))
    }

    /// No floor is lower than in `o`.
    pub open spec fn covers(self, o: Floors) -> bool {
        &&& o.evict_floor <= self.evict_floor
        &&& o.expiry_floor <= self.expiry_floor
        &&& o.delete_floor <= self.delete_floor
        &&& o.source_trim_floor <= self.source_trim_floor
    }

    /// Why a gap that starts at `gap_from` is there: the floors that reach it.
    pub open spec fn reason(self, gap_from: u64) -> TombstoneReason {
        let cap = self.evict_floor >= gap_from && self.evict_floor > 0;
        let ttl = self.expiry_floor >= gap_from && self.expiry_floor > 0;
        let trim = self.source_trim_floor >= gap_from && self.source_trim_floor > 0;
        if cap && ttl {
            TombstoneReason::Mixed
        } else if ttl {
            TombstoneReason::Ttl
        } else if !cap && trim {
            TombstoneReason::SourceTrim
        } else {
            TombstoneReason::Cap
        }
    }

    /// The first sequence number above every floor, within the topic.
    pub fn earliest_seq(&self, seq_base: u64, head_seq: u64) -> (r: u64)
        ensures
            r == self.earliest(seq_base, head_seq),
    {
        let floor: u64 = larger(
            larger(larger(self.evict_floor, self.expiry_floor), self.delete_floor),
            self.source_trim_floor,
        );
        smaller(larger(floor.saturating_add(1), seq_base), head_seq.saturating_add(1))
    }

    /// The first sequence number above the floors of involuntary loss, within the
    /// topic.
    pub fn evict_earliest(&self, seq_base: u64, head_seq: u64) -> (r: u64)
        ensures
            r == self.first_kept(seq_base, head_seq),
    {
        let floor: u64 = larger(
            larger(self.evict_floor, self.expiry_floor),
            self.source_trim_floor,
        );
        smaller(larger(floor.saturating_add(1), seq_base), head_seq.saturating_add(1))
    }

    /// Why a gap that starts at `gap_from` is there.
    pub fn reason_for_gap(&self, gap_from: u64) -> (r: TombstoneReason)
        ensures
            r == self.reason(gap_from),
    {
        let cap = self.evict_floor >= gap_from && self.evict_floor > 0;
        let ttl = self.expiry_floor >= gap_from && self.expiry_floor > 0;
        let trim = self.source_trim_floor >= gap_from && self.source_trim_floor > 0;
        if cap && ttl {
            TombstoneReason::Mixed
        } else if ttl {
            TombstoneReason::Ttl
        } else if cap {
            TombstoneReason::Cap
        } else if trim {
            TombstoneReason::SourceTrim
        } else {
            TombstoneReason::Cap
        }
    }
}

/// Whether a write may enter a topic.
#[derive(Debug, Clone, Copy, PartialEq, Eq, Structural)]
pub enum AdmitDecision {
    Admit,
    Reject,
}

/// A write is admitted: the topic drops old records, or neither cap would be
/// exceeded.
pub open spec fn admitted(
    discard: Discard,
    cap_records: u64,
    cap_bytes: u64,
    current_records: u64,
    current_bytes: u64,
    incoming_records: u64,
    incoming_bytes: u64,
) -> bool {
    ||| discard == Discard::Old
    ||| {
        &&& cap_records == 0 || sat_add(current_records, incoming_records) <= cap_records
        &&& cap_bytes == 0 || sat_add(current_bytes, incoming_bytes) <= cap_bytes
    }
}

/// Decides whether a write may enter a topic.
pub fn admission(
    discard: Discard,
    cap_records: u64,
    cap_bytes: u64,
    current_records: u64,
    current_bytes: u64,
    incoming_records: u64,
    incoming_bytes: u64,
) -> (r: AdmitDecision)
    ensures
        r == AdmitDecision::Admit <==> admitted(
            discard,
            cap_records,
            cap_bytes,
            current_records,
            current_bytes,
            incoming_records,
            incoming_bytes,
        ),
{
    if discard == Discard::Old {
        return AdmitDecision::Admit;
    }
    let proj_records: u64 = current_records.saturating_add(incoming_records);
    let proj_bytes: u64 = current_bytes.saturating_add(incoming_bytes);
    if cap_records > 0 && proj_records > cap_records {
        return AdmitDecision::Reject;
    }
    if cap_bytes > 0 && proj_bytes > cap_bytes {
        return AdmitDecision::Reject;
    }
    AdmitDecision::Admit
}

/// The report of the gap between a cursor and the first sequence number kept.
pub open spec fn gap_report(
    from_seq: u64,
    earliest_seq: u64,
    head_seq: u64,
    reason: TombstoneReason,
) -> Tombstone {
    Tombstone {
        gap_from: after(from_seq),
        gap_to: before(earliest_seq),
        reason,
        missed_estimate: after(sat_sub(before(earliest_seq), after(from_seq))),
        earliest_seq,
        head_seq,
    }
}

/// Builds the report of the gap between a cursor and the first sequence number
/// kept.
pub fn build_tombstone(
    from_seq: u64,
    earliest_seq: u64,
    head_seq: u64,
    reason: TombstoneReason,
) -> (r: Tombstone)
    ensures
        r == gap_report(from_seq, earliest_seq, head_seq, reason),
{
    let gap_from: u64 = from_seq.saturating_add(1);
    let gap_to: u64 = earliest_seq.saturating_sub(1);
    let missed_estimate: u64 = gap_to.saturating_sub(gap_from).saturating_add(1);
    Tombstone { gap_from, gap_to, reason, missed_estimate, earliest_seq, head_seq }
}

/// The floors of involuntary loss never reach beyond the first record a reader
/// can get, and lie at or above the base.
pub proof fn lost_within_earliest(f: Floors, seq_base: u64, head: u64)
    ensures
        f.first_kept(seq_base, head) <= f.earliest(seq_base, head) <= after(head),
{
}

/// A deletion never moves the boundary of involuntary loss, and so never causes
/// a gap report.
pub proof fn deletion_is_silent(f: Floors, delete_floor: u64, seq_base: u64, head: u64)
    ensures
        (Floors { delete_floor, ..f }).first_kept(seq_base, head) == f.first_kept(seq_base, head),
{
}

/// Floors that only rise never bring a record back.
pub proof fn floors_only_advance(f: Floors, g: Floors, seq_base: u64, head: u64)
    requires
        g.covers(f),
    ensures
        f.earliest(seq_base, head) <= g.earliest(seq_base, head),
        f.first_kept(seq_base, head) <= g.first_kept(seq_base, head),
{
}

/// A topic that refuses writes when full never holds more than its caps after an
/// admitted write.
pub proof fn reject_keeps_caps(
    cap_records: u64,
    cap_bytes: u64,
    current_records: u64,
    current_bytes: u64,
    incoming_records: u64,
    incoming_bytes: u64,
)
    requires
        admitted(
            Discard::Reject,
            cap_records,
            cap_bytes,
            current_records,
            current_bytes,
            incoming_records,
            incoming_bytes,
        ),
    ensures
        cap_records > 0 ==> current_records + incoming_records <= cap_records || cap_records
            == u64::MAX,
        cap_bytes > 0 ==> current_bytes + incoming_bytes <= cap_bytes || cap_bytes == u64::MAX,
{
}

/// The gap between a cursor and the first sequence number kept is reported exactly.
pub proof fn gap_report_is_exact(from_seq: u64, earliest_seq: u64, head: u64, r: TombstoneReason)
    requires
        from_seq + 1 < earliest_seq,
    ensures
        gap_report(from_seq, earliest_seq, head, r).gap_from == from_seq + 1,
        gap_report(from_seq, earliest_seq, head, r).gap_to == earliest_seq - 1,
        gap_report(from_seq, earliest_seq, head, r).missed_estimate == earliest_seq - 1 - from_seq,
{
}

} // verus!
