//! The frames of the log.
use crate::types::{Filter, FilterOp, MatchSel, Router, RouterGuarantee, TopicConfig};
use vstd::prelude::*;

verus! {

/// A router as the log keeps it.
#[derive(Debug)]
pub struct RouterOp {
    pub name: String,
    pub source: String,
    pub dest: String,
    pub preserve_node: bool,
    pub preserve_tag: bool,
    pub create_dest: bool,
    pub filter: Option<MatchSel>,
    pub allow_cycle: bool,
}

/// A frame of the log.
#[derive(Debug)]
pub enum WalRecord {
    /// A record was written.
    Append {
        topic_id: u64,
        seq: u64,
        ts: u64,
        node: Option<String>,
        tag: Option<String>,
        data: String,
    },
    /// Records were deleted: those named, or those selected below a bound.
    Delete {
        topic_id: u64,
        before_seq: Option<u64>,
        match_: Option<MatchSel>,
        seqs: Vec<u64>,
        bound_head: Option<u64>,
        ts: u64,
    },
    /// A topic was created or changed; without settings, it was deleted.
    TopicConfig { topic_id: u64, name: String, config: Option<TopicConfig>, ts: u64 },
    RouterCreate { op: RouterOp, ts: u64 },
    RouterDelete { name: String, ts: u64 },
    /// Floors of involuntary loss moved.
    EvictWatermark { topic_id: u64, evict_floor: u64, expiry_floor: u64, ts: u64 },
    /// A lease was claimed (0), released (1), extended (2) or acknowledged (3).
    Lease {
        topic_id: u64,
        seq: u64,
        event: u8,
        holder: String,
        lease_id: u64,
        deadline: u64,
        deliveries: u64,
        ts: u64,
    },
    /// Sequence numbers were reserved.
    HeadWatermark { topic_id: u64, head_seq: u64, ts: u64 },
    /// A snapshot was taken.
    CheckpointMark { ts: u64 },
}

/// A time as the log keeps it.
pub open spec fn stamp(now: i64) -> u64 {
    if now < 0 {
        0
    } else {
        now as u64
    }
}

/// A time as the log keeps it.
pub fn log_time(now: i64) -> (r: u64)
    ensures
        r == stamp(now),
{
    if now < 0 {
        0
    } else {
        now as u64
    }
}

impl WalRecord {
    /// The topic a frame belongs to, `0` where it belongs to none.
    pub open spec fn topic(self) -> u64 {
        match self {
            WalRecord::Append { topic_id, .. } => topic_id,
            WalRecord::Delete { topic_id, .. } => topic_id,
            WalRecord::TopicConfig { topic_id, .. } => topic_id,
            WalRecord::EvictWatermark { topic_id, .. } => topic_id,
            WalRecord::Lease { topic_id, .. } => topic_id,
            WalRecord::HeadWatermark { topic_id, .. } => topic_id,
            _ => 0,
        }
    }

    /// The topic a frame belongs to, `0` where it belongs to none.
    pub fn topic_id(&self) -> (r: u64)
        ensures
            r == self.topic(),
    {
        match self {
            WalRecord::Append { topic_id, .. } => *topic_id,
            WalRecord::Delete { topic_id, .. } => *topic_id,
            WalRecord::TopicConfig { topic_id, .. } => *topic_id,
            WalRecord::EvictWatermark { topic_id, .. } => *topic_id,
            WalRecord::Lease { topic_id, .. } => *topic_id,
            WalRecord::HeadWatermark { topic_id, .. } => *topic_id,
            _ => 0,
        }
    }
}

/// The log's form of a filter.
pub open spec fn selection(f: Filter) -> MatchSel {
    match f.op {
        FilterOp::Eq => MatchSel::Eq(f.value),
        FilterOp::Glob => MatchSel::Glob(f.value),
    }
}

/// The filter behind the log's form.
pub open spec fn selector(m: MatchSel) -> Filter {
    match m {
        MatchSel::Eq(value) => Filter { op: FilterOp::Eq, value },
        MatchSel::Glob(value) => Filter { op: FilterOp::Glob, value },
    }
}

/// The log's form of a filter.
pub fn filter_to_matchsel(f: &Filter) -> (r: MatchSel)
    ensures
        r == selection(*f),
{
    match f.op {
        FilterOp::Eq => MatchSel::Eq(f.value.clone()),
        FilterOp::Glob => MatchSel::Glob(f.value.clone()),
    }
}

/// The filter behind the log's form.
pub fn matchsel_to_filter(m: &MatchSel) -> (r: Filter)
    ensures
        r == selector(*m),
{
    match m {
        MatchSel::Eq(v) => Filter { op: FilterOp::Eq, value: v.clone() },
        MatchSel::Glob(v) => Filter { op: FilterOp::Glob, value: v.clone() },
    }
}

/// The log's form of a filter loses nothing.
pub proof fn filter_survives_the_log(f: Filter, m: MatchSel)
    ensures
        selector(selection(f)) == f,
        selection(selector(m)) == m,
{
}

/// The log's form of a router.
pub open spec fn logged_router(r: Router) -> RouterOp {
    RouterOp {
        name: r.name,
        source: r.source,
        dest: r.dest,
        preserve_node: r.preserve_node,
        preserve_tag: r.preserve_tag,
        create_dest: r.create_dest,
        filter: match r.filter {
            Some(f) => Some(selection(f)),
            None => None,
        },
        allow_cycle: r.allow_cycle,
    }
}

/// The router behind the log's form.
pub open spec fn router_of(op: RouterOp) -> Router {
    Router {
        name: op.name,
        source: op.source,
        dest: op.dest,
        preserve_node: op.preserve_node,
        preserve_tag: op.preserve_tag,
        create_dest: op.create_dest,
        filter: match op.filter {
            Some(m) => Some(selector(m)),
            None => None,
        },
        allow_cycle: op.allow_cycle,
        guarantee: RouterGuarantee::AtLeastOnce,
    }
}

/// The log's form of a router.
pub fn router_to_log(r: &Router) -> (op: RouterOp)
    ensures
        op == logged_router(*r),
{
    RouterOp {
        name: r.name.clone(),
        source: r.source.clone(),
        dest: r.dest.clone(),
        preserve_node: r.preserve_node,
        preserve_tag: r.preserve_tag,
        create_dest: r.create_dest,
        filter: match &r.filter {
            Some(f) => Some(filter_to_matchsel(f)),
            None => None,
        },
        allow_cycle: r.allow_cycle,
    }
}

/// The router behind the log's form.
pub fn router_from_log(op: RouterOp) -> (r: Router)
    ensures
        r == router_of(op),
{
    Router {
        name: op.name,
        source: op.source,
        dest: op.dest,
        preserve_node: op.preserve_node,
        preserve_tag: op.preserve_tag,
        create_dest: op.create_dest,
        filter: match &op.filter {
            Some(m) => Some(matchsel_to_filter(m)),
            None => None,
        },
        allow_cycle: op.allow_cycle,
        guarantee: RouterGuarantee::AtLeastOnce,
    }
}

} // verus!
