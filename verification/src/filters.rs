//! What a reader gets to see of a record.
use crate::types::NodeFilter;
use vstd::prelude::*;

verus! {

/// What a reader gets to see of a record.
#[derive(Debug, Clone, Copy, PartialEq, Eq, Structural)]
pub enum ReadDecision {
    Deliver,
    /// The record was deleted.
    Deleted,
    /// The record is too old.
    Expired,
    /// The record is the reader's own.
    NodeFiltered,
}

/// A record is the reader's own.
pub open spec fn own_record(reader: Option<NodeFilter>, node: Option<String>) -> bool {
    reader is Some && node is Some && reader->0.covers(node->0@)
}

/// What a reader gets to see of a record.
pub open spec fn decision(
    reader: Option<NodeFilter>,
    ttl_ms: u64,
    now: i64,
    ts: i64,
    deleted: bool,
    node: Option<String>,
) -> ReadDecision {
    if deleted {
        ReadDecision::Deleted
    } else if ttl_ms > 0 && now - ts > ttl_ms {
        ReadDecision::Expired
    } else if own_record(reader, node) {
        ReadDecision::NodeFiltered
    } else {
        ReadDecision::Deliver
    }
}

/// The reader behind an optional reference.
pub open spec fn reader_of(r: Option<&NodeFilter>) -> Option<NodeFilter> {
    match r {
        Some(x) => Some(*x),
        None => None,
    }
}

/// Decides what a reader gets to see of a record.
pub fn evaluate(
    reader: Option<&NodeFilter>,
    ttl_ms: u64,
    now: i64,
    ts: i64,
    deleted: bool,
    node: &Option<String>,
) -> (r: ReadDecision)
    ensures
        r == decision(reader_of(reader), ttl_ms, now, ts, deleted, *node),
{
    if deleted {
        return ReadDecision::Deleted;
    }
    if ttl_ms > 0 && (now as i128) - (ts as i128) > ttl_ms as i128 {
        return ReadDecision::Expired;
    }
    let own = match reader {
        Some(f) => match node {
            Some(n) => f.names(n.as_str()),
            None => false,
        },
        None => false,
    };
    if own {
        ReadDecision::NodeFiltered
    } else {
        ReadDecision::Deliver
    }
}

} // verus!
