//! Deleting records, in two steps with the log in between.
use crate::engine::{Engine, EngineView};
use crate::engine_laws::delete_keeps_quiet;
use crate::eviction::after;
use crate::topic_laws::{deletion_keeps, retention_keeps};
use crate::topic_state::TopicView;
use crate::types::{copy_filter, Error, ErrorCode, Filter};
use crate::wal::{filter_to_matchsel, log_time, selection, stamp, WalRecord};
use vstd::prelude::*;

verus! {

/// A request to delete: by position, by tag, or both.
#[derive(Debug)]
pub struct DeleteRequest {
    pub before_seq: Option<u64>,
    pub match_: Option<Filter>,
}

impl Default for DeleteRequest {
    fn default() -> (r: DeleteRequest)
        ensures
            r == (DeleteRequest { before_seq: None, match_: None }),
    {
        DeleteRequest { before_seq: None, match_: None }
    }
}

/// The answer to a deletion: how many records went, and what is left.
#[derive(Debug, Clone, Copy, PartialEq, Eq, Structural)]
pub struct DeleteResponse {
    pub deleted: u64,
    pub earliest_seq: u64,
    pub head_seq: u64,
    pub count: u64,
    pub bytes: u64,
}

/// A deletion that waits for the log.
#[derive(Debug)]
pub struct PendingDelete {
    pub name: String,
    pub topic_id: u64,
    pub ticket: u64,
    pub before_seq: Option<u64>,
    pub match_: Option<Filter>,
    /// Nothing from here on is deleted.
    pub bound_head: u64,
    /// The frame to be logged.
    pub frame: WalRecord,
    /// Whether the log must reach the disk.
    pub durable: bool,
}

/// The frame for a deletion.
pub open spec fn delete_frame(
    f: WalRecord,
    topic_id: u64,
    before: Option<u64>,
    filter: Option<Filter>,
    bound: u64,
    now: i64,
) -> bool {
    match f {
        WalRecord::Delete { topic_id: id, before_seq, match_, seqs, bound_head, ts } => {
            &&& id == topic_id
            &&& before_seq == before
            &&& match_ == (match filter {
                Some(x) => Some(selection(x)),
                None => None,
            })
            &&& seqs@.len() == 0
            &&& bound_head == Some(bound)
            &&& ts == stamp(now)
        },
        _ => false,
    }
}

/// The first step of a deletion: what it applies to is fixed, and the frame for it is made.
pub open spec fn delete_begun(
    v: EngineView,
    name: Seq<char>,
    req: DeleteRequest,
    now: i64,
    p: PendingDelete,
    v2: EngineView,
) -> bool {
    let t = v.topics[name].retained(now);
    &&& v2 == v.with_topic(t.ticketed())
    &&& p.name@ == name
    &&& p.topic_id == t.topic_id
    &&& p.ticket == t.next_ticket
    &&& p.before_seq == req.before_seq
    &&& p.match_ == req.match_
    &&& p.bound_head == after(t.head)
    &&& p.durable == (t.config.class() == crate::types::Durability::Fsync)
    &&& delete_frame(p.frame, t.topic_id, req.before_seq, req.match_, after(t.head), now)
}

/// The second step of a deletion, its answer, and the records that went.
pub open spec fn delete_done(
    v: EngineView,
    p: PendingDelete,
    committed: bool,
    now: i64,
    r: Result<(DeleteResponse, Vec<u64>), Error>,
    v2: EngineView,
) -> bool {
    let t = v.topics[p.name@];
    let u = t.after_delete(p.before_seq, p.match_, Some(p.bound_head), now);
    let s = t.delete_stats(p.before_seq, p.match_, Some(p.bound_head), now);
    &&& committed ==> {
        &&& r is Ok
        &&& r->Ok_0.0 == remains(u, s.deleted)
        &&& forall|x: u64| #[trigger]
            r->Ok_0.1@.contains(x) <==> t.retained(now).victims(
                p.match_,
                t.retained(now).delete_bound(p.before_seq, Some(p.bound_head)),
            ).contains(x) && t.retained(now).has_live(x)
        &&& v2 == v.with_topic(u.turned())
    }
    &&& !committed ==> {
        &&& r is Err
        &&& r->Err_0.code == ErrorCode::Internal
        &&& r->Err_0.detail is Plain
        &&& v2 == v.with_topic(t.turned())
    }
}

/// What is left of a topic.
pub open spec fn remains(t: TopicView, deleted: u64) -> DeleteResponse {
    DeleteResponse {
        deleted,
        earliest_seq: t.earliest(),
        head_seq: t.head,
        count: t.live,
        bytes: t.bytes,
    }
}

impl EngineView {
    /// The topic of a deletion is still there, and it is its turn.
    pub open spec fn can_finish_delete(self, p: PendingDelete) -> bool {
        &&& self.topics.contains_key(p.name@)
        &&& self.topics[p.name@].topic_id == p.topic_id
        &&& self.topics[p.name@].turn == p.ticket
    }

    /// The topic after a deletion without a log.
    pub open spec fn deleted_topic(self, name: Seq<char>, req: DeleteRequest, now: i64) -> TopicView {
        let t = self.topics[name].retained(now);
        t.ticketed().after_delete(req.before_seq, req.match_, Some(after(t.head)), now).turned()
    }
}

impl Engine {
    /// The first step of a deletion: fixes the head it is made for, and says what
    /// has to be logged. Nothing is deleted yet.
    pub fn begin_delete(&mut self, name: &str, req: &DeleteRequest, now: i64) -> (r: Result<
        PendingDelete,
        Error,
    >)
        requires
            old(self).wf(),
        ensures
            final(self).wf(),
            match r {
                Ok(p) => {
                    &&& req.before_seq is Some || req.match_ is Some
                    &&& old(self)@.topics.contains_key(name@)
                    &&& delete_begun(old(self)@, name@, *req, now, p, final(self)@)
                },
                Err(e) => {
                    &&& final(self)@ == old(self)@
                    &&& e.detail is Plain
                    &&& if req.before_seq is None && req.match_ is None {
                        e.code == ErrorCode::InvalidRequest
                    } else {
                        e.code == ErrorCode::TopicNotFound && !old(self)@.topics.contains_key(
                            name@,
                        )
                    }
                },
            },
    {
        if req.before_seq.is_none() && req.match_.is_none() {
            return Err(Error::new(ErrorCode::InvalidRequest));
        }
        let ghost v = self@;
        let mut t = match self.take_topic(name) {
            Some(t) => t,
            None => {
                return Err(Error::new(ErrorCode::TopicNotFound));
            },
        };
        proof {
            retention_keeps(t@, now);
        }
        let _ = t.enforce_retention(now);
        let bound_head: u64 = t.head_seq().saturating_add(1);
        let topic_id: u64 = t.topic_id;
        let durable = match t.config.durability_class() {
            crate::types::Durability::Fsync => true,
            _ => false,
        };
        let frame = WalRecord::Delete {
            topic_id,
            before_seq: req.before_seq,
            match_: match &req.match_ {
                Some(f) => Some(filter_to_matchsel(f)),
                None => None,
            },
            seqs: Vec::new(),
            bound_head: Some(bound_head),
            ts: log_time(now),
        };
        let ticket: u64 = t.next_publish_ticket();
        self.put_topic(t);
        proof {
            assert(self@.topics =~= v.topics.insert(name@, t@));
        }
        Ok(
            PendingDelete {
                name: name.to_owned(),
                topic_id,
                ticket,
                before_seq: req.before_seq,
                match_: copy_filter(&req.match_),
                bound_head,
                frame,
                durable,
            },
        )
    }

    /// Whether a deletion can be finished now: its topic is still there, and it is its
    /// turn.
    pub fn can_finish_delete(&self, p: &PendingDelete) -> (r: bool)
        requires
            self.wf(),
        ensures
            r == self@.can_finish_delete(*p),
    {
        match self.topics.get(p.name.as_str()) {
            Some(t) => t.topic_id == p.topic_id && t.is_turn(p.ticket),
            None => false,
        }
    }

    /// The second step of a deletion, once the log has answered. Where the frame is
    /// not logged, nothing is deleted. The records that went are named, for the
    /// segments that hold them.
    pub fn finish_delete(&mut self, p: PendingDelete, committed: bool, now: i64) -> (r: Result<
        (DeleteResponse, Vec<u64>),
        Error,
    >)
        requires
            old(self).wf(),
            old(self)@.can_finish_delete(p),
        ensures
            final(self).wf(),
            delete_done(old(self)@, p, committed, now, r, final(self)@),
    {
        let ghost v = self@;
        let mut t = match self.take_topic(p.name.as_str()) {
            Some(t) => t,
            None => {
                return Err(Error::new(ErrorCode::TopicNotFound));
            },
        };
        if !committed {
            t.publish_done(p.ticket);
            self.put_topic(t);
            proof {
                assert(self@.topics =~= v.topics.insert(p.name@, t@));
            }
            return Err(Error::new(ErrorCode::Internal));
        }
        proof {
            deletion_keeps(t@, p.before_seq, p.match_, Some(p.bound_head), now);
        }
        let (stats, gone) = t.apply_delete_stats(
            p.before_seq,
            p.match_.as_ref(),
            Some(p.bound_head),
            now,
        );
        t.publish_done(p.ticket);
        let response = DeleteResponse {
            deleted: stats.deleted,
            earliest_seq: t.earliest_seq(),
            head_seq: t.head_seq(),
            count: t.count(),
            bytes: t.bytes(),
        };
        self.put_topic(t);
        proof {
            assert(self@.topics =~= v.topics.insert(p.name@, t@));
        }
        Ok((response, gone))
    }

    /// A deletion without a log: both steps at once.
    pub fn delete(&mut self, name: &str, req: &DeleteRequest, now: i64) -> (r: Result<
        DeleteResponse,
        Error,
    >)
        requires
            old(self).wf(),
            old(self)@.topics.contains_key(name@) ==> old(self)@.topics[name@].turn
                == old(self)@.topics[name@].next_ticket,
        ensures
            final(self).wf(),
            old(self)@.quiet() ==> final(self)@.quiet(),
            if req.before_seq is None && req.match_ is None {
                &&& r is Err
                &&& r->Err_0.code == ErrorCode::InvalidRequest
                &&& r->Err_0.detail is Plain
                &&& final(self)@ == old(self)@
            } else if !old(self)@.topics.contains_key(name@) {
                &&& r is Err
                &&& r->Err_0.code == ErrorCode::TopicNotFound
                &&& r->Err_0.detail is Plain
                &&& final(self)@ == old(self)@
            } else {
                let t = old(self)@.topics[name@].retained(now);
                let u = old(self)@.deleted_topic(name@, *req, now);
                let s = t.ticketed().delete_stats(
                    req.before_seq,
                    req.match_,
                    Some(after(t.head)),
                    now,
                );
                &&& r is Ok
                &&& r->Ok_0 == remains(u, s.deleted)
                &&& final(self)@ == old(self)@.with_topic(u)
            },
    {
        let ghost v = self@;
        proof {
            self.wf_ok();
        }
        match self.begin_delete(name, req, now) {
            Ok(p) => match self.finish_delete(p, true, now) {
                Ok(q) => {
                    proof {
                        if v.quiet() {
                            delete_keeps_quiet(v, name@, *req, now);
                        }
                        assert(self@.topics =~= v.with_topic(
                            v.deleted_topic(name@, *req, now),
                        ).topics);
                    }
                    Ok(q.0)
                },
                Err(e) => Err(e),
            },
            Err(e) => Err(e),
        }
    }
}

} // verus!
