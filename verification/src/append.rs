//! Records that the engine itself adds to a topic, in two steps: staged and named to
//! the log first, readable once they are logged.
use crate::engine::{Engine, EngineView};
use crate::topic_index::{bytes_in, StoredRecord};
use crate::topic_laws::retention_keeps;
use crate::topic_state::{erase_set, run, StagedAppend, TopicState, TopicView};
use crate::types::Durability;
use crate::wal::WalRecord;
use crate::write::{append_frames, wal_enqueue_batch};
use vstd::prelude::*;

verus! {

/// Records that are staged in a topic and wait for the log.
#[derive(Debug)]
pub struct PendingAppend {
    pub name: String,
    pub topic_id: u64,
    pub ticket: u64,
    pub staged: StagedAppend,
    /// The frames to be logged, in order.
    pub frames: Vec<WalRecord>,
    /// Whether the log must reach the disk.
    pub durable: bool,
}

impl PendingAppend {
    /// It stands for records that were staged in a topic. What lives in memory alone
    /// is not logged.
    pub open spec fn stages(self, t: TopicView, recs: Seq<StoredRecord>) -> bool {
        &&& self.name@ == t.name
        &&& self.topic_id == t.topic_id
        &&& self.ticket == t.next_ticket
        &&& self.staged == t.staging(recs)
        &&& self.durable == (t.config.class() == Durability::Fsync)
        &&& if t.config.class() == Durability::Memory {
            self.frames@.len() == 0
        } else {
            append_frames(self.frames@, t.topic_id, t.tail() as u64, recs)
        }
    }
}

impl TopicView {
    /// The topic with a staged run taken back and the turn passed on.
    pub open spec fn taken_back(self, staged: StagedAppend) -> TopicView {
        (TopicView {
            recs: erase_set(self.base, self.recs, run(staged.start, staged.count).to_set()),
            ..self
        }).turned()
    }

    /// The topic once records were staged, logged and made readable, and retention
    /// was enforced.
    pub open spec fn landed(self, recs: Seq<StoredRecord>, now: i64) -> TopicView {
        self.staged(recs).ticketed().published(self.staging(recs), now).turned().retained(now)
    }
}

impl EngineView {
    /// The topic records were staged in is still there.
    pub open spec fn holds_append(self, p: PendingAppend) -> bool {
        self.topics.contains_key(p.name@) && self.topics[p.name@].topic_id == p.topic_id
    }

    /// It is the turn of staged records, whose run lies beyond the head; or their
    /// topic is gone.
    pub open spec fn append_ready(self, p: PendingAppend) -> bool {
        self.holds_append(p) ==> {
            let t = self.topics[p.name@];
            &&& t.turn == p.ticket
            &&& p.staged.count > 0
            &&& t.head < p.staged.start
            &&& p.staged.start + p.staged.count <= t.tail()
            &&& t.bytes + p.staged.added_bytes <= u64::MAX
            &&& t.live + p.staged.count <= u64::MAX
        }
    }

    /// The engine once it is known whether staged records could be logged.
    pub open spec fn append_done(self, p: PendingAppend, committed: bool, now: i64) -> EngineView {
        if !self.holds_append(p) {
            self
        } else if committed {
            self.with_topic(self.topics[p.name@].published(p.staged, now).turned().retained(now))
        } else {
            self.with_topic(self.topics[p.name@].taken_back(p.staged))
        }
    }
}

impl TopicState {
    /// Stages records, takes a ticket for them, and says what has to be logged.
    pub fn begin_append(&mut self, records: Vec<StoredRecord>) -> (r: PendingAppend)
        requires
            old(self).wf(),
            records@.len() > 0,
            old(self)@.tail() + records@.len() <= u64::MAX,
            forall|i: int|
                0 <= i < records@.len() ==> (#[trigger] records@[i]).ok() && records@[i].data
                    is Some,
        ensures
            final(self).wf(),
            final(self)@ == old(self)@.staged(records@).ticketed(),
            r.stages(old(self)@, records@),
    {
        let class = self.config.durability_class();
        let start: u64 = self.index.base_seq + self.index.records.len() as u64;
        let frames = if class == Durability::Memory {
            Vec::new()
        } else {
            wal_enqueue_batch(self.topic_id, start, &records)
        };
        let staged = self.stage_append(records);
        let ticket: u64 = self.next_publish_ticket();
        PendingAppend {
            name: self.name.clone(),
            topic_id: self.topic_id,
            ticket,
            staged,
            frames,
            durable: class == Durability::Fsync,
        }
    }
}

impl Engine {
    /// Whether staged records can be made readable or be taken back now: it is their
    /// turn, or their topic is gone.
    pub fn can_finish_append(&self, p: &PendingAppend) -> (r: bool)
        requires
            self.wf(),
        ensures
            r == self@.append_ready(*p),
    {
        match self.topics.get(p.name.as_str()) {
            Some(t) => {
                if t.topic_id != p.topic_id {
                    return true;
                }
                let tail: u64 = t.index.base_seq + t.index.records.len() as u64;
                t.is_turn(p.ticket) && p.staged.count > 0 && p.staged.count <= tail
                    && p.staged.start <= tail - p.staged.count && p.staged.start > t.head_seq()
                    && p.staged.added_bytes <= u64::MAX - t.bytes() && p.staged.count <= u64::MAX
                    - t.count()
            },
            None => true,
        }
    }

    /// Makes staged records readable once they are logged, or takes them back. Says
    /// whether they can be read now.
    pub fn finish_append(&mut self, p: &PendingAppend, committed: bool, now: i64) -> (r: bool)
        requires
            old(self).wf(),
            old(self)@.append_ready(*p),
            p.staged.fits(),
        ensures
            final(self).wf(),
            final(self)@ == old(self)@.append_done(*p, committed, now),
            r == (committed && old(self)@.holds_append(*p)),
    {
        let ghost v = self@;
        let present = match self.topics.get(p.name.as_str()) {
            Some(t) => t.topic_id == p.topic_id,
            None => false,
        };
        if !present {
            return false;
        }
        match self.take_topic(p.name.as_str()) {
            Some(t) => {
                let mut t = t;
                if committed {
                    let staged = StagedAppend {
                        start: p.staged.start,
                        count: p.staged.count,
                        added_bytes: p.staged.added_bytes,
                        pre_len: p.staged.pre_len,
                    };
                    let _ = t.publish_staged(staged, now);
                    t.publish_done(p.ticket);
                    proof {
                        retention_keeps(t@, now);
                    }
                    let _ = t.enforce_retention(now);
                } else {
                    t.rollback_staged_by_seqs(&p.staged);
                    t.publish_done(p.ticket);
                }
                self.put_topic(t);
                proof {
                    assert(self@.topics =~= v.topics.insert(p.name@, t@));
                }
                committed
            },
            None => false,
        }
    }
}

/// Where nothing else is staged in a topic, records that were staged in it can be
/// finished at once, and land.
pub proof fn staged_append_can_finish(
    v: EngineView,
    t: TopicView,
    recs: Seq<StoredRecord>,
    p: PendingAppend,
    now: i64,
)
    requires
        t.ok(),
        t.idle(),
        recs.len() > 0,
        t.room(recs.len(), bytes_in(recs)),
        p.stages(t, recs),
    ensures
        ({
            let w = v.with_topic(t.staged(recs).ticketed());
            &&& w.append_ready(p)
            &&& w.holds_append(p)
            &&& p.staged.fits()
            &&& w.append_done(p, true, now).topics == v.with_topic(t.landed(recs, now)).topics
            &&& w.append_done(p, true, now) == v.with_topic(t.landed(recs, now))
        }),
{
    let w = v.with_topic(t.staged(recs).ticketed());
    assert(w.topics[t.name] == t.staged(recs).ticketed());
    let l = t.landed(recs, now);
    assert(w.append_done(p, true, now).topics =~= v.with_topic(l).topics);
}

} // verus!
