//! The frames that are logged before a topic or a router is changed.
use crate::delete::delete_frame;
use crate::engine::{Engine, EngineView};
use crate::names::in_order;
use crate::router::touching;
use crate::text::texts;
use crate::types::{Durability, Filter, Router, RouterGuarantee, TopicConfig};
use crate::wal::{filter_survives_the_log, log_time, logged_router, router_of, router_to_log,
    selection, stamp, WalRecord};
use vstd::prelude::*;

verus! {

impl EngineView {
    /// The number a topic has, or will get when it is created next.
    pub open spec fn id_for(self, name: Seq<char>) -> u64 {
        if self.topics.contains_key(name) {
            self.topics[name].topic_id
        } else {
            self.next_topic_id
        }
    }

    /// The frame to be logged before retention is enforced in a topic, if any.
    pub open spec fn watermark(self, name: Seq<char>, now: i64) -> Option<WalRecord> {
        let t = self.topics[name];
        let plan = t.plan(now);
        if self.topics.contains_key(name) && plan.floor_advanced && plan.durable_advance
            && t.config.class() != Durability::Memory {
            Some(
                WalRecord::EvictWatermark {
                    topic_id: t.topic_id,
                    evict_floor: plan.evict_floor,
                    expiry_floor: plan.expiry_floor,
                    ts: stamp(now),
                },
            )
        } else {
            None
        }
    }
}

/// The frame for settings of a topic; for its end, where there are none.
pub open spec fn topic_frame(
    f: WalRecord,
    id: u64,
    name: Seq<char>,
    config: Option<TopicConfig>,
    now: i64,
) -> bool {
    match f {
        WalRecord::TopicConfig { topic_id, name: n, config: c, ts } => {
            &&& topic_id == id
            &&& n@ == name
            &&& c == config
            &&& ts == stamp(now)
        },
        _ => false,
    }
}

/// The frame for the end of a router.
pub open spec fn router_end_frame(f: WalRecord, name: Seq<char>, now: i64) -> bool {
    match f {
        WalRecord::RouterDelete { name: n, ts } => n@ == name && ts == stamp(now),
        _ => false,
    }
}

/// Builds the frame for the end of a router.
pub fn delete_router_frame(name: &str, now: i64) -> (r: WalRecord)
    ensures
        router_end_frame(r, name@, now),
{
    WalRecord::RouterDelete { name: name.to_string(), ts: log_time(now) }
}

/// Builds the frame for a router.
pub fn put_router_frame(router: &Router, now: i64) -> (r: WalRecord)
    ensures
        r is RouterCreate,
        r->RouterCreate_op == logged_router(*router),
        r->RouterCreate_ts == stamp(now),
{
    WalRecord::RouterCreate { op: router_to_log(router), ts: log_time(now) }
}

/// Builds the frame for the deletion of records by their sequence numbers.
pub fn delete_seqs_frame(topic_id: u64, seqs: Vec<u64>, now: i64) -> (r: WalRecord)
    ensures
        r is Delete,
        r->Delete_topic_id == topic_id,
        r->Delete_before_seq is None,
        r->Delete_match_ is None,
        r->Delete_seqs == seqs,
        r->Delete_bound_head is None,
        r->Delete_ts == stamp(now),
{
    WalRecord::Delete {
        topic_id,
        before_seq: None,
        match_: None,
        seqs,
        bound_head: None,
        ts: log_time(now),
    }
}

impl Engine {
    /// Builds the frame for creating or changing a topic.
    pub fn put_box_frame(&self, name: &str, config: &TopicConfig, now: i64) -> (r: WalRecord)
        requires
            self.wf(),
        ensures
            topic_frame(r, self@.id_for(name@), name@, Some(config.normalized()), now),
    {
        let mut c = config.copy();
        c.normalize_durability();
        let id: u64 = match self.get_box(name) {
            Some(t) => t.topic_id,
            None => self.next_topic_id,
        };
        WalRecord::TopicConfig {
            topic_id: id,
            name: name.to_string(),
            config: Some(c),
            ts: log_time(now),
        }
    }

    /// Builds the frame to be logged before retention is enforced in a topic: where
    /// the floors move in a way that cannot be derived again.
    pub fn watermark_due(&self, name: &str, now: i64) -> (r: Option<WalRecord>)
        requires
            self.wf(),
        ensures
            r == self@.watermark(name@, now),
    {
        match self.get_box(name) {
            Some(t) => {
                let plan = t.plan_retention(now);
                if plan.floor_advanced && plan.durable_advance && !t.config.is_memory() {
                    Some(
                        WalRecord::EvictWatermark {
                            topic_id: t.topic_id,
                            evict_floor: plan.evict_floor,
                            expiry_floor: plan.expiry_floor,
                            ts: log_time(now),
                        },
                    )
                } else {
                    None
                }
            },
            None => None,
        }
    }

    /// Builds the frames for deleting a topic: its own, and one for each router that
    /// goes with it. There are none where the topic is not there.
    pub fn delete_box_frames(&self, name: &str, now: i64) -> (r: Vec<WalRecord>)
        requires
            self.wf(),
        ensures
            !self@.topics.contains_key(name@) ==> r@.len() == 0,
            self@.topics.contains_key(name@) ==> ({
                let gone = in_order(touching(self@.routers.routers, name@));
                &&& r@.len() == gone.len() + 1
                &&& topic_frame(r@[0], self@.id_for(name@), name@, None, now)
                &&& forall|i: int|
                    0 <= i < gone.len() ==> router_end_frame(
                        #[trigger] r@[i + 1],
                        gone[i],
                        now,
                    )
            }),
    {
        let mut out: Vec<WalRecord> = Vec::new();
        match self.get_box(name) {
            Some(t) => {
                out.push(
                    WalRecord::TopicConfig {
                        topic_id: t.topic_id,
                        name: name.to_string(),
                        config: None,
                        ts: log_time(now),
                    },
                );
            },
            None => {
                return out;
            },
        }
        let gone = self.routers.routers_touching_topic(name);
        let mut i: usize = 0;
        while i < gone.len()
            invariant
                i <= gone@.len(),
                out@.len() == i + 1,
                topic_frame(out@[0], self@.id_for(name@), name@, None, now),
                forall|j: int|
                    0 <= j < i ==> router_end_frame(#[trigger] out@[j + 1], gone@[j]@, now),
            decreases gone@.len() - i,
        {
            out.push(delete_router_frame(gone[i].as_str(), now));
            i += 1;
        }
        proof {
            let names = in_order(touching(self@.routers.routers, name@));
            assert(texts(gone@) == names);
            assert forall|j: int| 0 <= j < names.len() implies router_end_frame(
                #[trigger] out@[j + 1],
                names[j],
                now,
            ) by {
                assert(texts(gone@)[j] == gone@[j]@);
            }
        }
        out
    }
}

/// A topic that was created or changed is there again after a restart, with the same
/// number and settings.
pub proof fn put_is_recovered(
    v: EngineView,
    name: Seq<char>,
    config: TopicConfig,
    f: WalRecord,
    now: i64,
    v2: EngineView,
)
    requires
        v.next_topic_id < u64::MAX,
        v.put_refusal(name, config) is None,
        topic_frame(f, v.id_for(name), name, Some(config.normalized()), now),
        v.replays(f, now, v2),
    ensures
        v2 == v.with_put(name, config, now),
{
}

/// A topic that was deleted stays deleted after a restart, and so do the routers that
/// went with it.
pub proof fn deletion_is_recovered(
    v: EngineView,
    name: Seq<char>,
    f: WalRecord,
    now: i64,
    v2: EngineView,
)
    requires
        topic_frame(f, v.id_for(name), name, None, now),
        v.replays(f, now, v2),
    ensures
        v2.topics == v.without_topic(name).topics,
        v2.routers == v.without_topic(name).routers,
{
}

/// A router that was created is there again after a restart, and goes on from the
/// head its source has by that time.
pub proof fn router_is_recovered(v: EngineView, r: Router, f: WalRecord, now: i64, v2: EngineView)
    requires
        v.routers.accepts(r),
        r.guarantee == RouterGuarantee::AtLeastOnce,
        f is RouterCreate,
        f->RouterCreate_op == logged_router(r),
        v.replays(f, now, v2),
    ensures
        v2 == v.with_router(r),
{
    match r.filter {
        Some(x) => filter_survives_the_log(x, selection(x)),
        None => {},
    }
    assert(router_of(logged_router(r)) == r);
}

/// A router that was deleted stays deleted after a restart.
pub proof fn router_end_is_recovered(
    v: EngineView,
    name: Seq<char>,
    f: WalRecord,
    now: i64,
    v2: EngineView,
)
    requires
        router_end_frame(f, name, now),
        v.replays(f, now, v2),
    ensures
        v2.routers == v.routers.without(set![name]),
        v2.topics == v.topics,
{
}

/// A deletion that was logged is made again after a restart, as of the same head and
/// the same time.
pub proof fn record_deletion_is_recovered(
    v: EngineView,
    name: Seq<char>,
    f: WalRecord,
    before: Option<u64>,
    filter: Option<Filter>,
    bound: u64,
    now: i64,
    at: i64,
    v2: EngineView,
)
    requires
        v.topics.contains_key(name),
        v.name_of(v.topics[name].topic_id) == Some(name),
        0 <= now,
        delete_frame(f, v.topics[name].topic_id, before, filter, bound, now),
        v.replays(f, at, v2),
    ensures
        v2 == v.with_topic(v.topics[name].after_delete(before, filter, Some(bound), now)),
{
    match filter {
        Some(x) => {
            filter_survives_the_log(x, selection(x));
        },
        None => {},
    }
}

/// Jobs that were acknowledged are deleted again after a restart.
pub proof fn job_deletion_is_recovered(
    v: EngineView,
    name: Seq<char>,
    f: WalRecord,
    seqs: Seq<u64>,
    at: i64,
    v2: EngineView,
)
    requires
        v.topics.contains_key(name),
        v.name_of(v.topics[name].topic_id) == Some(name),
        seqs.len() > 0,
        f is Delete,
        f->Delete_topic_id == v.topics[name].topic_id,
        f->Delete_seqs@ == seqs,
        v.replays(f, at, v2),
    ensures
        v2 == v.with_topic(v.topics[name].after_delete_seqs(seqs.to_set())),
{
}

/// What retention drops stays dropped: where its frame is logged and applied again to
/// the topic as it was, or to one that has lost more, the floors lie no lower than
/// after retention.
pub proof fn retention_is_recovered(
    v: EngineView,
    name: Seq<char>,
    now: i64,
    w: EngineView,
    at: Seq<char>,
)
    requires
        v.watermark(name, now) is Some,
        w.name_of(v.topics[name].topic_id) == Some(at),
        w.topics[at].name == at,
        w.topics[at].floors.covers(v.topics[name].floors),
    ensures
        ({
            let f = v.watermark(name, now)->0;
            let u = w.with_watermark(
                f->EvictWatermark_topic_id,
                f->EvictWatermark_evict_floor,
                f->EvictWatermark_expiry_floor,
            );
            &&& w.replays(f, now, u)
            &&& u.topics.contains_key(at)
            &&& u.topics[at].floors.covers(v.topics[name].retained(now).floors)
        }),
{
}

} // verus!
