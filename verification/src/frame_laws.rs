//! What the log says of what was done, and what is done again when it is replayed.
use crate::append::PendingAppend;
use crate::control::{router_end_frame, topic_frame};
use crate::delete::{delete_begun, DeleteRequest, PendingDelete};
use crate::engine::EngineView;
use crate::jobs::{lease_frame, lease_frames};
use crate::log_laws::a_time_comes_back;
use crate::payload::{envelope, meta_text};
use crate::recovery::time_of;
use crate::topic_index::StoredRecord;
use crate::topic_state::TopicView;
use crate::types::{Durability, TopicConfig};
use crate::wal::{router_of, selector, WalRecord};
use crate::write::{append_frame, append_frames, PendingWrite};
use vstd::prelude::*;

verus! {

/// A record that was written is logged with its topic, its number, its time, its node, its
/// tag and its payload; and the frames of a batch say one record after the other, under
/// numbers that follow one another.
pub proof fn what_is_logged_of_a_write(
    frames: Seq<WalRecord>,
    id: u64,
    start: u64,
    recs: Seq<StoredRecord>,
    i: int,
)
    requires
        append_frames(frames, id, start, recs),
        0 <= i < recs.len(),
        start + recs.len() <= u64::MAX,
        recs[i].ts >= 0,
    ensures
        frames.len() == recs.len(),
        frames[i] is Append,
        frames[i]->Append_topic_id == id,
        frames[i]->Append_seq == start + i,
        frames[i]->Append_ts == recs[i].ts,
        frames[i]->Append_node == recs[i].node,
        frames[i]->Append_tag == recs[i].tag,
        frames[i]->Append_data@ == envelope(recs[i].data->0.text@, meta_text(recs[i].meta)),
{
    assert(append_frame(frames[i], id, (start + i) as u64, recs[i]));
}

/// What was done to leases is logged job by job, each with its number and the number of its
/// lease, and with what was done, by whom, and until when it is held.
pub proof fn what_is_logged_of_leases(
    frames: Seq<WalRecord>,
    id: u64,
    event: u8,
    done: Seq<(u64, u64)>,
    node: Seq<char>,
    deadline: i64,
    now: i64,
    i: int,
)
    requires
        lease_frames(frames, id, event, done, node, deadline, now),
        0 <= i < done.len(),
        deadline >= 0,
        now >= 0,
    ensures
        frames.len() == done.len(),
        frames[i] is Lease,
        frames[i]->Lease_topic_id == id,
        frames[i]->Lease_event == event,
        frames[i]->Lease_seq == done[i].0,
        frames[i]->Lease_lease_id == done[i].1,
        frames[i]->Lease_holder@ == node,
        frames[i]->Lease_deadline == deadline,
        frames[i]->Lease_ts == now,
{
    assert(lease_frame(
        frames[i],
        id,
        event,
        done[i].0,
        node,
        done[i].1,
        deadline,
        0,
        now,
    ));
}

/// A topic is logged with its number, its name and its settings; without settings it was
/// removed. The number is the one it has, or for a new topic the next one.
pub proof fn what_is_logged_of_a_topic(
    v: EngineView,
    f: WalRecord,
    name: Seq<char>,
    config: Option<TopicConfig>,
    now: i64,
)
    requires
        topic_frame(f, v.id_for(name), name, config, now),
    ensures
        f is TopicConfig,
        f->TopicConfig_name@ == name,
        f->TopicConfig_config == config,
        v.topics.contains_key(name) ==> f->TopicConfig_topic_id == v.topics[name].topic_id,
        !v.topics.contains_key(name) ==> f->TopicConfig_topic_id == v.next_topic_id,
{
}

/// A router that was removed is logged by its name.
pub proof fn what_is_logged_of_the_end_of_a_router(f: WalRecord, name: Seq<char>, now: i64)
    requires
        router_end_frame(f, name, now),
    ensures
        f is RouterDelete,
        f->RouterDelete_name@ == name,
{
}

/// Where a write made retention drop something, the floors are logged, as they are then; where
/// it dropped nothing, or where the topic lives in memory alone, nothing is said of them.
pub proof fn what_is_logged_of_the_floors(v: EngineView, p: PendingWrite, now: i64)
    requires
        v.topics.contains_key(p.name@),
        v.topics[p.name@].topic_id == p.topic_id,
    ensures
        ({
            let old = v.topics[p.name@].floors;
            let t = v.write_landed(p, now);
            let most = |e: u64, x: u64|
                if e > x {
                    e
                } else {
                    x
                };
            let moved = most(t.floors.evict_floor, t.floors.expiry_floor) > most(
                old.evict_floor,
                old.expiry_floor,
            );
            let f = v.watermark_after(p, now);
            &&& f is Some <==> moved && t.config.class() != Durability::Memory
            &&& f is Some ==> f->0 is EvictWatermark && f->0->EvictWatermark_topic_id
                == v.topics[p.name@].topic_id && f->0->EvictWatermark_evict_floor
                == t.floors.evict_floor && f->0->EvictWatermark_expiry_floor
                == t.floors.expiry_floor
        }),
{
}

/// A deletion is made again as it was asked for: on the topic, with the position, the filter
/// and the moment of the request.
pub proof fn a_deletion_is_made_again(
    v: EngineView,
    name: Seq<char>,
    req: DeleteRequest,
    now: i64,
    p: PendingDelete,
    v2: EngineView,
    w: EngineView,
    later: i64,
    w2: EngineView,
)
    requires
        now >= 0,
        v.topics.contains_key(name),
        delete_begun(v, name, req, now, p, v2),
        w.name_of(v.topics[name].topic_id) == Some(name),
        w.topics.contains_key(name),
        w.topics[name].name == name,
        w.replays(p.frame, later, w2),
    ensures
        w2.topics[name].recs == w.topics[name].after_delete(
            req.before_seq,
            req.match_,
            Some(p.bound_head),
            now,
        ).recs,
        w2.topics[name].live == w.topics[name].after_delete(
            req.before_seq,
            req.match_,
            Some(p.bound_head),
            now,
        ).live,
        forall|n: Seq<char>|
            n != name ==> (#[trigger] w2.topics.contains_key(n) <==> w.topics.contains_key(n))
                && w2.topics[n] == w.topics[n],
        w2.routers == w.routers,
{
    a_time_comes_back(now);
    if req.match_ is Some {
        crate::log_laws::a_filter_comes_back(
            req.match_->0,
            p.frame->Delete_match_->0,
        );
    }
}

/// A deletion of single records is made again for those records and no others.
pub proof fn single_records_are_deleted_again(
    v: EngineView,
    f: WalRecord,
    now: i64,
    v2: EngineView,
    name: Seq<char>,
)
    requires
        f is Delete,
        f->Delete_seqs@.len() > 0,
        v.name_of(f->Delete_topic_id) == Some(name),
        v.topics.contains_key(name),
        v.topics[name].name == name,
        v.replays(f, now, v2),
    ensures
        v2.topics[name] == v.topics[name].after_delete_seqs(f->Delete_seqs@.to_set()),
{
}

/// A topic that was created or changed is so again: a new one gets its number, its name and
/// its settings, holds nothing, and later topics get higher numbers; one that is there keeps
/// its number, its type, its head and its records, as far as retention lets them be.
pub proof fn a_topic_is_put_again(
    v: EngineView,
    f: WalRecord,
    now: i64,
    v2: EngineView,
)
    requires
        f is TopicConfig,
        f->TopicConfig_config is Some,
        f->TopicConfig_topic_id < u64::MAX,
        v.topics.contains_key(f->TopicConfig_name@) ==> v.topics[f->TopicConfig_name@].name
            == f->TopicConfig_name@ && v.topics[f->TopicConfig_name@].ok(),
        v.replays(f, now, v2),
    ensures
        ({
            let name = f->TopicConfig_name@;
            let c = f->TopicConfig_config->0;
            let u = v2.topics[name];
            &&& v2.topics.contains_key(name)
            &&& u.name == name
            &&& u.config == (TopicConfig { topic_type: u.config.topic_type, ..c })
            &&& !v.topics.contains_key(name) ==> {
                &&& u.topic_id == f->TopicConfig_topic_id
                &&& u.config == c
                &&& u.recs.len() == 0
                &&& u.head == 0
                &&& v2.next_topic_id > f->TopicConfig_topic_id
                &&& v2.next_topic_id >= v.next_topic_id
            }
            &&& v.topics.contains_key(name) ==> {
                &&& u.topic_id == v.topics[name].topic_id
                &&& u.config.topic_type == v.topics[name].config.topic_type
                &&& u.head == v.topics[name].head
                &&& v2.next_topic_id == v.next_topic_id
            }
            &&& forall|n: Seq<char>|
                n != name ==> (#[trigger] v2.topics.contains_key(n) <==> v.topics.contains_key(n))
                    && v2.topics[n] == v.topics[n]
            &&& v2.routers == v.routers
        }),
{
    let name = f->TopicConfig_name@;
    if v.topics.contains_key(name) {
        let t = v.topics[name];
        let kept = TopicConfig {
            topic_type: t.config.topic_type,
            ..f->TopicConfig_config->0
        };
        crate::topic_laws::retention_keeps(TopicView { config: kept, ..t }, now);
    }
}

/// A topic that was removed is removed again, with the routers that have an end at it, and
/// nothing else goes.
pub proof fn a_topic_is_removed_again(v: EngineView, f: WalRecord, now: i64, v2: EngineView)
    requires
        f is TopicConfig,
        f->TopicConfig_config is None,
        v.replays(f, now, v2),
    ensures
        ({
            let name = f->TopicConfig_name@;
            &&& !v2.topics.contains_key(name)
            &&& forall|n: Seq<char>|
                n != name ==> (#[trigger] v2.topics.contains_key(n) <==> v.topics.contains_key(n))
                    && v2.topics[n] == v.topics[n]
            &&& forall|n: Seq<char>| #[trigger]
                v2.routers.routers.contains_key(n) <==> v.routers.routers.contains_key(n)
                    && v.routers.routers[n].source@ != name && v.routers.routers[n].dest@ != name
        }),
{
}

/// A router that was created is there again as it was, and goes on from the head of its
/// source, unless it would close a cycle that it is not allowed to.
pub proof fn a_router_is_put_again(v: EngineView, f: WalRecord, now: i64, v2: EngineView)
    requires
        f is RouterCreate,
        v.routers.accepts(router_of(f->RouterCreate_op)),
        v.replays(f, now, v2),
    ensures
        ({
            let op = f->RouterCreate_op;
            let r = v2.routers.routers[op.name@];
            &&& v2.routers.routers.contains_key(op.name@)
            &&& r.name@ == op.name@
            &&& r.source@ == op.source@
            &&& r.dest@ == op.dest@
            &&& r.preserve_node == op.preserve_node
            &&& r.preserve_tag == op.preserve_tag
            &&& r.filter is Some <==> op.filter is Some
            &&& op.filter is Some ==> r.filter == Some(selector(op.filter->0))
            &&& v.topics.contains_key(op.source@) ==> v2.routers.cursors[op.name@]
                == v.topics[op.source@].head
            &&& forall|n: Seq<char>|
                n != op.name@ ==> (#[trigger] v2.routers.routers.contains_key(n)
                    <==> v.routers.routers.contains_key(n)) && v2.routers.routers[n]
                    == v.routers.routers[n]
            &&& v2.topics == v.topics
        }),
{
}

/// A router that was removed is removed again, and no other is.
pub proof fn a_router_is_removed_again(v: EngineView, f: WalRecord, now: i64, v2: EngineView)
    requires
        f is RouterDelete,
        v.replays(f, now, v2),
    ensures
        forall|n: Seq<char>| #[trigger]
            v2.routers.routers.contains_key(n) <==> v.routers.routers.contains_key(n) && n
                != f->RouterDelete_name@,
        forall|n: Seq<char>| #[trigger]
            v2.routers.routers.contains_key(n) ==> v2.routers.routers[n] == v.routers.routers[n],
        v2.topics == v.topics,
{
}

/// An event of a lease is an event of the queue that it was logged for, and of no other; it
/// changes no record. After a claim the job is held as logged; where it is held under the
/// lease of the event, a release puts it up for reclaim, an extension moves its deadline, and
/// with an acknowledgement it is no longer held; an event of another lease changes nothing
/// of it.
pub proof fn an_event_goes_to_its_queue(
    v: EngineView,
    f: WalRecord,
    now: i64,
    v2: EngineView,
    name: Seq<char>,
)
    requires
        f is Lease,
        f->Lease_lease_id < u64::MAX,
        f->Lease_seq < u64::MAX,
        v.name_of(f->Lease_topic_id) == Some(name),
        v.topics.contains_key(name),
        v.topics[name].name == name,
        v.topics[name].queue is Some,
        v.replays(f, now, v2),
    ensures
        ({
            let q = v2.topics[name].queue->0;
            let seq = f->Lease_seq;
            let held = v.topics[name].queue->0.leases.contains_key(seq)
                && v.topics[name].queue->0.leases[seq].lease_id == f->Lease_lease_id;
            &&& v2.topics[name] == v.topics[name].with_queue(q)
            &&& f->Lease_event == 0 ==> {
                &&& q.leases.contains_key(seq)
                &&& q.leases[seq].node == f->Lease_holder
                &&& q.leases[seq].lease_id == f->Lease_lease_id
                &&& q.deliveries.contains_key(seq) && q.deliveries[seq] == f->Lease_deliveries
                &&& q.leases[seq].deadline_ms == time_of(f->Lease_deadline)
            }
            &&& q.next_lease_id > f->Lease_lease_id
            &&& held && f->Lease_event == 1 ==> !q.leases.contains_key(seq) && q.reclaim.contains(
                seq,
            )
            &&& held && f->Lease_event == 2 ==> q.leases.contains_key(seq)
                && q.leases[seq].deadline_ms == time_of(f->Lease_deadline) && q.leases[seq].lease_id
                == f->Lease_lease_id
            &&& held && f->Lease_event == 3 ==> !q.leases.contains_key(seq)
                && !q.deliveries.contains_key(seq)
            &&& !held && f->Lease_event != 0 ==> q.leases == v.topics[name].queue->0.leases
                && q.reclaim == v.topics[name].queue->0.reclaim
            &&& forall|n: Seq<char>|
                n != name ==> (#[trigger] v2.topics.contains_key(n) <==> v.topics.contains_key(n))
                    && v2.topics[n] == v.topics[n]
        }),
{
}

/// Copies that were logged can be read: the head is the last of them, and number and size
/// have grown by theirs, but for what retention takes. Copies that were not logged never
/// can: the head stays, and so do number and size; and the next one has its turn.
pub proof fn logged_copies_are_made_readable(
    v: EngineView,
    p: PendingAppend,
    committed: bool,
    now: i64,
)
    requires
        v.holds_append(p),
        v.topics[p.name@].name == p.name@,
        v.topics[p.name@].ok(),
        v.append_ready(p),
        v.topics[p.name@].turn < u64::MAX,
    ensures
        ({
            let t = v.topics[p.name@];
            let w = v.append_done(p, committed, now);
            let u = w.topics[p.name@];
            &&& u.turn == t.turn + 1
            &&& committed ==> u.head == p.staged.start + p.staged.count - 1 && u.last_write == now
            &&& committed && t.config.ttl_ms == 0 && t.config.cap_records == 0
                && t.config.cap_bytes == 0 ==> u.live == t.live + p.staged.count && u.bytes
                == t.bytes + p.staged.added_bytes && u.recs == t.recs
            &&& !committed ==> u.head == t.head && u.live == t.live && u.bytes == t.bytes
                && forall|s: u64|
                p.staged.start <= s < p.staged.start + p.staged.count ==> !#[trigger] u.has_live(s)
            &&& forall|n: Seq<char>|
                n != p.name@ ==> (#[trigger] w.topics.contains_key(n) <==> v.topics.contains_key(
                    n,
                )) && w.topics[n] == v.topics[n]
        }),
{
    let t = v.topics[p.name@];
    if committed {
        let u = t.published(p.staged, now).turned();
        assert(u.retained(now).head == u.head);
        assert(u.retained(now).turn == u.turn);
    } else {
        let u = t.taken_back(p.staged);
        assert forall|s: u64|
            p.staged.start <= s < p.staged.start + p.staged.count implies !#[trigger] u.has_live(
            s,
        ) by {
            let run = crate::topic_state::run(p.staged.start, p.staged.count);
            assert(run[s - p.staged.start] == s);
            assert(run.contains(s));
            assert(run.to_set().contains(s));
            if u.has(s) {
                assert(u.recs[s - t.base] == u.rec(s));
            }
        }
    }
}

/// Before retention moves a floor for what the log must know, the floors to come are logged: by
/// age, or for the sake of the size; what the cap by count takes follows from the numbers
/// themselves. Of a topic in memory alone nothing is logged.
pub proof fn what_is_logged_before_retention(v: EngineView, name: Seq<char>, now: i64)
    requires
        v.topics.contains_key(name),
    ensures
        ({
            let t = v.topics[name];
            let u = t.retained(now);
            let f = v.watermark(name, now);
            &&& f is Some ==> {
                &&& f->0 is EvictWatermark
                &&& f->0->EvictWatermark_topic_id == t.topic_id
                &&& f->0->EvictWatermark_evict_floor <= u.floors.evict_floor
                &&& f->0->EvictWatermark_expiry_floor <= u.floors.expiry_floor
                &&& u.floors.evict_floor > t.floors.evict_floor
                    ==> f->0->EvictWatermark_evict_floor == u.floors.evict_floor
                &&& u.floors.expiry_floor > t.floors.expiry_floor
                    ==> f->0->EvictWatermark_expiry_floor == u.floors.expiry_floor
                &&& t.config.class() != Durability::Memory
            }
            &&& t.config.class() != Durability::Memory && u.floors.expiry_floor
                > t.floors.expiry_floor ==> f is Some
            &&& t.config.cap_records == 0 && t.config.class() != Durability::Memory
                && u.floors.evict_floor > t.floors.evict_floor ==> f is Some
            &&& u.floors == t.floors ==> f is None
            &&& t.config.cap_bytes == 0 && u.floors.expiry_floor == t.floors.expiry_floor ==> f
                is None
        }),
{
}

} // verus!
