//! Recovery: reading the log back, frame by frame.
use crate::engine::{Engine, EngineView};
use crate::eviction::{larger, max64};
use crate::forward::head_of;
use crate::lists::reversed;
use crate::names::{ascending_distinct, in_order, in_order_lists};
use crate::payload::{decimal, decimal_text, decode_record_payload, envelope, is_compact, json_parts,
    json_value, meta_text, opened};
use crate::router::touching;
use crate::text::{ascending, texts};
use crate::topic_index::{bytes_in, StoredRecord};
use crate::topic_laws::{append_keeps, delete_seqs_keeps, deletion_keeps, retention_keeps};
use crate::topic_state::{cap64, fresh_topic, TopicState, TopicView};
use crate::types::{default_config, Filter, Json, TopicConfig};
use crate::wal::{matchsel_to_filter, router_from_log, router_of, selector, RouterOp, WalRecord};
use crate::write::{append_frame, append_frames, payload_bytes, payload_size};
use crate::config::SEQ_BASE;
use vstd::prelude::*;
use vstd::string::StringExecFns;

verus! {

/// The first of a list that has a property.
pub open spec fn first_where(s: Seq<Seq<char>>, p: spec_fn(Seq<char>) -> bool) -> Option<Seq<char>>
    decreases s.len(),
{
    if s.len() == 0 {
        None
    } else if p(s[0]) {
        Some(s[0])
    } else {
        first_where(s.drop_first(), p)
    }
}

/// A time read back from the log, where a time before the epoch wraps.
pub open spec fn time_of(ts: u64) -> i64 {
    ts as i64
}

/// A time read back from the log.
pub fn log_time_back(ts: u64) -> (r: i64)
    ensures
        r == time_of(ts),
{
    #[verifier::truncate]
    (ts as i64)
}

/// The name of a topic of which the log has nothing but records.
pub open spec fn unknown_name(id: u64) -> Seq<char> {
    "topic-"@ + decimal(id as nat)
}

/// A topic whose head has gone up to its reservation. There is no slot beyond the
/// last sequence number, so a reservation of that one is left alone.
pub open spec fn with_head_reserved(t: TopicView) -> TopicView {
    if t.reserved < u64::MAX {
        t.padded(t.reserved)
    } else {
        t
    }
}

impl EngineView {
    /// The name of the topic with a number: the first, should there be several.
    pub open spec fn name_of(self, id: u64) -> Option<Seq<char>> {
        first_where(
            in_order(self.topics.dom()),
            |n: Seq<char>| self.topics[n].topic_id == id,
        )
    }

    /// No topic has anything staged.
    pub open spec fn nothing_staged(self) -> bool {
        forall|n: Seq<char>| #[trigger]
            self.topics.contains_key(n) ==> self.topics[n].tail() == self.topics[n].head + 1
    }

    /// The engine with a topic whose settings the log does not have, where a topic
    /// with a number is missing.
    pub open spec fn with_unknown(self, id: u64) -> EngineView {
        if self.name_of(id) is Some || self.topics.contains_key(unknown_name(id)) {
            self
        } else {
            EngineView {
                next_topic_id: max64(self.next_topic_id, (id + 1) as u64),
                ..self.with_topic(
                    fresh_topic(unknown_name(id), id, default_config(), SEQ_BASE, 1),
                )
            }
        }
    }

    /// The engine with a logged record written again, unless it is there already or
    /// does not follow on the last slot.
    pub open spec fn with_append(self, id: u64, seq: u64, rec: StoredRecord) -> EngineView {
        let v = self.with_unknown(id);
        match v.name_of(id) {
            Some(n) => {
                let t = v.topics[n];
                if seq == t.tail() && t.room(1, rec.bytes as nat) {
                    v.with_topic(t.appended(seq![rec], rec.ts))
                } else {
                    v
                }
            },
            None => v,
        }
    }

    /// The engine with a logged deletion made again.
    pub open spec fn with_deletion(
        self,
        id: u64,
        before: Option<u64>,
        filter: Option<Filter>,
        seqs: Seq<u64>,
        bound: Option<u64>,
        ts: i64,
    ) -> EngineView {
        match self.name_of(id) {
            Some(n) => if seqs.len() > 0 {
                self.with_topic(self.topics[n].after_delete_seqs(seqs.to_set()))
            } else {
                self.with_topic(self.topics[n].after_delete(before, filter, bound, ts))
            },
            None => self,
        }
    }

    /// The engine with a topic created, changed or removed again. The type that a
    /// topic was created with stays.
    pub open spec fn with_config(
        self,
        id: u64,
        name: Seq<char>,
        config: Option<TopicConfig>,
        now: i64,
    ) -> EngineView {
        match config {
            None => EngineView {
                topics: self.topics.remove(name),
                routers: self.routers.without(touching(self.routers.routers, name)),
                ..self
            },
            Some(c) => if self.topics.contains_key(name) {
                let t = self.topics[name];
                let kept = TopicConfig { topic_type: t.config.topic_type, ..c };
                self.with_topic((TopicView { config: kept, ..t }).retained(now))
            } else {
                EngineView {
                    next_topic_id: max64(self.next_topic_id, (id + 1) as u64),
                    ..self.with_topic(fresh_topic(name, id, c, SEQ_BASE, 1))
                }
            },
        }
    }

    /// The engine with a router taken in again.
    pub open spec fn with_logged_router(self, op: RouterOp) -> EngineView {
        let r = router_of(op);
        let g = if self.routers.accepts(r) {
            self.routers.upserted(r)
        } else {
            self.routers
        };
        EngineView { routers: g.noted(op.name@, head_of(self, op.source@), 0), ..self }
    }

    /// The engine with floors raised again. They are never lowered.
    pub open spec fn with_watermark(self, id: u64, evict: u64, expiry: u64) -> EngineView {
        match self.name_of(id) {
            Some(n) => self.with_topic(self.topics[n].with_floors(evict, expiry)),
            None => self,
        }
    }

    /// The engine with an event of a lease applied again. No topic can hold the last
    /// sequence number, so a claim of it only keeps its token from being given out.
    pub open spec fn with_lease_event(
        self,
        id: u64,
        event: u8,
        seq: u64,
        node: String,
        lease_id: u64,
        deadline: i64,
        deliveries: u64,
    ) -> EngineView {
        match self.name_of(id) {
            Some(n) => match self.topics[n].queue {
                Some(q) => if lease_id == u64::MAX {
                    self
                } else if event == 0 && seq == u64::MAX {
                    self.with_topic(
                        TopicView { queue: Some(q.past_lease(lease_id)), ..self.topics[n] },
                    )
                } else {
                    self.with_topic(
                        TopicView {
                            queue: Some(
                                q.after_event(
                                    event,
                                    seq,
                                    node,
                                    lease_id,
                                    deadline,
                                    deliveries,
                                ),
                            ),
                            ..self.topics[n]
                        },
                    )
                },
                None => self,
            },
            None => self,
        }
    }

    /// The engine with sequence numbers reserved again.
    pub open spec fn with_reservation(self, id: u64, head: u64) -> EngineView {
        match self.name_of(id) {
            Some(n) => self.with_topic(
                TopicView {
                    reserved: max64(self.topics[n].reserved, head),
                    ..self.topics[n]
                },
            ),
            None => self,
        }
    }

    /// A frame of the log leads from this state to that one.
    pub open spec fn replays(self, f: WalRecord, now: i64, v2: EngineView) -> bool {
        match f {
            WalRecord::Append { topic_id, seq, ts, node, tag, data } => exists|rec: StoredRecord|
                #[trigger]
                logged_record(rec, ts, node, tag, data) && v2 == self.with_append(
                    topic_id,
                    seq,
                    rec,
                ),
            WalRecord::Delete { topic_id, before_seq, match_, seqs, bound_head, ts } => v2
                == self.with_deletion(
                topic_id,
                before_seq,
                match match_ {
                    Some(m) => Some(selector(m)),
                    None => None,
                },
                seqs@,
                bound_head,
                time_of(ts),
            ),
            WalRecord::TopicConfig { topic_id, name, config, ts } => v2 == self.with_config(
                topic_id,
                name@,
                config,
                now,
            ),
            WalRecord::RouterCreate { op, ts } => v2 == self.with_logged_router(op),
            WalRecord::RouterDelete { name, ts } => v2 == (EngineView {
                routers: self.routers.without(set![name@]),
                ..self
            }),
            WalRecord::EvictWatermark { topic_id, evict_floor, expiry_floor, ts } => v2
                == self.with_watermark(topic_id, evict_floor, expiry_floor),
            WalRecord::Lease { topic_id, seq, event, holder, lease_id, deadline, deliveries, ts } => v2
                == self.with_lease_event(
                topic_id,
                event,
                seq,
                holder,
                lease_id,
                time_of(deadline),
                deliveries,
            ),
            WalRecord::HeadWatermark { topic_id, head_seq, ts } => v2 == self.with_reservation(
                topic_id,
                head_seq,
            ),
            WalRecord::CheckpointMark { ts } => v2 == self,
        }
    }

    /// States that frames of the log lead through, one after the other.
    pub open spec fn replay_chain(
        self,
        frames: Seq<WalRecord>,
        now: i64,
        vs: Seq<EngineView>,
    ) -> bool {
        &&& vs.len() == frames.len() + 1
        &&& vs[0] == self
        &&& forall|i: int|
            0 <= i < frames.len() ==> (#[trigger] vs[i]).replays(frames[i], now, vs[i + 1])
    }

    /// Frames of the log lead from this state to that one.
    pub open spec fn replays_all(self, frames: Seq<WalRecord>, now: i64, v2: EngineView) -> bool {
        exists|vs: Seq<EngineView>| #[trigger]
            self.replay_chain(frames, now, vs) && vs.last() == v2
    }
}

/// A text that holds compact data and meta, and can be read as an object, is read
/// back as that data and that meta.
pub open spec fn reads_back(rec: StoredRecord, blob: Seq<char>) -> bool {
    forall|d: Seq<char>, m: Option<Seq<char>>|
        blob == #[trigger] envelope(d, m) && recoverable(d, m) ==> rec.data->0.text@ == d
            && meta_text(rec.meta) == m
}

/// Data and meta that can be read back: both are compact, and their envelope can be
/// read as an object.
pub open spec fn recoverable(d: Seq<char>, m: Option<Seq<char>>) -> bool {
    &&& is_compact(d)
    &&& m is Some ==> is_compact(m->0)
    &&& json_value(envelope(d, m)) is Some
    &&& json_value(envelope(d, m))->Some_0.1 is Some
}

/// A record as it is read back from the log.
pub open spec fn logged_record(
    rec: StoredRecord,
    ts: u64,
    node: Option<String>,
    tag: Option<String>,
    blob: String,
) -> bool {
    &&& rec.ts == time_of(ts)
    &&& rec.node == node
    &&& rec.tag == tag
    &&& rec.data is Some
    &&& opened(blob@).0 is Some ==> json_parts(rec.data) == opened(blob@).0
    &&& opened(blob@).0 is None ==> rec.data->0.is_null()
    &&& json_parts(rec.meta) == opened(blob@).1
    &&& reads_back(rec, blob@)
    &&& rec.bytes == cap64(payload_size(rec.data->0, rec.meta))
    &&& !rec.deleted
    &&& rec.payload_resident
    &&& rec.hops == 0
}

impl Engine {
    /// The topic with a number.
    pub fn get_box_by_id(&self, id: u64) -> (r: Option<String>)
        requires
            self.wf(),
        ensures
            match r {
                Some(n) => self@.name_of(id) == Some(n@) && self@.topics.contains_key(n@)
                    && self@.topics[n@].topic_id == id,
                None => self@.name_of(id) is None,
            },
    {
        let names = self.topics.names();
        let ghost ks = texts(names@);
        let ghost p = |n: Seq<char>| self@.topics[n].topic_id == id;
        proof {
            assert(self@.topics.dom() =~= self.topics@.dom());
            assert(ks.skip(0) =~= ks);
        }
        let mut i: usize = 0;
        while i < names.len()
            invariant
                self.wf(),
                ks == texts(names@),
                forall|k: int|
                    0 <= k < names@.len() ==> self.topics@.contains_key((#[trigger] names@[k])@),
                p == (|n: Seq<char>| self@.topics[n].topic_id == id),
                i <= names@.len(),
                self@.name_of(id) == first_where(ks.skip(i as int), p),
            decreases names@.len() - i,
        {
            proof {
                assert(ks.skip(i as int)[0] == names@[i as int]@);
                assert(ks.skip(i as int).drop_first() =~= ks.skip(i + 1));
            }
            match self.topics.get(names[i].as_str()) {
                Some(t) => {
                    if t.topic_id == id {
                        return Some(names[i].clone());
                    }
                },
                None => {},
            }
            i += 1;
        }
        None
    }

    /// Finds the topic of a logged record, and makes one where there is none.
    fn topic_for_replay(&mut self, id: u64, now: i64) -> (r: Option<String>)
        requires
            old(self).wf(),
            id < u64::MAX,
            old(self)@.next_topic_id < u64::MAX,
        ensures
            final(self).wf(),
            final(self)@ == old(self)@.with_unknown(id),
            match r {
                Some(n) => final(self)@.name_of(id) == Some(n@) && final(self)@.topics.contains_key(n@),
                None => final(self)@.name_of(id) is None,
            },
    {
        match self.get_box_by_id(id) {
            Some(n) => {
                return Some(n);
            },
            None => {},
        }
        let mut name = "topic-".to_owned();
        name.append(decimal_text(id).as_str());
        if !self.topics.contains_key(name.as_str()) {
            let _ = self.apply_put_box(name.as_str(), TopicConfig::default(), Some(id), None, now);
        }
        self.get_box_by_id(id)
    }

    /// Writes a logged record again, unless it is there already or does not follow
    /// on the last one.
    pub fn apply_append_for_recovery(&mut self, id: u64, seq: u64, rec: StoredRecord, now: i64)
        requires
            old(self).wf(),
            id < u64::MAX,
            old(self)@.next_topic_id < u64::MAX,
            rec.ok(),
            !rec.deleted,
        ensures
            final(self).wf(),
            final(self)@ == old(self)@.with_append(id, seq, rec),
    {
        let found = self.topic_for_replay(id, now);
        let ghost v = self@;
        let name = match found {
            Some(n) => n,
            None => {
                return;
            },
        };
        let mut t = match self.take_topic(name.as_str()) {
            Some(t) => t,
            None => {
                return;
            },
        };
        let ghost t0 = t@;
        let tail: u64 = t.index.base_seq + t.index.records.len() as u64;
        if seq == tail && tail < u64::MAX && t.live_count < u64::MAX && rec.bytes <= u64::MAX - t.bytes_retained {
            let ts: i64 = rec.ts;
            let ghost r = rec;
            let mut one: Vec<StoredRecord> = Vec::new();
            one.push(rec);
            proof {
                assert(one@ =~= seq![r]);
                assert(seq![r].drop_last() =~= Seq::<StoredRecord>::empty());
                assert(bytes_in(seq![r].drop_last()) == 0);
                assert(bytes_in(seq![r]) == r.bytes);
                append_keeps(t0, seq![r], ts);
            }
            let _ = t.append(one, ts);
        }
        self.put_topic(t);
        proof {
            assert(self@.topics =~= v.topics.insert(name@, t@));
            if t@ == t0 {
                assert(self@.topics =~= v.topics);
            }
        }
    }

    /// Changes a topic with a number, without a log.
    fn take_by_id(&mut self, id: u64) -> (r: Option<TopicState>)
        requires
            old(self).wf(),
        ensures
            final(self).wf(),
            match r {
                Some(t) => {
                    &&& old(self)@.name_of(id) == Some(t@.name)
                    &&& old(self)@.topics.contains_key(t@.name)
                    &&& t.wf()
                    &&& t@ == old(self)@.topics[t@.name]
                    &&& final(self)@ == (EngineView {
                        topics: old(self)@.topics.remove(t@.name),
                        ..old(self)@
                    })
                },
                None => {
                    &&& old(self)@.name_of(id) is None
                    &&& final(self)@ == old(self)@
                },
            },
    {
        match self.get_box_by_id(id) {
            Some(n) => self.take_topic(n.as_str()),
            None => None,
        }
    }

    /// Makes a logged deletion again.
    fn replay_delete(
        &mut self,
        id: u64,
        before: Option<u64>,
        filter: Option<Filter>,
        seqs: &Vec<u64>,
        bound: Option<u64>,
        ts: i64,
    )
        requires
            old(self).wf(),
        ensures
            final(self).wf(),
            final(self)@ == old(self)@.with_deletion(id, before, filter, seqs@, bound, ts),
    {
        let ghost v = self@;
        match self.take_by_id(id) {
            Some(t) => {
                let mut t = t;
                let ghost t0 = t@;
                if seqs.len() > 0 {
                    proof {
                        delete_seqs_keeps(t0, seqs@.to_set());
                    }
                    let _ = t.delete_seqs(seqs.as_slice());
                } else {
                    proof {
                        deletion_keeps(t0, before, filter, bound, ts);
                    }
                    let _ = t.apply_delete(before, filter.as_ref(), bound, ts);
                }
                self.put_topic(t);
                proof {
                    assert(self@.topics =~= v.topics.insert(t0.name, t@));
                }
            },
            None => {},
        }
    }

    /// Creates, changes or removes a topic again.
    fn replay_config(&mut self, id: u64, name: &str, config: Option<TopicConfig>, now: i64)
        requires
            old(self).wf(),
            id < u64::MAX,
            old(self)@.next_topic_id < u64::MAX,
        ensures
            final(self).wf(),
            final(self)@ == old(self)@.with_config(id, name@, config, now),
    {
        let ghost v = self@;
        match config {
            None => {
                let _ = self.take_topic(name);
                let _ = self.routers.remove_touching_topic(name);
                assert(self@.topics =~= v.topics.remove(name@));
            },
            Some(c) => {
                let topic_type = match self.topics.get(name) {
                    Some(t) => t.config.topic_type,
                    None => c.topic_type,
                };
                let c = TopicConfig { topic_type, ..c };
                proof {
                    self.wf_ok();
                    if v.topics.contains_key(name@) {
                        retention_keeps(TopicView { config: c, ..v.topics[name@] }, now);
                    }
                }
                let _ = self.apply_put_box(name, c, Some(id), None, now);
            },
        }
    }

    /// Applies a frame of the log again, without logging it.
    pub fn replay_frame(&mut self, record: WalRecord, now: i64)
        requires
            old(self).wf(),
            old(self)@.next_topic_id < u64::MAX,
            record.topic() < u64::MAX,
        ensures
            final(self).wf(),
            old(self)@.replays(record, now, final(self)@),
            final(self)@.next_topic_id <= max64(
                old(self)@.next_topic_id,
                (record.topic() + 1) as u64,
            ),
    {
        let ghost v = self@;
        match record {
            WalRecord::Append { topic_id, seq, ts, node, tag, data } => {
                let (d, meta) = decode_record_payload(data.as_str());
                let d = match d {
                    Some(d) => d,
                    None => Json::null(),
                };
                let bytes: u64 = payload_bytes(&d, &meta);
                let rec = StoredRecord {
                    ts: log_time_back(ts),
                    node,
                    tag,
                    data: Some(d),
                    meta,
                    bytes,
                    deleted: false,
                    payload_resident: true,
                    hops: 0,
                };
                assert(logged_record(rec, ts, node, tag, data));
                self.apply_append_for_recovery(topic_id, seq, rec, now);
            },
            WalRecord::Delete { topic_id, before_seq, match_, seqs, bound_head, ts } => {
                let filter = match &match_ {
                    Some(m) => Some(matchsel_to_filter(m)),
                    None => None,
                };
                self.replay_delete(
                    topic_id,
                    before_seq,
                    filter,
                    &seqs,
                    bound_head,
                    log_time_back(ts),
                );
            },
            WalRecord::TopicConfig { topic_id, name, config, ts } => {
                self.replay_config(topic_id, name.as_str(), config, now);
            },
            WalRecord::RouterCreate { op, ts } => {
                let src_head: u64 = match self.get_box(op.source.as_str()) {
                    Some(t) => t.head_seq(),
                    None => 0,
                };
                let name = op.name.clone();
                let _ = self.routers.upsert(router_from_log(op));
                self.routers.note_forwarded(name.as_str(), src_head, 0);
            },
            WalRecord::RouterDelete { name, ts } => {
                let _ = self.routers.remove(name.as_str());
            },
            WalRecord::EvictWatermark { topic_id, evict_floor, expiry_floor, ts } => {
                match self.take_by_id(topic_id) {
                    Some(t) => {
                        let mut t = t;
                        let ghost t0 = t@;
                        t.floors.evict_floor = larger(t.floors.evict_floor, evict_floor);
                        t.floors.expiry_floor = larger(t.floors.expiry_floor, expiry_floor);
                        self.put_topic(t);
                        proof {
                            assert(self@.topics =~= v.topics.insert(t0.name, t@));
                        }
                    },
                    None => {},
                }
            },
            WalRecord::Lease { topic_id, seq, event, holder, lease_id, deadline, deliveries, ts } => {
                self.replay_lease(
                    topic_id,
                    event,
                    seq,
                    holder,
                    lease_id,
                    log_time_back(deadline),
                    deliveries,
                );
            },
            WalRecord::HeadWatermark { topic_id, head_seq, ts } => {
                match self.take_by_id(topic_id) {
                    Some(t) => {
                        let mut t = t;
                        let ghost t0 = t@;
                        t.set_reserved_head(head_seq);
                        self.put_topic(t);
                        proof {
                            assert(self@.topics =~= v.topics.insert(t0.name, t@));
                        }
                    },
                    None => {},
                }
            },
            WalRecord::CheckpointMark { ts } => {},
        }
    }

    /// Applies an event of a lease again.
    fn replay_lease(
        &mut self,
        id: u64,
        event: u8,
        seq: u64,
        node: String,
        lease_id: u64,
        deadline: i64,
        deliveries: u64,
    )
        requires
            old(self).wf(),
        ensures
            final(self).wf(),
            final(self)@ == old(self)@.with_lease_event(
                id,
                event,
                seq,
                node,
                lease_id,
                deadline,
                deliveries,
            ),
    {
        let ghost v = self@;
        match self.take_by_id(id) {
            Some(t) => {
                let mut t = t;
                let ghost t0 = t@;
                if t.is_queue() && lease_id < u64::MAX {
                    let mut queue: Option<crate::queue::QueueProjection> = None;
                    std::mem::swap(&mut t.queue, &mut queue);
                    match queue {
                        Some(q) => {
                            let mut q = q;
                            if event == 0 && seq == u64::MAX {
                                q.pass_lease(lease_id);
                            } else {
                                q.apply_lease_event(
                                    event,
                                    seq,
                                    node,
                                    lease_id,
                                    deadline,
                                    deliveries,
                                );
                            }
                            t.queue = Some(q);
                        },
                        None => {},
                    }
                }
                self.put_topic(t);
                proof {
                    assert(self@.topics =~= v.topics.insert(t0.name, t@));
                    if t@ == t0 {
                        assert(self@.topics =~= v.topics);
                    }
                }
            },
            None => {},
        }
    }
}

/// A record whose replay gives it back: it was stored at a time the log can hold,
/// its payload can be read back, and its size is that of its payload.
pub open spec fn durable_record(rec: StoredRecord) -> bool {
    &&& rec.ts >= 0
    &&& rec.data is Some
    &&& recoverable(rec.data->0.text@, meta_text(rec.meta))
    &&& rec.bytes == payload_size(rec.data->0, rec.meta)
    &&& !rec.deleted
}

/// Two records show a reader the same.
pub open spec fn same_record(a: StoredRecord, b: StoredRecord) -> bool {
    &&& a.ts == b.ts
    &&& a.node == b.node
    &&& a.tag == b.tag
    &&& a.data is Some && b.data is Some
    &&& a.data->0.text@ == b.data->0.text@
    &&& meta_text(a.meta) == meta_text(b.meta)
    &&& a.bytes == b.bytes
    &&& a.deleted == b.deleted
}

/// The frame of a record is read back as that record.
pub proof fn frame_is_read_back(
    rec: StoredRecord,
    f: WalRecord,
    topic_id: u64,
    seq: u64,
    back: StoredRecord,
)
    requires
        durable_record(rec),
        append_frame(f, topic_id, seq, rec),
        logged_record(back, f->Append_ts, f->Append_node, f->Append_tag, f->Append_data),
    ensures
        same_record(back, rec),
{
    let d = rec.data->0.text@;
    let m = meta_text(rec.meta);
    assert(f->Append_data@ == envelope(d, m));
    assert(back.data->0.text@ == d && meta_text(back.meta) == m);
    assert(payload_size(back.data->0, back.meta) == payload_size(rec.data->0, rec.meta));
}

proof fn first_where_same(
    s: Seq<Seq<char>>,
    p: spec_fn(Seq<char>) -> bool,
    q: spec_fn(Seq<char>) -> bool,
)
    requires
        forall|n: Seq<char>| s.contains(n) ==> p(n) == q(n),
    ensures
        first_where(s, p) == first_where(s, q),
    decreases s.len(),
{
    if s.len() > 0 {
        assert(s.contains(s[0]));
        let r = s.drop_first();
        assert forall|n: Seq<char>| r.contains(n) implies p(n) == q(n) by {
            let i = choose|i: int| 0 <= i < r.len() && r[i] == n;
            assert(s[i + 1] == n);
            assert(s.contains(n));
        }
        first_where_same(r, p, q);
    }
}

/// A topic keeps its number when its state changes.
pub proof fn name_of_is_stable(v: EngineView, t: TopicView, id: u64)
    requires
        v.topics.contains_key(t.name),
        v.topics[t.name].topic_id == t.topic_id,
    ensures
        v.with_topic(t).name_of(id) == v.name_of(id),
{
    let w = v.with_topic(t);
    assert(w.topics.dom() =~= v.topics.dom());
    first_where_same(
        in_order(v.topics.dom()),
        |n: Seq<char>| v.topics[n].topic_id == id,
        |n: Seq<char>| w.topics[n].topic_id == id,
    );
}

proof fn first_where_found(s: Seq<Seq<char>>, p: spec_fn(Seq<char>) -> bool)
    ensures
        match first_where(s, p) {
            Some(n) => s.contains(n) && p(n),
            None => forall|n: Seq<char>| s.contains(n) ==> !p(n),
        },
    decreases s.len(),
{
    if s.len() > 0 && !p(s[0]) {
        let r = s.drop_first();
        first_where_found(r, p);
        match first_where(r, p) {
            Some(n) => {
                let i = choose|i: int| 0 <= i < r.len() && r[i] == n;
                assert(s[i + 1] == n);
            },
            None => {
                assert forall|n: Seq<char>| s.contains(n) implies !p(n) by {
                    let i = choose|i: int| 0 <= i < s.len() && s[i] == n;
                    if i > 0 {
                        assert(r[i - 1] == n);
                        assert(r.contains(n));
                    }
                }
            },
        }
    }
}

/// A number is that of the topic found under it, and where none is found no topic has
/// it.
pub proof fn name_of_finds(v: EngineView, id: u64)
    requires
        v.topics.dom().finite(),
    ensures
        match v.name_of(id) {
            Some(n) => v.topics.contains_key(n) && v.topics[n].topic_id == id,
            None => forall|n: Seq<char>| #[trigger]
                v.topics.contains_key(n) ==> v.topics[n].topic_id != id,
        },
{
    let s = in_order(v.topics.dom());
    let p = |n: Seq<char>| v.topics[n].topic_id == id;
    in_order_lists(v.topics.dom());
    first_where_found(s, p);
    if v.name_of(id) is None {
        assert forall|n: Seq<char>| #[trigger] v.topics.contains_key(n) implies v.topics[n].topic_id
            != id by {
            assert(s.contains(n));
            assert(!p(n));
        }
    }
}

/// A logged record is written once: where it follows on the last one, it is written
/// under its sequence number; where it is there already, or does not follow, nothing
/// changes.
pub proof fn a_logged_record_is_written_in_turn(
    v: EngineView,
    id: u64,
    seq: u64,
    rec: StoredRecord,
    name: Seq<char>,
)
    requires
        v.ok(),
        v.nothing_staged(),
        v.name_of(id) == Some(name),
        v.topics[name].room(1, rec.bytes as nat),
        rec.ok(),
    ensures
        ({
            let t = v.topics[name];
            let w = v.with_append(id, seq, rec);
            if seq == t.head + 1 {
                &&& w == v.with_topic(t.appended(seq![rec], rec.ts))
                &&& w.topics[name].head == seq
                &&& w.topics[name].has(seq)
                &&& w.topics[name].rec(seq) == rec
                &&& forall|s: u64| #[trigger]
                    t.has(s) ==> w.topics[name].has(s) && w.topics[name].rec(s) == t.rec(s)
                &&& forall|n: Seq<char>|
                    n != name ==> (w.topics.contains_key(n) <==> v.topics.contains_key(n))
                        && #[trigger] w.topics[n] == v.topics[n]
            } else {
                w == v
            }
        }),
{
    name_of_finds(v, id);
    let t = v.topics[name];
    let one = seq![rec];
    assert(one.drop_last() =~= Seq::<StoredRecord>::empty());
    assert(bytes_in(one.drop_last()) == 0);
    assert(bytes_in(one) == rec.bytes);
    append_keeps(t, one, rec.ts);
    let u = t.appended(one, rec.ts);
    assert(u.rec((t.tail() + 0) as u64) == one[0]);
    assert forall|s: u64| #[trigger] t.has(s) implies u.has(s) && u.rec(s) == t.rec(s) by {}
}

/// Replaying the frame of a record again changes nothing, whether or not its topic
/// was known before.
pub proof fn a_logged_record_is_written_once(
    v: EngineView,
    id: u64,
    seq: u64,
    rec: StoredRecord,
    again: StoredRecord,
)
    requires
        v.ok(),
        v.nothing_staged(),
        rec.ok(),
        again.bytes == rec.bytes,
    ensures
        v.with_append(id, seq, rec).with_append(id, seq, again) == v.with_append(id, seq, rec),
{
    let u = v.with_unknown(id);
    name_of_finds(v, id);
    if v.name_of(id) is None && !v.topics.contains_key(unknown_name(id)) {
        assert(u.topics.dom() =~= v.topics.dom().insert(unknown_name(id)));
    }
    assert(u.ok());
    name_of_finds(u, id);
    let w = v.with_append(id, seq, rec);
    match u.name_of(id) {
        Some(n) => {
            let t = u.topics[n];
            let one = seq![rec];
            if seq == t.tail() && t.room(1, rec.bytes as nat) {
                assert(one.drop_last() =~= Seq::<StoredRecord>::empty());
                assert(bytes_in(one.drop_last()) == 0);
                assert(bytes_in(one) == rec.bytes);
                append_keeps(t, one, rec.ts);
                name_of_is_stable(u, t.appended(one, rec.ts), id);
                assert(w.topics[n].head == seq);
            }
            assert(w.name_of(id) == Some(n));
            assert(w.with_unknown(id) == w);
        },
        None => {
            if v.name_of(id) is None && !v.topics.contains_key(unknown_name(id)) {
                assert(u.topics.contains_key(unknown_name(id)));
                assert(u.topics[unknown_name(id)].topic_id == id);
            }
        },
    }
}

/// A watermark only raises floors, whatever the order in which watermarks are
/// replayed, and replaying one again changes nothing.
pub proof fn watermarks_only_rise(v: EngineView, id: u64, evict: u64, expiry: u64, name: Seq<char>)
    requires
        v.name_of(id) == Some(name),
        v.topics.contains_key(name),
        v.topics[name].name == name,
    ensures
        v.with_watermark(id, evict, expiry).topics[name].floors.covers(v.topics[name].floors),
        v.with_watermark(id, evict, expiry).with_watermark(id, evict, expiry) == v.with_watermark(
            id,
            evict,
            expiry,
        ),
{
    let t = v.topics[name].with_floors(evict, expiry);
    name_of_is_stable(v, t, id);
    let w = v.with_watermark(id, evict, expiry);
    assert(w.topics[name] == t);
    assert(t.with_floors(evict, expiry) == t);
    assert(w.with_topic(t).topics =~= w.topics);
}

/// An acknowledged write is recovered: replaying its frames on the state before it
/// gives every record back, under its sequence number.
pub proof fn logged_write_is_recovered(
    v: EngineView,
    name: Seq<char>,
    frames: Seq<WalRecord>,
    recs: Seq<StoredRecord>,
    now: i64,
    v2: EngineView,
)
    requires
        v.ok(),
        v.topics.contains_key(name),
        v.name_of(v.topics[name].topic_id) == Some(name),
        v.topics[name].settled(),
        v.topics[name].room(recs.len(), bytes_in(recs)),
        append_frames(frames, v.topics[name].topic_id, (v.topics[name].head + 1) as u64, recs),
        forall|i: int| 0 <= i < recs.len() ==> durable_record(#[trigger] recs[i]),
        v.replays_all(frames, now, v2),
    ensures
        v2.topics.contains_key(name),
        v2.topics[name].head == v.topics[name].head + recs.len(),
        v2.topics[name].base == v.topics[name].base,
        v2.topics[name].recs.take(v.topics[name].recs.len() as int) == v.topics[name].recs,
        forall|i: int|
            0 <= i < recs.len() ==> same_record(
                v2.topics[name].recs[v.topics[name].recs.len() + i],
                #[trigger] recs[i],
            ),
{
    let vs = choose|vs: Seq<EngineView>| #[trigger]
        v.replay_chain(frames, now, vs) && vs.last() == v2;
    recovered_so_far(v, name, frames, recs, now, vs, frames.len() as int);
}

/// Replaying the frame of a record appends an equal record.
proof fn append_is_replayed(
    v: EngineView,
    v2: EngineView,
    f: WalRecord,
    id: u64,
    seq: u64,
    rec: StoredRecord,
    now: i64,
) -> (back: StoredRecord)
    requires
        append_frame(f, id, seq, rec),
        durable_record(rec),
        v.replays(f, now, v2),
    ensures
        same_record(back, rec),
        back.bytes == rec.bytes,
        v2 == v.with_append(id, seq, back),
{
    let back = choose|r: StoredRecord| #[trigger]
        logged_record(r, f->Append_ts, f->Append_node, f->Append_tag, f->Append_data) && v2
            == v.with_append(id, f->Append_seq, r);
    frame_is_read_back(rec, f, id, seq, back);
    back
}

/// A topic with the first records of a write back in it.
spec fn is_back(t: TopicView, u: TopicView, recs: Seq<StoredRecord>, k: int) -> bool {
    &&& u.name == t.name
    &&& u.topic_id == t.topic_id
    &&& u.base == t.base
    &&& u.head == t.head + k
    &&& u.recs.len() == t.recs.len() + k
    &&& u.recs.take(t.recs.len() as int) == t.recs
    &&& u.live == t.live + k
    &&& u.bytes == t.bytes + bytes_in(recs.take(k))
    &&& forall|i: int|
        0 <= i < k ==> same_record(u.recs[t.recs.len() + i], #[trigger] recs[i])
}

proof fn one_more_is_back(
    t: TopicView,
    u: TopicView,
    recs: Seq<StoredRecord>,
    back: StoredRecord,
    j: int,
)
    requires
        t.settled(),
        t.room(recs.len(), bytes_in(recs)),
        0 <= j < recs.len(),
        t.tail() == t.head + 1,
        is_back(t, u, recs, j),
        same_record(back, recs[j]),
        durable_record(recs[j]),
    ensures
        u.room(1, back.bytes as nat),
        is_back(t, u.appended(seq![back], back.ts), recs, j + 1),
{
    let k = j + 1;
    assert(recs.take(k).drop_last() =~= recs.take(j));
    assert(recs.take(k).last() == recs[j]);
    assert(recs =~= recs.take(k) + recs.skip(k));
    crate::topic_index::run_sums_add(recs.take(k), recs.skip(k));
    let one = seq![back];
    assert(one.drop_last() =~= Seq::<StoredRecord>::empty());
    assert(bytes_in(one.drop_last()) == 0);
    assert(bytes_in(one) == back.bytes);
    let w = u.appended(one, back.ts);
    assert(w.recs == u.recs + one);
    assert(w.recs.take(t.recs.len() as int) =~= u.recs.take(t.recs.len() as int));
    assert forall|i: int| 0 <= i < k implies same_record(
        w.recs[t.recs.len() + i],
        #[trigger] recs[i],
    ) by {
        if i < j {
            assert(w.recs[t.recs.len() + i] == u.recs[t.recs.len() + i]);
        } else {
            assert(w.recs[t.recs.len() + i] == back);
        }
    }
}

proof fn recovered_so_far(
    v: EngineView,
    name: Seq<char>,
    frames: Seq<WalRecord>,
    recs: Seq<StoredRecord>,
    now: i64,
    vs: Seq<EngineView>,
    k: int,
)
    requires
        v.ok(),
        v.topics.contains_key(name),
        v.name_of(v.topics[name].topic_id) == Some(name),
        v.topics[name].settled(),
        v.topics[name].room(recs.len(), bytes_in(recs)),
        append_frames(frames, v.topics[name].topic_id, (v.topics[name].head + 1) as u64, recs),
        forall|i: int| 0 <= i < recs.len() ==> durable_record(#[trigger] recs[i]),
        v.replay_chain(frames, now, vs),
        0 <= k <= frames.len(),
    ensures
        vs[k].topics.contains_key(name),
        vs[k].name_of(v.topics[name].topic_id) == Some(name),
        is_back(v.topics[name], vs[k].topics[name], recs, k),
    decreases k,
{
    let t = v.topics[name];
    assert(t.name == name);
    if k == 0 {
        assert(t.recs.take(t.recs.len() as int) =~= t.recs);
        assert(recs.take(0) =~= Seq::<StoredRecord>::empty());
    } else {
        let j = k - 1;
        recovered_so_far(v, name, frames, recs, now, vs, j);
        let v1 = vs[j];
        let u1 = v1.topics[name];
        let seq = ((t.head + 1) as u64 + j) as u64;
        assert(v1.replays(frames[j], now, vs[j + 1]));
        assert(append_frame(frames[j], t.topic_id, seq, recs[j]));
        assert(durable_record(recs[j]));
        let back = append_is_replayed(v1, vs[k], frames[j], t.topic_id, seq, recs[j], now);
        one_more_is_back(t, u1, recs, back, j);
        let u = u1.appended(seq![back], back.ts);
        assert(v1.with_unknown(t.topic_id) == v1);
        assert(vs[k] == v1.with_topic(u));
        name_of_is_stable(v1, u, t.topic_id);
    }
}

impl Engine {
    /// Applies frames of the log again, one after the other.
    pub fn replay_all(&mut self, frames: Vec<WalRecord>, now: i64)
        requires
            old(self).wf(),
            old(self)@.next_topic_id < u64::MAX,
            forall|i: int|
                0 <= i < frames@.len() ==> (#[trigger] frames@[i]).topic() < u64::MAX - 1,
        ensures
            final(self).wf(),
            final(self)@.next_topic_id < u64::MAX,
            old(self)@.replays_all(frames@, now, final(self)@),
    {
        let ghost v = self@;
        let ghost all = frames@;
        let mut turned = reversed(frames);
        let ghost mut vs: Seq<EngineView> = seq![v];
        while turned.len() > 0
            invariant
                self.wf(),
                self@.next_topic_id < u64::MAX,
                forall|i: int| 0 <= i < all.len() ==> (#[trigger] all[i]).topic() < u64::MAX - 1,
                turned@.len() <= all.len(),
                forall|j: int|
                    0 <= j < turned@.len() ==> #[trigger] turned@[j] == all[all.len() - 1 - j],
                vs.len() == all.len() - turned@.len() + 1,
                vs[0] == v,
                vs.last() == self@,
                forall|i: int|
                    0 <= i < all.len() - turned@.len() ==> (#[trigger] vs[i]).replays(
                        all[i],
                        now,
                        vs[i + 1],
                    ),
            decreases turned@.len(),
        {
            let ghost k = all.len() - turned@.len();
            let ghost before = vs;
            match turned.pop() {
                Some(f) => {
                    assert(f == all[k]);
                    self.replay_frame(f, now);
                    proof {
                        vs = vs.push(self@);
                        assert forall|i: int| 0 <= i < k + 1 implies (#[trigger] vs[i]).replays(
                            all[i],
                            now,
                            vs[i + 1],
                        ) by {
                            if i < k {
                                assert(vs[i] == before[i] && vs[i + 1] == before[i + 1]);
                            }
                        }
                    }
                },
                None => {},
            }
        }
        assert(v.replay_chain(all, now, vs));
    }

    /// Moves the heads of all topics to what is reserved for them.
    pub fn apply_head_watermarks(&mut self)
        requires
            old(self).wf(),
        ensures
            final(self).wf(),
            final(self)@ == old(self)@.with_heads_reserved(),
    {
        let ghost v = self@;
        let names = self.topics.names();
        let ghost ks = texts(names@);
        assert(self@.topics.dom() =~= self.topics@.dom());
        let mut k: usize = 0;
        while k < names.len()
            invariant
                self.wf(),
                ks == texts(names@),
                ascending(ks),
                k <= names@.len(),
                self@ == (EngineView { topics: self@.topics, ..v }),
                self@.topics.dom() == v.topics.dom(),
                forall|j: int|
                    0 <= j < names@.len() ==> v.topics.contains_key((#[trigger] names@[j])@),
                forall|j: int|
                    0 <= j < k ==> self@.topics[#[trigger] ks[j]] == with_head_reserved(
                        v.topics[ks[j]],
                    ),
                forall|j: int| k <= j < ks.len() ==> self@.topics[#[trigger] ks[j]] == v.topics[ks[j]],
            decreases names@.len() - k,
        {
            let ghost before = self@;
            let ghost n = names@[k as int]@;
            assert(ks[k as int] == n);
            match self.take_topic(names[k].as_str()) {
                Some(t) => {
                    let mut t = t;
                    let reserved: u64 = t.reserved_head();
                    if reserved < u64::MAX {
                        t.restore_head_watermark(reserved);
                    }
                    self.put_topic(t);
                    proof {
                        assert(self@.topics =~= before.topics.insert(n, t@));
                        assert(self@.topics.dom() =~= before.topics.dom());
                        assert forall|j: int| 0 <= j < ks.len() && j != k implies #[trigger] ks[j]
                            != n by {
                            if ks[j] == n {
                                ascending_distinct(ks, j, k as int);
                            }
                        }
                    }
                },
                None => {},
            }
            k += 1;
        }
        proof {
            assert forall|n: Seq<char>| #[trigger] v.topics.contains_key(n) implies self@.topics[n]
                == with_head_reserved(v.topics[n]) by {
                assert(ks.to_set().contains(n));
                let j = choose|j: int| 0 <= j < ks.len() && ks[j] == n;
                assert(self@.topics[ks[j]] == with_head_reserved(v.topics[ks[j]]));
            }
        }
        proof {
            assert(self@.topics =~= v.with_heads_reserved().topics);
        }
    }
}

impl EngineView {
    /// The engine with the heads of all topics moved to what is reserved for them.
    pub open spec fn with_heads_reserved(self) -> EngineView {
        EngineView {
            topics: self.topics.map_values(|t: TopicView| with_head_reserved(t)),
            ..self
        }
    }
}

} // verus!
