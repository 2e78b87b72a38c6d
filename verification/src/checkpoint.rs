//! Writing the whole engine down, and reading it back.
use crate::engine::{Engine, EngineView};
use crate::eviction::{larger, max64, sat_add, sat_sub};
use crate::jobs::Fetched;
use crate::lists::reversed;
use crate::names::in_order;
use crate::snapshot::{capture_topic, captures, kept_router, restore_topic, restored,
    router_from_snapshot, router_of, router_to_snapshot, snapshot_is_sound, sound, SnapshotRouter,
    SnapshotTopic};
use crate::text::{text_eq, texts};
use crate::wal::{log_time, stamp};
use vstd::prelude::*;

verus! {

/// A place in the log, for each group of its files.
#[derive(Debug)]
pub struct Checkpoint {
    pub wal_idx: u64,
    pub wal_offset: u64,
    pub last_checkpoint_seq: u64,
    pub shards: Vec<(u64, u64)>,
    pub shard_keys: Vec<String>,
}

/// The engine as it is written down.
#[derive(Debug)]
pub struct Snapshot {
    pub id: u64,
    pub ts: u64,
    pub next_topic_id: u64,
    pub checkpoint: Checkpoint,
    pub topics: Vec<SnapshotTopic>,
    pub routers: Vec<SnapshotRouter>,
}

/// The payloads that were fetched for a topic.
pub open spec fn payloads_for(all: Seq<(u64, Vec<Fetched>)>, id: u64) -> Seq<Fetched>
    decreases all.len(),
{
    if all.len() == 0 {
        Seq::empty()
    } else if all[0].0 == id {
        all[0].1@
    } else {
        payloads_for(all.drop_first(), id)
    }
}

fn find_payloads(all: &Vec<(u64, Vec<Fetched>)>, id: u64) -> (r: Option<usize>)
    ensures
        match r {
            Some(i) => i < all@.len() && payloads_for(all@, id) == all@[i as int].1@,
            None => payloads_for(all@, id) == Seq::<Fetched>::empty(),
        },
{
    let mut i: usize = 0;
    assert(all@.skip(0) =~= all@);
    while i < all.len()
        invariant
            i <= all@.len(),
            payloads_for(all@, id) == payloads_for(all@.skip(i as int), id),
        decreases all@.len() - i,
    {
        assert(all@.skip(i as int)[0] == all@[i as int]);
        assert(all@.skip(i as int).drop_first() =~= all@.skip(i + 1));
        if all[i].0 == id {
            return Some(i);
        }
        i += 1;
    }
    None
}

/// The highest head of the topics named.
pub open spec fn highest_head(v: EngineView, names: Seq<Seq<char>>) -> u64
    decreases names.len(),
{
    if names.len() == 0 {
        0
    } else {
        max64(highest_head(v, names.drop_last()), v.topics[names.last()].head)
    }
}

/// A checkpoint over groups of files, each with its key and its place.
pub open spec fn is_checkpoint(
    c: Checkpoint,
    keyed: Seq<(String, (u64, u64))>,
    last: u64,
) -> bool {
    &&& c.wal_idx == (if keyed.len() > 0 {
        keyed[0].1.0
    } else {
        0
    })
    &&& c.wal_offset == (if keyed.len() > 0 {
        keyed[0].1.1
    } else {
        0
    })
    &&& c.last_checkpoint_seq == last
    &&& c.shards@ == keyed.map_values(|p: (String, (u64, u64))| p.1)
    &&& texts(c.shard_keys@) == keyed.map_values(|p: (String, (u64, u64))| p.0@)
}

/// Makes a checkpoint over groups of files.
pub fn make_checkpoint(keyed: &Vec<(String, (u64, u64))>, last: u64) -> (r: Checkpoint)
    ensures
        is_checkpoint(r, keyed@, last),
{
    let mut shards: Vec<(u64, u64)> = Vec::new();
    let mut keys: Vec<String> = Vec::new();
    let mut i: usize = 0;
    while i < keyed.len()
        invariant
            i <= keyed@.len(),
            shards@ == keyed@.map_values(|p: (String, (u64, u64))| p.1).take(i as int),
            texts(keys@) == keyed@.map_values(|p: (String, (u64, u64))| p.0@).take(i as int),
        decreases keyed@.len() - i,
    {
        let ghost k0 = texts(keys@);
        shards.push(keyed[i].1);
        keys.push(keyed[i].0.clone());
        assert(texts(keys@) =~= k0.push(keyed@[i as int].0@));
        assert(shards@ =~= keyed@.map_values(|p: (String, (u64, u64))| p.1).take(i + 1));
        assert(texts(keys@) =~= keyed@.map_values(|p: (String, (u64, u64))| p.0@).take(i + 1));
        i += 1;
    }
    proof {
        assert(shards@ =~= keyed@.map_values(|p: (String, (u64, u64))| p.1));
        assert(texts(keys@) =~= keyed@.map_values(|p: (String, (u64, u64))| p.0@));
    }
    Checkpoint {
        wal_idx: if keyed.len() > 0 {
            keyed[0].1.0
        } else {
            0
        },
        wal_offset: if keyed.len() > 0 {
            keyed[0].1.1
        } else {
            0
        },
        last_checkpoint_seq: last,
        shards,
        shard_keys: keys,
    }
}

/// A key is among groups of files.
pub open spec fn has_key(keyed: Seq<(String, (u64, u64))>, key: Seq<char>) -> bool {
    exists|i: int| 0 <= i < keyed.len() && (#[trigger] keyed[i]).0@ == key
}

/// The groups that are written to, and of the groups found those that are not.
pub open spec fn with_leftovers(
    keyed: Seq<(String, (u64, u64))>,
    found: Seq<(String, (u64, u64))>,
) -> Seq<(String, (u64, u64))>
    decreases found.len(),
{
    if found.len() == 0 {
        keyed
    } else if has_key(keyed, found.last().0@) {
        with_leftovers(keyed, found.drop_last())
    } else {
        with_leftovers(keyed, found.drop_last()).push(found.last())
    }
}

/// Adds the groups of files that were found but are no longer written to.
pub fn add_leftovers(
    keyed: &Vec<(String, (u64, u64))>,
    found: &Vec<(String, (u64, u64))>,
) -> (r: Vec<(String, (u64, u64))>)
    ensures
        r@ == with_leftovers(keyed@, found@),
{
    let mut out: Vec<(String, (u64, u64))> = Vec::new();
    let mut i: usize = 0;
    while i < keyed.len()
        invariant
            i <= keyed@.len(),
            out@ == keyed@.take(i as int),
        decreases keyed@.len() - i,
    {
        out.push((keyed[i].0.clone(), keyed[i].1));
        assert(out@ =~= keyed@.take(i + 1));
        i += 1;
    }
    assert(keyed@.take(i as int) =~= keyed@);
    let mut j: usize = 0;
    assert(found@.take(0) =~= Seq::<(String, (u64, u64))>::empty());
    while j < found.len()
        invariant
            j <= found@.len(),
            out@ == with_leftovers(keyed@, found@.take(j as int)),
        decreases found@.len() - j,
    {
        proof {
            assert(found@.take(j + 1).drop_last() =~= found@.take(j as int));
            assert(found@.take(j + 1).last() == found@[j as int]);
        }
        let mut known = false;
        let mut k: usize = 0;
        while k < keyed.len()
            invariant
                k <= keyed@.len(),
                j < found@.len(),
                known == (exists|m: int|
                    0 <= m < k && (#[trigger] keyed@[m]).0@ == found@[j as int].0@),
            decreases keyed@.len() - k,
        {
            if text_eq(keyed[k].0.as_str(), found[j].0.as_str()) {
                assert(keyed@[k as int].0@ == found@[j as int].0@);
                known = true;
            }
            k += 1;
        }
        if !known {
            out.push((found[j].0.clone(), found[j].1));
        }
        j += 1;
    }
    assert(found@.take(j as int) =~= found@);
    out
}

/// A snapshot that can be read back.
pub open spec fn is_readable(s: Snapshot) -> bool {
    &&& s.next_topic_id < u64::MAX
    &&& forall|i: int| 0 <= i < s.topics@.len() ==> sound(#[trigger] s.topics@[i])
}

/// A snapshot holds all topics and routers of an engine, in the order of their names.
pub open spec fn is_snapshot_of(
    s: Snapshot,
    v: EngineView,
    fetched: Seq<(u64, Vec<Fetched>)>,
) -> bool {
    let names = in_order(v.topics.dom());
    let routers = v.routers.snapshot();
    &&& s.next_topic_id == v.next_topic_id
    &&& s.topics@.len() == names.len()
    &&& forall|i: int|
        0 <= i < names.len() ==> captures(
            #[trigger] s.topics@[i],
            v.topics[names[i]],
            payloads_for(fetched, v.topics[names[i]].topic_id),
        )
    &&& s.routers@.len() == routers.len()
    &&& forall|i: int|
        0 <= i < routers.len() ==> #[trigger] s.routers@[i] == kept_router(
            routers[i].0,
            routers[i].1,
            routers[i].2,
            routers[i].3,
        )
}

impl EngineView {
    /// The engine with a topic read back.
    pub open spec fn with_restored_topic(self, s: SnapshotTopic) -> EngineView {
        EngineView {
            total: sat_add(self.total, s.bytes_retained),
            ..self.with_topic(restored(s))
        }
    }

    /// The engine with topics read back, one after the other.
    pub open spec fn with_restored_topics(self, topics: Seq<SnapshotTopic>) -> EngineView
        decreases topics.len(),
    {
        if topics.len() == 0 {
            self
        } else {
            self.with_restored_topics(topics.drop_last()).with_restored_topic(topics.last())
        }
    }

    /// The engine with a router read back.
    pub open spec fn with_restored_router(self, s: SnapshotRouter) -> EngineView {
        EngineView {
            routers: self.routers.restored(
                (router_of(s), s.forward_cursor, s.forwarded_total, s.dest_base),
            ),
            ..self
        }
    }

    /// The engine with routers read back, one after the other.
    pub open spec fn with_restored_routers(self, routers: Seq<SnapshotRouter>) -> EngineView
        decreases routers.len(),
    {
        if routers.len() == 0 {
            self
        } else {
            self.with_restored_routers(routers.drop_last()).with_restored_router(routers.last())
        }
    }
}

impl Engine {
    /// Writes the engine down, once retention is enforced everywhere. Where a write
    /// or a deletion is still under way in some topic, there is no snapshot.
    /// Payloads that live in segments are given in `fetched`, by topic.
    pub fn capture(
        &mut self,
        id: u64,
        keyed: &Vec<(String, (u64, u64))>,
        fetched: &Vec<(u64, Vec<Fetched>)>,
        now: i64,
    ) -> (r: Option<Snapshot>)
        requires
            old(self).wf(),
        ensures
            final(self).wf(),
            ({
                let v = old(self)@;
                let names = in_order(v.topics.dom());
                let w = v.glanced(v.topics.dom(), false, now);
                let busy = exists|n: Seq<char>| #[trigger]
                    v.topics.contains_key(n) && v.topics[n].turn != v.topics[n].next_ticket;
                if busy {
                    r is None && final(self)@ == v
                } else {
                    &&& r is Some
                    &&& final(self)@ == w
                    &&& r->0.id == id
                    &&& r->0.ts == stamp(now)
                    &&& is_checkpoint(r->0.checkpoint, keyed@, highest_head(w, names))
                    &&& is_snapshot_of(r->0, w, fetched@)
                    &&& v.next_topic_id < u64::MAX ==> is_readable(r->0)
                }
            }),
    {
        let ghost v = self@;
        let names = self.topics.names();
        let ghost ks = texts(names@);
        assert(self@.topics.dom() =~= self.topics@.dom());
        let mut i: usize = 0;
        while i < names.len()
            invariant
                self.wf(),
                self@ == v,
                ks == texts(names@),
                i <= names@.len(),
                forall|j: int|
                    0 <= j < names@.len() ==> v.topics.contains_key((#[trigger] names@[j])@),
                forall|j: int|
                    0 <= j < i ==> v.topics[#[trigger] ks[j]].turn == v.topics[ks[j]].next_ticket,
            decreases names@.len() - i,
        {
            assert(v.topics.contains_key(names@[i as int]@));
            match self.topics.get(names[i].as_str()) {
                Some(t) => {
                    if !t.is_quiet() {
                        return None;
                    }
                },
                None => {},
            }
            i += 1;
        }
        proof {
            assert forall|n: Seq<char>| #[trigger] v.topics.contains_key(n) implies v.topics[n].turn
                == v.topics[n].next_ticket by {
                assert(ks.to_set().contains(n));
                let j = choose|j: int| 0 <= j < ks.len() && ks[j] == n;
                assert(v.topics[ks[j]].turn == v.topics[ks[j]].next_ticket);
            }
        }
        let _ = self.glance_at(&names, false, now);
        let ghost w = v.glanced(v.topics.dom(), false, now);
        assert(self@ == w);
        let mut topics: Vec<SnapshotTopic> = Vec::new();
        let mut last: u64 = 0;
        let mut k: usize = 0;
        assert(ks.take(0) =~= Seq::<Seq<char>>::empty());
        while k < names.len()
            invariant
                self.wf(),
                self@ == w,
                w == v.glanced(v.topics.dom(), false, now),
                k <= names@.len(),
                texts(names@) == ks,
                names@.len() == ks.len(),
                forall|j: int|
                    0 <= j < names@.len() ==> v.topics.contains_key((#[trigger] names@[j])@),
                topics@.len() == k,
                last == highest_head(w, ks.take(k as int)),
                forall|j: int|
                    0 <= j < k ==> captures(
                        #[trigger] topics@[j],
                        w.topics[ks[j]],
                        payloads_for(fetched@, w.topics[ks[j]].topic_id),
                    ),
            decreases names@.len() - k,
        {
            proof {
                assert(texts(names@)[k as int] == names@[k as int]@);
                assert(v.topics.contains_key(names@[k as int]@));
                assert(w.topics.contains_key(names@[k as int]@));
                assert(ks.take(k + 1).drop_last() =~= ks.take(k as int));
                assert(ks.take(k + 1).last() == ks[k as int]);
            }
            match self.topics.get(names[k].as_str()) {
                Some(t) => {
                    let none: Vec<Fetched> = Vec::new();
                    let s = match find_payloads(fetched, t.topic_id) {
                        Some(p) => capture_topic(t, &fetched[p].1),
                        None => {
                            assert(none@ =~= Seq::<Fetched>::empty());
                            capture_topic(t, &none)
                        },
                    };
                    last = larger(last, t.head_seq());
                    topics.push(s);
                },
                None => {},
            }
            k += 1;
        }
        assert(ks.take(k as int) =~= ks);
        let all = self.routers.snapshot_all();
        let ghost rs = all@;
        let mut rest = reversed(all);
        let ghost total = rest@;
        let mut routers: Vec<SnapshotRouter> = Vec::new();
        while rest.len() > 0
            invariant
                rest@ == total.take(rest@.len() as int),
                total.len() == rs.len(),
                forall|j: int| 0 <= j < total.len() ==> #[trigger] total[j] == rs[rs.len() - 1 - j],
                routers@.len() + rest@.len() == rs.len(),
                forall|j: int|
                    0 <= j < routers@.len() ==> #[trigger] routers@[j] == kept_router(
                        rs[j].0,
                        rs[j].1,
                        rs[j].2,
                        rs[j].3,
                    ),
            decreases rest@.len(),
        {
            let ghost r0 = rest@;
            match rest.pop() {
                Some(x) => {
                    assert(x == total[r0.len() - 1]);
                    assert(x == rs[routers@.len() as int]);
                    routers.push(router_to_snapshot(x.0, x.1, x.2, x.3));
                    assert(rest@ =~= total.take(r0.len() - 1));
                },
                None => {},
            }
        }
        proof {
            self.wf_ok();
            assert forall|j: int| 0 <= j < topics@.len() implies sound(#[trigger] topics@[j]) by {
                assert(texts(names@)[j] == names@[j]@);
                assert(w.topics.contains_key(ks[j]));
                snapshot_is_sound(
                    topics@[j],
                    w.topics[ks[j]],
                    payloads_for(fetched@, w.topics[ks[j]].topic_id),
                );
            }
        }
        Some(
            Snapshot {
                id,
                ts: log_time(now),
                next_topic_id: self.next_topic_id,
                checkpoint: make_checkpoint(keyed, last),
                topics,
                routers,
            },
        )
    }

    /// Reads the engine back from a snapshot, and hands out where the log goes on.
    pub fn restore(&mut self, snapshot: Snapshot) -> (r: Checkpoint)
        requires
            old(self).wf(),
            forall|i: int|
                0 <= i < snapshot.topics@.len() ==> sound(#[trigger] snapshot.topics@[i]),
        ensures
            final(self).wf(),
            r == snapshot.checkpoint,
            final(self)@ == (EngineView {
                next_topic_id: snapshot.next_topic_id,
                ..old(self)@
            }).with_restored_topics(snapshot.topics@).with_restored_routers(snapshot.routers@),
    {
        let ghost v = EngineView { next_topic_id: snapshot.next_topic_id, ..self@ };
        self.next_topic_id = snapshot.next_topic_id;
        let ghost ts = snapshot.topics@;
        let ghost rs = snapshot.routers@;
        let mut topics = reversed(snapshot.topics);
        let ghost tt = topics@;
        assert(ts.take(0) =~= Seq::<SnapshotTopic>::empty());
        while topics.len() > 0
            invariant
                self.wf(),
                tt.len() == ts.len(),
                topics@.len() <= tt.len(),
                topics@ == tt.take(topics@.len() as int),
                forall|j: int| 0 <= j < tt.len() ==> #[trigger] tt[j] == ts[ts.len() - 1 - j],
                forall|i: int|
                    0 <= i < ts.len() ==> sound(#[trigger] ts[i]),
                self@ == v.with_restored_topics(ts.take(ts.len() - topics@.len())),
            decreases topics@.len(),
        {
            let ghost k = ts.len() - topics@.len();
            let ghost t0 = topics@;
            match topics.pop() {
                Some(s) => {
                    proof {
                        assert(s == tt[t0.len() - 1]);
                        assert(s == ts[k]);
                        assert(topics@ =~= tt.take(t0.len() - 1));
                        assert(ts.take(k + 1).drop_last() =~= ts.take(k));
                        assert(ts.take(k + 1).last() == s);
                    }
                    let bytes: u64 = s.bytes_retained;
                    let t = restore_topic(s);
                    self.put_topic(t);
                    self.total_bytes_live = self.total_bytes_live.saturating_add(bytes);
                },
                None => {},
            }
        }
        assert(ts.take(ts.len() as int) =~= ts);
        let ghost w = self@;
        let mut routers = reversed(snapshot.routers);
        let ghost tr = routers@;
        assert(rs.take(0) =~= Seq::<SnapshotRouter>::empty());
        while routers.len() > 0
            invariant
                self.wf(),
                tr.len() == rs.len(),
                routers@.len() <= tr.len(),
                routers@ == tr.take(routers@.len() as int),
                forall|j: int| 0 <= j < tr.len() ==> #[trigger] tr[j] == rs[rs.len() - 1 - j],
                self@ == w.with_restored_routers(rs.take(rs.len() - routers@.len())),
            decreases routers@.len(),
        {
            let ghost k = rs.len() - routers@.len();
            let ghost r0 = routers@;
            match routers.pop() {
                Some(s) => {
                    proof {
                        assert(s == tr[r0.len() - 1]);
                        assert(s == rs[k]);
                        assert(routers@ =~= tr.take(r0.len() - 1));
                        assert(rs.take(k + 1).drop_last() =~= rs.take(k));
                        assert(rs.take(k + 1).last() == s);
                    }
                    let (cursor, total, base) = (
                        s.forward_cursor,
                        s.forwarded_total,
                        s.dest_base,
                    );
                    let r = router_from_snapshot(s);
                    self.routers.restore(r, cursor, total, base);
                },
                None => {},
            }
        }
        assert(rs.take(rs.len() as int) =~= rs);
        snapshot.checkpoint
    }
}

/// When a snapshot is taken: after so many bytes of log, or after so much time.
#[derive(Debug, Clone, Copy, PartialEq, Eq, Structural)]
pub struct SnapshotPolicy {
    pub bytes_threshold: u64,
    pub interval_ms: u64,
}

/// The size of the log and the time when the last snapshot was taken.
#[derive(Debug, Clone, Copy, PartialEq, Eq, Structural)]
pub struct SnapshotMark {
    pub log_bytes: u64,
    pub ms: u64,
}

/// It is time for a snapshot of so many topics: there is a log and a topic, and enough
/// was logged or enough time has passed since the last.
pub open spec fn is_time(
    topics: nat,
    log_bytes: Option<u64>,
    last: SnapshotMark,
    policy: SnapshotPolicy,
    now: i64,
) -> bool {
    &&& log_bytes is Some
    &&& topics > 0
    &&& sat_sub(log_bytes->0, last.log_bytes) >= policy.bytes_threshold || sat_sub(
        stamp(now),
        last.ms,
    ) >= policy.interval_ms
}

impl Engine {
    /// Whether it is time for a snapshot. Without a log, or without a topic, it
    /// never is.
    pub fn snapshot_due(
        &self,
        log_bytes: Option<u64>,
        last: SnapshotMark,
        policy: SnapshotPolicy,
        now: i64,
    ) -> (r: bool)
        requires
            self.wf(),
        ensures
            r == is_time(self@.topics.dom().len(), log_bytes, last, policy, now),
    {
        let written: u64 = match log_bytes {
            Some(b) => b,
            None => {
                return false;
            },
        };
        if self.box_count() == 0 {
            return false;
        }
        written.saturating_sub(last.log_bytes) >= policy.bytes_threshold || log_time(
            now,
        ).saturating_sub(last.ms) >= policy.interval_ms
    }
}

} // verus!
