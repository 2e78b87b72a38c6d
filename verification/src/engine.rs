//! The engine: the registry of topics, the routers between them, and the limits
//! that hold for all.
use crate::config::{is_valid_name, valid_name, SEQ_BASE};
use crate::engine_laws::{change_keeps_quiet, put_keeps_quiet};
use crate::eviction::{sat_add, sat_sub};
use crate::names::in_order;
use crate::registry::Registry;
use crate::router::{no_routers, touching, RouterGraph, RouterView};
use crate::text::{text_eq, texts};
use crate::topic_laws::retention_keeps;
use crate::topic_state::{fresh_topic, TopicState, TopicView};
use crate::types::{Durability, Error, ErrorCode, ErrorDetail, TopicConfig, TopicType};
use vstd::prelude::*;

verus! {

/// The limits of the whole engine. `0` stands for "none".
#[derive(Debug, Clone, Copy, PartialEq, Eq, Structural)]
pub struct Limits {
    pub max_topics: u64,
    pub max_routers: u64,
    pub max_total_bytes: u64,
}

/// The state of the engine.
pub ghost struct EngineView {
    pub topics: Map<Seq<char>, TopicView>,
    pub routers: RouterView,
    pub next_topic_id: u64,
    /// The bytes that count against the quota.
    pub total: u64,
    pub limits: Limits,
    /// Whether routers with different sources may share a destination.
    pub fan_in: bool,
}

/// The engine.
#[derive(Debug)]
pub struct Engine {
    pub topics: Registry,
    pub routers: RouterGraph,
    pub next_topic_id: u64,
    pub total_bytes_live: u64,
    pub limits: Limits,
    pub fan_in: bool,
}

/// The states of a map of topics.
pub open spec fn topic_views(m: Map<Seq<char>, TopicState>) -> Map<Seq<char>, TopicView> {
    m.map_values(|t: TopicState| t@)
}

impl View for Engine {
    type V = EngineView;

    open spec fn view(&self) -> EngineView {
        EngineView {
            topics: topic_views(self.topics@),
            routers: self.routers@,
            next_topic_id: self.next_topic_id,
            total: self.total_bytes_live,
            limits: self.limits,
            fan_in: self.fan_in,
        }
    }
}

/// The sizes of the topics named, added up.
pub open spec fn sum_bytes(topics: Map<Seq<char>, TopicView>, names: Seq<Seq<char>>) -> u64
    decreases names.len(),
{
    if names.len() == 0 {
        0
    } else {
        sat_add(sum_bytes(topics, names.drop_last()), topics[names.last()].bytes)
    }
}

impl EngineView {
    /// The engine with a topic in a new state.
    pub open spec fn with_topic(self, t: TopicView) -> EngineView {
        EngineView { topics: self.topics.insert(t.name, t), ..self }
    }

    /// The topics stand under their own names, and there are finitely many.
    pub open spec fn ok(self) -> bool {
        &&& self.topics.dom().finite()
        &&& self.routers.named()
        &&& self.routers.routers.dom().finite()
        &&& forall|n: Seq<char>| #[trigger]
            self.topics.contains_key(n) ==> self.topics[n].name == n && self.topics[n].ok()
    }

    /// No further topic may be created.
    pub open spec fn topics_full(self) -> bool {
        self.limits.max_topics != 0 && self.topics.dom().len() >= self.limits.max_topics
    }

    /// What a request to create or change a topic is refused for.
    pub open spec fn put_refusal(self, name: Seq<char>, config: TopicConfig) -> Option<ErrorCode> {
        let c = config.normalized();
        if !valid_name(name) {
            Some(ErrorCode::InvalidRequest)
        } else if c.topic_type == TopicType::Queue && c.dead_letter is Some
            && c.dead_letter->0@ == name {
            Some(ErrorCode::InvalidRequest)
        } else if self.topics.contains_key(name) {
            let old = self.topics[name].config;
            if old.topic_type != c.topic_type || (old.class() == Durability::Memory) != (c.class()
                == Durability::Memory) {
                Some(ErrorCode::TopicExistsIncompatible)
            } else {
                None
            }
        } else if self.topics_full() {
            Some(ErrorCode::Throttled)
        } else {
            None
        }
    }

    /// The engine with a topic created or changed. A topic that is there keeps its
    /// records, as far as the new settings retain them.
    pub open spec fn with_put(self, name: Seq<char>, config: TopicConfig, now: i64) -> EngineView {
        let c = config.normalized();
        if self.topics.contains_key(name) {
            self.with_topic((TopicView { config: c, ..self.topics[name] }).retained(now))
        } else {
            EngineView {
                next_topic_id: (self.next_topic_id + 1) as u64,
                ..self.with_topic(fresh_topic(name, self.next_topic_id, c, SEQ_BASE, 1))
            }
        }
    }

    /// What is said of a topic that was refused.
    pub open spec fn put_detail(self, name: Seq<char>, config: TopicConfig) -> ErrorDetail {
        let present = self.topics[name].config;
        match self.put_refusal(name, config) {
            Some(ErrorCode::Throttled) => ErrorDetail::Limit(self.limits.max_topics),
            Some(ErrorCode::TopicExistsIncompatible) => if present.topic_type
                != config.topic_type {
                ErrorDetail::Type {
                    existing: present.topic_type,
                    requested: config.topic_type,
                }
            } else {
                ErrorDetail::Class { present: present.class(), wanted: config.class() }
            },
            _ => ErrorDetail::Plain,
        }
    }

    /// Every topic is at rest: nothing is staged, no ticket is out, and number and
    /// size agree with the slots.
    pub open spec fn quiet(self) -> bool {
        forall|n: Seq<char>| #[trigger] self.topics.contains_key(n) ==> self.topics[n].idle()
    }

    /// The engine without a topic and the routers with an end at it.
    pub open spec fn without_topic(self, name: Seq<char>) -> EngineView {
        EngineView {
            topics: self.topics.remove(name),
            total: sat_sub(self.total, self.topics[name].bytes),
            routers: self.routers.without(touching(self.routers.routers, name)),
            ..self
        }
    }
}

/// The answer to the deletion of a topic.
#[derive(Debug)]
pub struct BoxDeleteResponse {
    pub deleted: bool,
    pub routers_removed: Vec<String>,
}

/// The answer to a request for a topic that was created or changed: whether it is new, and
/// its settings as they are written out.
pub open spec fn answers_put(
    v: EngineView,
    name: Seq<char>,
    config: TopicConfig,
    p: (bool, TopicConfig),
) -> bool {
    &&& p.0 == !v.topics.contains_key(name)
    &&& p.1 == config.normalized()
}

/// The answer to a request to remove a topic, and the engine after it. Where only an empty
/// topic is to go, one that still holds records stays.
pub open spec fn answers_removal(
    v: EngineView,
    name: Seq<char>,
    if_empty: bool,
    now: i64,
    r: Result<BoxDeleteResponse, Error>,
    v2: EngineView,
) -> bool {
    let t = if if_empty {
        v.topics[name].retained(now)
    } else {
        v.topics[name]
    };
    if !v.topics.contains_key(name) {
        &&& r is Ok
        &&& !r->Ok_0.deleted
        &&& r->Ok_0.routers_removed@.len() == 0
        &&& v2 == v
    } else if if_empty && t.live != 0 {
        &&& r is Err
        &&& r->Err_0.code == ErrorCode::TopicNotEmpty
        &&& r->Err_0.detail == ErrorDetail::Count(t.live)
        &&& v2 == v.with_topic(t)
    } else {
        &&& r is Ok
        &&& r->Ok_0.deleted
        &&& texts(r->Ok_0.routers_removed@) == in_order(touching(v.routers.routers, name))
        &&& v2 == v.with_topic(t).without_topic(name)
    }
}

/// A name comes under an allow-list: the list is empty, or the name begins with
/// one of its prefixes.
pub open spec fn allowed(name: Seq<char>, prefixes: Seq<Seq<char>>) -> bool {
    prefixes.len() == 0 || exists|i: int|
        0 <= i < prefixes.len() && (#[trigger] prefixes[i]).is_prefix_of(name)
}

/// Whether a name comes under an allow-list.
pub fn name_allowed(name: &str, allow_prefixes: &[String]) -> (r: bool)
    ensures
        r == allowed(name@, texts(allow_prefixes@)),
{
    if allow_prefixes.len() == 0 {
        return true;
    }
    let mut i: usize = 0;
    while i < allow_prefixes.len()
        invariant
            i <= allow_prefixes@.len(),
            forall|j: int|
                0 <= j < i ==> !(#[trigger] texts(allow_prefixes@)[j]).is_prefix_of(name@),
        decreases allow_prefixes@.len() - i,
    {
        if crate::text::starts_with(name, allow_prefixes[i].as_str()) {
            assert(texts(allow_prefixes@)[i as int].is_prefix_of(name@));
            return true;
        }
        i += 1;
    }
    false
}

impl Engine {
    /// The parts are well-formed, and each topic stands under its own name.
    pub open spec fn wf(&self) -> bool {
        &&& self.topics.wf()
        &&& self.routers.wf()
        &&& forall|n: Seq<char>| #[trigger]
            self.topics@.contains_key(n) ==> self.topics@[n].wf() && self.topics@[n].name@ == n
    }

    /// The state of a well-formed engine is sound.
    pub proof fn wf_ok(&self)
        requires
            self.wf(),
        ensures
            self@.ok(),
    {
        self.topics.wf_named();
        assert(self@.topics.dom() =~= self.topics@.dom());
        self.routers.wf_named();
    }

    /// An engine without topics, in which a destination has one source.
    pub fn new(limits: Limits) -> (r: Engine)
        ensures
            r.wf(),
            r@.topics == Map::<Seq<char>, TopicView>::empty(),
            r@.routers == no_routers(),
            r@.next_topic_id == 1,
            r@.total == 0,
            r@.limits == limits,
            !r@.fan_in,
    {
        let r = Engine {
            topics: Registry::new(),
            routers: RouterGraph::new(),
            next_topic_id: 1,
            total_bytes_live: 0,
            limits,
            fan_in: false,
        };
        assert(r@.topics =~= Map::<Seq<char>, TopicView>::empty());
        r
    }

    /// Takes a topic out of the registry, to be put back.
    pub fn take_topic(&mut self, name: &str) -> (r: Option<TopicState>)
        requires
            old(self).wf(),
        ensures
            final(self).wf(),
            match r {
                Some(t) => {
                    &&& old(self)@.topics.contains_key(name@)
                    &&& t.wf()
                    &&& t@ == old(self)@.topics[name@]
                    &&& t@.name == name@
                    &&& final(self)@ == (EngineView {
                        topics: old(self)@.topics.remove(name@),
                        ..old(self)@
                    })
                },
                None => {
                    &&& !old(self)@.topics.contains_key(name@)
                    &&& final(self)@ == old(self)@
                },
            },
    {
        let r = self.topics.remove(name);
        proof {
            assert(self@.topics =~= old(self)@.topics.remove(name@));
            if r is None {
                assert(self@.topics =~= old(self)@.topics);
            }
        }
        r
    }

    /// Puts a topic into the registry, under its own name.
    pub fn put_topic(&mut self, t: TopicState)
        requires
            old(self).wf(),
            t.wf(),
        ensures
            final(self).wf(),
            final(self)@ == old(self)@.with_topic(t@),
    {
        self.topics.insert(t);
        proof {
            assert(self@.topics =~= old(self)@.topics.insert(t@.name, t@));
        }
    }

    /// The topic of a name.
    pub fn get_box(&self, name: &str) -> (r: Option<&TopicState>)
        requires
            self.wf(),
        ensures
            match r {
                Some(t) => {
                    &&& self@.topics.contains_key(name@)
                    &&& t.wf()
                    &&& t@ == self@.topics[name@]
                },
                None => !self@.topics.contains_key(name@),
            },
    {
        self.topics.get(name)
    }

    /// How many topics there are.
    pub fn box_count(&self) -> (r: u64)
        requires
            self.wf(),
        ensures
            r == self@.topics.dom().len(),
    {
        assert(self@.topics.dom() =~= self.topics@.dom());
        self.topics.len() as u64
    }

    /// How many routers there are.
    pub fn router_count(&self) -> (r: u64)
        requires
            self.wf(),
        ensures
            r == self@.routers.routers.dom().len(),
    {
        self.routers.len() as u64
    }

    /// The size of all records that can be read.
    pub fn total_bytes(&self) -> (r: u64)
        requires
            self.wf(),
        ensures
            r == sum_bytes(self@.topics, in_order(self@.topics.dom())),
    {
        let mut total: u64 = 0;
        let mut i: usize = 0;
        let names = self.topics.names();
        let ghost ks = texts(names@);
        assert(ks.take(0) =~= Seq::<Seq<char>>::empty());
        while i < names.len()
            invariant
                self.wf(),
                ks == texts(names@),
                forall|k: int|
                    0 <= k < names@.len() ==> self.topics@.contains_key((#[trigger] names@[k])@),
                i <= names@.len(),
                total == sum_bytes(self@.topics, ks.take(i as int)),
            decreases names@.len() - i,
        {
            proof {
                assert(ks.take(i + 1).drop_last() =~= ks.take(i as int));
                assert(ks.take(i + 1).last() == names@[i as int]@);
            }
            match self.topics.get(names[i].as_str()) {
                Some(t) => {
                    total = total.saturating_add(t.bytes());
                },
                None => {},
            }
            i += 1;
        }
        proof {
            assert(ks.take(i as int) =~= ks);
            assert(self@.topics.dom() =~= self.topics@.dom());
        }
        total
    }

    /// Counts bytes against the quota, unless they do not fit.
    pub fn try_reserve_total_bytes(&mut self, incoming: u64) -> (r: bool)
        requires
            old(self).wf(),
        ensures
            final(self).wf(),
            r == (old(self)@.limits.max_total_bytes == 0 || sat_add(old(self)@.total, incoming)
                <= old(self)@.limits.max_total_bytes),
            r && old(self)@.limits.max_total_bytes != 0 ==> final(self)@ == (EngineView {
                total: sat_add(old(self)@.total, incoming),
                ..old(self)@
            }),
            !r || old(self)@.limits.max_total_bytes == 0 ==> final(self)@ == old(self)@,
    {
        let cap: u64 = self.limits.max_total_bytes;
        if cap == 0 {
            return true;
        }
        let next: u64 = self.total_bytes_live.saturating_add(incoming);
        if next > cap {
            return false;
        }
        self.total_bytes_live = next;
        true
    }

    /// Gives bytes back to the quota.
    pub fn release_total_bytes(&mut self, bytes: u64)
        requires
            old(self).wf(),
        ensures
            final(self).wf(),
            final(self)@ == (EngineView {
                total: sat_sub(old(self)@.total, bytes),
                ..old(self)@
            }),
    {
        self.total_bytes_live = self.total_bytes_live.saturating_sub(bytes);
    }

    /// Makes the quota count what is there.
    pub fn reconcile_total_bytes(&mut self)
        requires
            old(self).wf(),
        ensures
            final(self).wf(),
            final(self)@ == (EngineView {
                total: sum_bytes(old(self)@.topics, in_order(old(self)@.topics.dom())),
                ..old(self)@
            }),
    {
        let total: u64 = self.total_bytes();
        self.total_bytes_live = total;
    }

    /// What a request to create or change a topic is refused for, if anything.
    pub fn check_put_box(&self, name: &str, config: &TopicConfig) -> (r: Result<bool, Error>)
        requires
            self.wf(),
        ensures
            match r {
                Ok(new) => {
                    &&& self@.put_refusal(name@, *config) is None
                    &&& new == !self@.topics.contains_key(name@)
                },
                Err(e) => {
                    &&& self@.put_refusal(name@, *config) == Some(e.code)
                    &&& e.detail == self@.put_detail(name@, *config)
                },
            },
    {
        if !is_valid_name(name) {
            return Err(Error::new(ErrorCode::InvalidRequest));
        }
        if config.is_queue() {
            match &config.dead_letter {
                Some(d) => {
                    if text_eq(d.as_str(), name) {
                        return Err(Error::new(ErrorCode::InvalidRequest));
                    }
                },
                None => {},
            }
        }
        match self.topics.get(name) {
            Some(t) => {
                if t.config.topic_type != config.topic_type {
                    return Err(
                        Error::with_detail(
                            ErrorCode::TopicExistsIncompatible,
                            ErrorDetail::Type {
                                existing: t.config.topic_type,
                                requested: config.topic_type,
                            },
                        ),
                    );
                }
                if t.config.is_memory() != config.is_memory() {
                    return Err(
                        Error::with_detail(
                            ErrorCode::TopicExistsIncompatible,
                            ErrorDetail::Class {
                                present: t.config.durability_class(),
                                wanted: config.durability_class(),
                            },
                        ),
                    );
                }
                Ok(false)
            },
            None => {
                if self.limits.max_topics != 0 && self.box_count() >= self.limits.max_topics {
                    return Err(
                        Error::with_detail(
                            ErrorCode::Throttled,
                            ErrorDetail::Limit(self.limits.max_topics),
                        ),
                    );
                }
                Ok(true)
            },
        }
    }

    /// Creates a topic or changes its settings, and says whether it is new and
    /// what its settings are.
    pub fn put_box(&mut self, name: &str, config: TopicConfig, now: i64) -> (r: Result<
        (bool, TopicConfig),
        Error,
    >)
        requires
            old(self).wf(),
            old(self)@.next_topic_id < u64::MAX,
        ensures
            final(self).wf(),
            old(self)@.quiet() ==> final(self)@.quiet(),
            match r {
                Ok(p) => {
                    &&& old(self)@.put_refusal(name@, config) is None
                    &&& answers_put(old(self)@, name@, config, p)
                    &&& final(self)@ == old(self)@.with_put(name@, config, now)
                },
                Err(e) => {
                    &&& old(self)@.put_refusal(name@, config) == Some(e.code)
                    &&& e.detail == old(self)@.put_detail(name@, config)
                    &&& final(self)@ == old(self)@
                },
            },
    {
        let created = match self.check_put_box(name, &config) {
            Ok(c) => c,
            Err(e) => {
                return Err(e);
            },
        };
        let ghost config0 = config;
        let mut config = config;
        config.normalize_durability();
        let result = config.copy();
        proof {
            self.wf_ok();
            if self@.quiet() {
                put_keeps_quiet(self@, name@, config0, now);
            }
        }
        let _ = self.apply_put_box(name, config, None, None, now);
        Ok((created, result))
    }

    /// Creates a topic or changes its settings, without asking whether that is
    /// allowed. A new topic gets the number and epoch given, else fresh ones.
    pub fn apply_put_box(
        &mut self,
        name: &str,
        config: TopicConfig,
        forced_id: Option<u64>,
        forced_epoch: Option<u64>,
        now: i64,
    ) -> (r: (bool, u64))
        requires
            old(self).wf(),
            old(self)@.topics.contains_key(name@) ==> old(self)@.topics[name@].config.topic_type
                == config.topic_type,
            old(self)@.next_topic_id < u64::MAX,
            forced_id is Some ==> forced_id->0 < u64::MAX,
        ensures
            final(self).wf(),
            old(self)@.topics.contains_key(name@) ==> {
                &&& r == (false, old(self)@.topics[name@].topic_id)
                &&& final(self)@ == old(self)@.with_topic(
                    (TopicView { config, ..old(self)@.topics[name@] }).retained(now),
                )
            },
            !old(self)@.topics.contains_key(name@) ==> ({
                let id = match forced_id {
                    Some(x) => x,
                    None => old(self)@.next_topic_id,
                };
                let epoch = match forced_epoch {
                    Some(x) => x,
                    None => 1u64,
                };
                &&& r == (true, id)
                &&& final(self)@ == (EngineView {
                    next_topic_id: crate::eviction::max64(
                        old(self)@.next_topic_id,
                        (id + 1) as u64,
                    ),
                    ..old(self)@.with_topic(fresh_topic(name@, id, config, SEQ_BASE, epoch))
                })
            }),
    {
        match self.take_topic(name) {
            Some(t) => {
                let mut t = t;
                t.config = config;
                let id: u64 = t.topic_id;
                let ghost t1 = t@;
                let _ = t.enforce_retention(now);
                self.put_topic(t);
                proof {
                    assert(t1 == (TopicView { config, ..old(self)@.topics[name@] }));
                    assert(self@.topics =~= old(self)@.topics.insert(name@, t@));
                }
                (false, id)
            },
            None => {
                let id: u64 = match forced_id {
                    Some(x) => x,
                    None => self.next_topic_id,
                };
                if id >= self.next_topic_id {
                    self.next_topic_id = id + 1;
                }
                let epoch: u64 = match forced_epoch {
                    Some(x) => x,
                    None => 1,
                };
                let t = TopicState::new(name.to_owned(), id, config, SEQ_BASE, epoch);
                self.put_topic(t);
                (true, id)
            },
        }
    }

    /// Deletes a topic and the routers with an end at it. A topic that is not
    /// there is not deleted, without complaint. With `if_empty` a topic that still
    /// has records after retention is kept.
    pub fn delete_box(&mut self, name: &str, if_empty: bool, now: i64) -> (r: Result<
        BoxDeleteResponse,
        Error,
    >)
        requires
            old(self).wf(),
        ensures
            final(self).wf(),
            old(self)@.quiet() ==> final(self)@.quiet(),
            answers_removal(old(self)@, name@, if_empty, now, r, final(self)@),
    {
        proof {
            self.wf_ok();
        }
        let mut t = match self.take_topic(name) {
            Some(t) => t,
            None => {
                return Ok(BoxDeleteResponse { deleted: false, routers_removed: Vec::new() });
            },
        };
        if if_empty {
            proof {
                retention_keeps(t@, now);
            }
            let _ = t.enforce_retention(now);
            if t.count() != 0 {
                let count: u64 = t.count();
                self.put_topic(t);
                proof {
                    if old(self)@.quiet() {
                        change_keeps_quiet(old(self)@, t@);
                    }
                    assert(self@.topics =~= old(self)@.topics.insert(name@, t@));
                }
                return Err(
                    Error::with_detail(ErrorCode::TopicNotEmpty, ErrorDetail::Count(count)),
                );
            }
        }
        self.release_total_bytes(t.bytes());
        let routers_removed = self.routers.remove_touching_topic(name);
        proof {
            assert(self@.topics =~= old(self)@.with_topic(t@).without_topic(name@).topics);
        }
        Ok(BoxDeleteResponse { deleted: true, routers_removed })
    }
}

} // verus!
