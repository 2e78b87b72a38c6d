//! Creating, listing and removing routers.
use crate::config::{is_valid_router_name, valid_name, valid_router_name};
use crate::engine::{Engine, EngineView};
use crate::forward::head_of;
use crate::router::{closes_cycle, fans_in, is_cycle, number, single_source, validate_router};
use crate::text::texts;
use crate::types::{copy_filter, default_config, Error, ErrorCode, ErrorDetail, Filter, Router,
    RouterGuarantee, TopicConfig};
use vstd::prelude::*;

verus! {

/// A request to create or change a router.
#[derive(Debug)]
pub struct RouterCreateRequest {
    pub source: String,
    pub dest: String,
    pub preserve_node: bool,
    pub preserve_tag: bool,
    pub create_dest: bool,
    pub filter: Option<Filter>,
    pub allow_cycle: bool,
}

/// A router, and how much it has forwarded.
#[derive(Debug)]
pub struct RouterGetResponse {
    pub router: Router,
    pub forwarded_total: u64,
}

/// The router that a request asks for.
pub open spec fn asks_for(r: Router, name: Seq<char>, req: RouterCreateRequest) -> bool {
    &&& r.name@ == name
    &&& r.source == req.source
    &&& r.dest == req.dest
    &&& r.preserve_node == req.preserve_node
    &&& r.preserve_tag == req.preserve_tag
    &&& r.create_dest == req.create_dest
    &&& r.filter == req.filter
    &&& r.allow_cycle == req.allow_cycle
    &&& r.guarantee == RouterGuarantee::AtLeastOnce
}

impl EngineView {
    /// What a request for a router is refused for before it is taken in.
    pub open spec fn router_refusal(self, name: Seq<char>, req: RouterCreateRequest) -> Option<
        ErrorCode,
    > {
        if !valid_router_name(name) || req.source@ == req.dest@ || !valid_name(req.source@)
            || !valid_name(req.dest@) {
            Some(ErrorCode::InvalidRequest)
        } else if !self.topics.contains_key(req.dest@) && !req.create_dest {
            Some(ErrorCode::TopicNotFound)
        } else if !self.routers.routers.contains_key(name) && self.limits.max_routers != 0
            && self.routers.routers.dom().len() >= self.limits.max_routers {
            Some(ErrorCode::Throttled)
        } else if !req.allow_cycle && closes_cycle(
            self.routers.routers,
            Some(name),
            req.source@,
            req.dest@,
        ) {
            Some(ErrorCode::RouterCycle)
        } else if !self.fan_in && fans_in(self.routers.routers, name, req.source@, req.dest@) {
            Some(ErrorCode::TopicExistsIncompatible)
        } else {
            None
        }
    }

    /// The engine with a router taken in, which reads from the head of its source
    /// on.
    pub open spec fn with_router(self, r: Router) -> EngineView {
        EngineView {
            routers: self.routers.upserted(r).noted(r.name@, head_of(self, r.source@), 0),
            ..self
        }
    }

    /// The engine with a topic that was missing.
    pub open spec fn with_missing(self, name: Seq<char>, now: i64) -> EngineView {
        if self.topics.contains_key(name) {
            self
        } else {
            self.with_put(name, default_config(), now)
        }
    }

    /// A missing topic cannot be created.
    pub open spec fn blocks(self, name: Seq<char>) -> bool {
        !self.topics.contains_key(name) && self.topics_full()
    }
}

impl Engine {
    /// Creates a topic with default settings where it is missing.
    fn ensure_topic(&mut self, name: &str, now: i64) -> (r: Result<(), Error>)
        requires
            old(self).wf(),
            old(self)@.next_topic_id < u64::MAX,
            valid_name(name@),
        ensures
            final(self).wf(),
            final(self)@.next_topic_id <= old(self)@.next_topic_id + 1,
            match r {
                Ok(_) => {
                    &&& !old(self)@.blocks(name@)
                    &&& final(self)@ == old(self)@.with_missing(name@, now)
                },
                Err(e) => {
                    &&& old(self)@.blocks(name@)
                    &&& e.code == ErrorCode::Throttled
                    &&& e.detail == ErrorDetail::Limit(old(self)@.limits.max_topics)
                    &&& final(self)@ == old(self)@
                },
            },
    {
        if self.topics.contains_key(name) {
            return Ok(());
        }
        match self.put_box(name, TopicConfig::default(), now) {
            Ok(_) => Ok(()),
            Err(e) => Err(e),
        }
    }

    /// Says whether routers with different sources may share a destination. What is
    /// there stays.
    pub fn permit_fan_in(&mut self, on: bool)
        requires
            old(self).wf(),
        ensures
            final(self).wf(),
            final(self)@ == (EngineView { fan_in: on, ..old(self)@ }),
    {
        self.fan_in = on;
        assert(self@.topics =~= old(self)@.topics);
    }

    /// Creates a router or changes it, and says whether it is new. A second source
    /// for its destination is refused, unless that is permitted. Missing topics are
    /// created. Where that fails, a new router is taken out again.
    pub fn put_router(&mut self, name: &str, req: &RouterCreateRequest, now: i64) -> (r: Result<
        (bool, Router),
        Error,
    >)
        requires
            old(self).wf(),
            old(self)@.next_topic_id < u64::MAX - 1,
        ensures
            final(self).wf(),
            old(self)@.quiet() ==> final(self)@.quiet(),
            ({
                let v = old(self)@;
                let new = !v.routers.routers.contains_key(name@);
                let v1 = |x: Router| v.with_router(x);
                let v2 = |x: Router| v1(x).with_missing(req.source@, now);
                let blocked = v.blocks(req.source@) || v.with_missing(req.source@, now).blocks(
                    req.dest@,
                );
                match v.router_refusal(name@, *req) {
                    Some(c) => {
                        &&& r is Err
                        &&& r->Err_0.code == c
                        &&& final(self)@ == v
                        &&& match c {
                            ErrorCode::Throttled => r->Err_0.detail == ErrorDetail::Limit(
                                v.limits.max_routers,
                            ),
                            ErrorCode::RouterCycle => r->Err_0.detail is Cycle && is_cycle(
                                v.routers.routers,
                                Some(name@),
                                req.source@,
                                req.dest@,
                                texts(r->Err_0.detail->Cycle_0@),
                            ),
                            ErrorCode::TopicExistsIncompatible => r->Err_0.detail is FanIn,
                            _ => r->Err_0.detail is Plain,
                        }
                    },
                    None => if blocked {
                        &&& r is Err
                        &&& r->Err_0.code == ErrorCode::Throttled
                        &&& r->Err_0.detail == ErrorDetail::Limit(v.limits.max_topics)
                        &&& exists|x: Router| #[trigger]
                            asks_for(x, name@, *req) && {
                                let u = if v.blocks(req.source@) {
                                    v1(x)
                                } else {
                                    v2(x)
                                };
                                final(self)@ == (if new {
                                    EngineView { routers: u.routers.without(set![name@]), ..u }
                                } else {
                                    u
                                })
                            }
                    } else {
                        &&& r is Ok
                        &&& r->Ok_0.0 == new
                        &&& asks_for(r->Ok_0.1, name@, *req)
                        &&& exists|x: Router| #[trigger]
                            asks_for(x, name@, *req) && final(self)@ == v2(x).with_missing(
                                req.dest@,
                                now,
                            )
                    },
                }
            }),
    {
        let ghost v = self@;
        if !is_valid_router_name(name) {
            return Err(Error::new(ErrorCode::InvalidRequest));
        }
        match validate_router(req.source.as_str(), req.dest.as_str()) {
            Ok(_) => {},
            Err(e) => {
                return Err(e);
            },
        }
        if !self.topics.contains_key(req.dest.as_str()) && !req.create_dest {
            return Err(Error::new(ErrorCode::TopicNotFound));
        }
        let router = Router {
            name: name.to_owned(),
            source: req.source.clone(),
            dest: req.dest.clone(),
            preserve_node: req.preserve_node,
            preserve_tag: req.preserve_tag,
            create_dest: req.create_dest,
            filter: copy_filter(&req.filter),
            allow_cycle: req.allow_cycle,
            guarantee: RouterGuarantee::AtLeastOnce,
        };
        let answer = router.copy();
        assert(asks_for(router, name@, *req));
        let src_head: u64 = match self.get_box(req.source.as_str()) {
            Some(t) => t.head_seq(),
            None => 0,
        };
        let max: u64 = self.limits.max_routers;
        match self.routers.refusal(&router, max) {
            Some(e) => {
                return Err(e);
            },
            None => {},
        }
        if !self.fan_in && self.routers.has_other_source(
            name,
            req.source.as_str(),
            req.dest.as_str(),
        ) {
            return Err(
                Error::with_detail(ErrorCode::TopicExistsIncompatible, ErrorDetail::FanIn),
            );
        }
        let created = self.routers.place(router);
        self.routers.note_forwarded(name, src_head, 0);
        assert(self@ == v.with_router(answer));
        match self.ensure_topic(req.source.as_str(), now) {
            Ok(_) => {},
            Err(e) => {
                if created {
                    let _ = self.routers.remove(name);
                }
                return Err(e);
            },
        }
        match self.ensure_topic(req.dest.as_str(), now) {
            Ok(_) => {},
            Err(e) => {
                if created {
                    let _ = self.routers.remove(name);
                }
                return Err(e);
            },
        }
        Ok((created, answer))
    }

    /// A router and how much it has forwarded.
    pub fn get_router(&self, name: &str) -> (r: Result<RouterGetResponse, Error>)
        requires
            self.wf(),
        ensures
            if self@.routers.routers.contains_key(name@) {
                &&& r is Ok
                &&& r->Ok_0.router == self@.routers.routers[name@]
                &&& r->Ok_0.forwarded_total == number(self@.routers.totals, name@)
            } else {
                r is Err && r->Err_0.code == ErrorCode::RouterNotFound && r->Err_0.detail is Plain
            },
    {
        match self.routers.get(name) {
            Some(r) => Ok(
                RouterGetResponse {
                    router: r.copy(),
                    forwarded_total: self.routers.forwarded_total(name),
                },
            ),
            None => Err(Error::new(ErrorCode::RouterNotFound)),
        }
    }

    /// The source and the destination of a router.
    pub fn router_endpoints(&self, name: &str) -> (r: Option<(String, String)>)
        requires
            self.wf(),
        ensures
            r == (if self@.routers.routers.contains_key(name@) {
                Some(
                    (self@.routers.routers[name@].source, self@.routers.routers[name@].dest),
                )
            } else {
                None
            }),
    {
        match self.routers.get(name) {
            Some(r) => Some((r.source.clone(), r.dest.clone())),
            None => None,
        }
    }

    /// Takes a router out, and says whether it was there.
    pub fn delete_router(&mut self, name: &str) -> (r: bool)
        requires
            old(self).wf(),
        ensures
            final(self).wf(),
            old(self)@.quiet() ==> final(self)@.quiet(),
            r == old(self)@.routers.routers.contains_key(name@),
            final(self)@ == (EngineView {
                routers: old(self)@.routers.without(set![name@]),
                ..old(self)@
            }),
    {
        let r = self.routers.remove(name);
        assert(self@.topics =~= old(self)@.topics);
        r
    }
}

/// A destination keeps its one source: where no topic has routers from different
/// sources into it, a router that is taken in changes nothing about that.
pub proof fn destinations_keep_one_source(
    v: EngineView,
    name: Seq<char>,
    req: RouterCreateRequest,
    x: Router,
)
    requires
        !v.fan_in,
        single_source(v.routers.routers),
        v.router_refusal(name, req) is None,
        asks_for(x, name, req),
    ensures
        single_source(v.with_router(x).routers.routers),
{
}

} // verus!
