//! Listing topics and routers page by page, and looking at many topics at once.
use crate::config::MAX_PAGE_SIZE;
use crate::engine::{allowed, name_allowed, Engine, EngineView};
use crate::names::{ascending_distinct, in_order, in_order_is, in_order_lists, names_of, not_earlier,
    order_goes_on, take_one_more};
use crate::payload::{decode_cursor, encode_cursor, token, token_fits, token_name};
use crate::router::number;
use crate::text::{ascending, starts_with, text_before, text_eq, text_lt, text_lt_transitive, texts};
use crate::topic_laws::retention_keeps;
use crate::topic_state::TopicView;
use crate::types::{text_of, Error, ErrorCode, Router};
use vstd::prelude::*;

verus! {

/// A topic in a listing.
#[derive(Debug)]
pub struct BoxSummary {
    pub box_name: String,
    pub head_seq: u64,
    pub earliest_seq: u64,
    pub count: u64,
    pub bytes: u64,
    pub durable: bool,
}

/// A page of a listing of topics.
#[derive(Debug)]
pub struct BoxListResponse {
    pub boxes: Vec<BoxSummary>,
    pub next_cursor: Option<String>,
}

/// A router in a listing.
#[derive(Debug)]
pub struct RouterSummary {
    pub router: String,
    pub source: String,
    pub dest: String,
    pub forwarded_total: u64,
}

/// A page of a listing of routers.
#[derive(Debug)]
pub struct RouterListResponse {
    pub routers: Vec<RouterSummary>,
    pub next_cursor: Option<String>,
}

/// From where a topic is to be watched.
#[derive(Debug, Clone, Copy, PartialEq, Eq, Structural)]
pub struct WatchBoxOptions {
    /// Only what is written from now on.
    pub tail: bool,
    pub from_seq: u64,
}

/// From where a topic is watched.
#[derive(Debug, Clone, Copy, PartialEq, Eq, Structural)]
pub struct WatchBoxState {
    pub from_seq: u64,
    pub head_seq: u64,
    pub earliest_seq: u64,
}

/// The text behind an optional reference.
pub open spec fn str_of(s: Option<&str>) -> Option<Seq<char>> {
    match s {
        Some(x) => Some(x@),
        None => None,
    }
}

/// A name begins with a prefix, comes under an allow-list, and comes after a name.
pub open spec fn name_listed(
    n: Seq<char>,
    prefix: Option<Seq<char>>,
    allow: Seq<Seq<char>>,
    after: Option<Seq<char>>,
) -> bool {
    &&& prefix is Some ==> prefix->0.is_prefix_of(n)
    &&& allowed(n, allow)
    &&& after is Some ==> text_lt(after->0, n)
}

/// Whether a name is listed.
pub fn lists_name(n: &str, prefix: Option<&str>, allow: &[String], after: Option<&str>) -> (r: bool)
    ensures
        r == name_listed(n@, str_of(prefix), texts(allow@), str_of(after)),
{
    let a = match prefix {
        Some(p) => starts_with(n, p),
        None => true,
    };
    let b = match after {
        Some(x) => text_before(x, n),
        None => true,
    };
    a && b && name_allowed(n, allow)
}

/// The names of a list that have a property, in order.
pub open spec fn keep_names(s: Seq<Seq<char>>, p: spec_fn(Seq<char>) -> bool) -> Seq<Seq<char>>
    decreases s.len(),
{
    if s.len() == 0 {
        Seq::empty()
    } else if p(s.last()) {
        keep_names(s.drop_last(), p).push(s.last())
    } else {
        keep_names(s.drop_last(), p)
    }
}

/// What is kept of an ascending list is ascending, and is what has the property.
pub proof fn keep_names_sorted(s: Seq<Seq<char>>, p: spec_fn(Seq<char>) -> bool)
    requires
        ascending(s),
    ensures
        ascending(keep_names(s, p)),
        keep_names(s, p).to_set() == s.to_set().filter(p),
        keep_names(s, p) == in_order(s.to_set().filter(p)),
        keep_names(s, p).len() <= s.len(),
    decreases s.len(),
{
    let k = keep_names(s, p);
    if s.len() == 0 {
        assert(k.to_set() =~= s.to_set().filter(p));
    } else {
        let r = s.drop_last();
        assert forall|i: int, j: int| 0 <= i < j < r.len() implies text_lt(
            #[trigger] r[i],
            #[trigger] r[j],
        ) by {
            assert(r[i] == s[i] && r[j] == s[j]);
        }
        keep_names_sorted(r, p);
        let kr = keep_names(r, p);
        assert(s.take(s.len() - 1) =~= r);
        assert(s.take(s.len() as int) =~= s);
        take_one_more(s, s.len() - 1);
        assert forall|x: Seq<char>| s.to_set().contains(x) <==> r.to_set().contains(x) || x
            == s.last() by {
            assert(s.contains(x) <==> r.contains(x) || x == s.last());
        }
        if p(s.last()) {
            assert forall|i: int, j: int| 0 <= i < j < k.len() implies text_lt(
                #[trigger] k[i],
                #[trigger] k[j],
            ) by {
                if j == kr.len() {
                    assert(kr.to_set().contains(kr[i])) by {
                        assert(kr.contains(kr[i]));
                    }
                    assert(r.contains(kr[i]));
                    let m = choose|m: int| 0 <= m < r.len() && r[m] == kr[i];
                    assert(text_lt(s[m], s[s.len() - 1]));
                } else {
                    assert(text_lt(kr[i], kr[j]));
                }
            }
            assert forall|x: Seq<char>| k.contains(x) <==> kr.contains(x) || x == s.last() by {
                if kr.contains(x) {
                    let m = choose|m: int| 0 <= m < kr.len() && kr[m] == x;
                    assert(k[m] == x);
                }
                assert(k[kr.len() as int] == s.last());
            }
            assert forall|x: Seq<char>| k.to_set().contains(x) <==> s.to_set().filter(p).contains(
                x,
            ) by {
                assert(kr.contains(x) <==> kr.to_set().contains(x));
            }
            assert(k.to_set() =~= s.to_set().filter(p));
        } else {
            assert forall|x: Seq<char>| k.to_set().contains(x) <==> s.to_set().filter(p).contains(
                x,
            ) by {
                assert(kr.to_set().contains(x) <==> r.to_set().filter(p).contains(x));
            }
            assert(k.to_set() =~= s.to_set().filter(p));
        }
    }
    in_order_is(k);
}

impl EngineView {
    /// The topics that a listing shows, in the order of their names.
    pub open spec fn listed(
        self,
        prefix: Option<Seq<char>>,
        allow: Seq<Seq<char>>,
        after: Option<Seq<char>>,
    ) -> Seq<Seq<char>> {
        in_order(
            self.topics.dom().filter(|n: Seq<char>| name_listed(n, prefix, allow, after)),
        )
    }

    /// A topic when it is glanced at in a listing.
    pub open spec fn glance(self, name: Seq<char>, touch: bool, now: i64) -> TopicView {
        let t = self.topics[name].retained(now);
        if touch {
            TopicView { last_consumed: now, ..t }
        } else {
            t
        }
    }

    /// The engine after the topics named were glanced at.
    pub open spec fn glanced(self, names: Set<Seq<char>>, touch: bool, now: i64) -> EngineView {
        EngineView {
            topics: Map::new(
                |n: Seq<char>| self.topics.contains_key(n),
                |n: Seq<char>|
                    if names.contains(n) {
                        self.glance(n, touch, now)
                    } else {
                        self.topics[n]
                    },
            ),
            ..self
        }
    }

    /// The routers that a listing shows, in the order of their names.
    pub open spec fn listed_routers(
        self,
        prefix: Option<Seq<char>>,
        source: Option<Seq<char>>,
        dest: Option<Seq<char>>,
        allow: Seq<Seq<char>>,
        after: Option<Seq<char>>,
    ) -> Seq<Seq<char>> {
        in_order(
            self.routers.routers.dom().filter(
                |n: Seq<char>|
                    router_listed(self.routers.routers[n], prefix, source, dest, allow, after),
            ),
        )
    }
}

/// A router is listed: its name is, and both its ends come under the allow-list
/// and are the ones asked for.
pub open spec fn router_listed(
    r: Router,
    prefix: Option<Seq<char>>,
    source: Option<Seq<char>>,
    dest: Option<Seq<char>>,
    allow: Seq<Seq<char>>,
    after: Option<Seq<char>>,
) -> bool {
    &&& name_listed(r.name@, prefix, allow, after)
    &&& allowed(r.source@, allow)
    &&& allowed(r.dest@, allow)
    &&& source is Some ==> r.source@ == source->0
    &&& dest is Some ==> r.dest@ == dest->0
}

/// The size of a page.
pub open spec fn page_of(page_size: usize) -> int {
    if page_size < 1 {
        1
    } else if page_size > MAX_PAGE_SIZE {
        MAX_PAGE_SIZE as int
    } else {
        page_size as int
    }
}

/// The first page of a list.
pub open spec fn first_page(s: Seq<Seq<char>>, page_size: usize) -> Seq<Seq<char>> {
    if s.len() > page_of(page_size) {
        s.take(page_of(page_size))
    } else {
        s
    }
}

/// A topic as a listing shows it.
pub open spec fn summarises(s: BoxSummary, t: TopicView) -> bool {
    &&& s.box_name@ == t.name
    &&& s.head_seq == t.head
    &&& s.earliest_seq == t.earliest()
    &&& s.count == t.live
    &&& s.bytes == t.bytes
    &&& s.durable == t.config.durable
}

/// A router as a listing shows it.
pub open spec fn router_summarises(s: RouterSummary, v: EngineView, name: Seq<char>) -> bool {
    let r = v.routers.routers[name];
    &&& s.router == r.name
    &&& s.source == r.source
    &&& s.dest == r.dest
    &&& s.forwarded_total == number(v.routers.totals, name)
}

fn clamp_page(page_size: usize) -> (r: usize)
    ensures
        r == page_of(page_size),
{
    if page_size < 1 {
        1
    } else if page_size > MAX_PAGE_SIZE {
        MAX_PAGE_SIZE
    } else {
        page_size
    }
}

impl Engine {
    /// Glances at topics one after the other.
    pub fn glance_at(&mut self, names: &Vec<String>, touch: bool, now: i64) -> (r: Vec<BoxSummary>)
        requires
            old(self).wf(),
            ascending(texts(names@)),
            forall|i: int|
                0 <= i < names@.len() ==> old(self)@.topics.contains_key((#[trigger] names@[i])@),
        ensures
            final(self).wf(),
            final(self)@ == old(self)@.glanced(texts(names@).to_set(), touch, now),
            r@.len() == names@.len(),
            forall|i: int|
                0 <= i < r@.len() ==> summarises(
                    #[trigger] r@[i],
                    old(self)@.glance(texts(names@)[i], touch, now),
                ),
    {
        let ghost v = self@;
        let ghost ns = texts(names@);
        let mut out: Vec<BoxSummary> = Vec::new();
        let mut i: usize = 0;
        proof {
            assert(ns.take(0).to_set() =~= Set::<Seq<char>>::empty());
            assert(self@.topics =~= v.glanced(ns.take(0).to_set(), touch, now).topics);
        }
        while i < names.len()
            invariant
                self.wf(),
                ns == texts(names@),
                ascending(ns),
                i <= names@.len(),
                forall|j: int|
                    0 <= j < names@.len() ==> v.topics.contains_key((#[trigger] names@[j])@),
                self@ == v.glanced(ns.take(i as int).to_set(), touch, now),
                out@.len() == i,
                forall|j: int|
                    0 <= j < i ==> summarises(#[trigger] out@[j], v.glance(ns[j], touch, now)),
            decreases names@.len() - i,
        {
            let ghost u = self@;
            let ghost n = ns[i as int];
            proof {
                assert(n == names@[i as int]@);
                not_earlier(ns, i as int);
                assert(u.topics[n] == v.topics[n]);
            }
            match self.take_topic(names[i].as_str()) {
                Some(t) => {
                    let mut t = t;
                    proof {
                        retention_keeps(t@, now);
                    }
                    let _ = t.enforce_retention(now);
                    if touch {
                        t.last_consumed_ms = now;
                    }
                    out.push(
                        BoxSummary {
                            box_name: names[i].clone(),
                            head_seq: t.head_seq(),
                            earliest_seq: t.earliest_seq(),
                            count: t.count(),
                            bytes: t.bytes(),
                            durable: t.config.durable,
                        },
                    );
                    self.put_topic(t);
                    proof {
                        assert(t@ == v.glance(n, touch, now));
                        take_one_more(ns, i as int);
                        let a = ns.take(i as int).to_set();
                        let b = ns.take(i + 1).to_set();
                        assert forall|x: Seq<char>| b.contains(x) <==> a.contains(x) || x == n by {
                            assert(ns.take(i + 1).contains(x) <==> ns.take(i as int).contains(x)
                                || x == n);
                        }
                        assert(self@.topics =~= v.glanced(b, touch, now).topics);
                    }
                },
                None => {},
            }
            i += 1;
        }
        assert(ns.take(i as int) =~= ns);
        out
    }

    /// The names of the topics that a listing shows.
    fn names_listed(&self, prefix: Option<&str>, allow: &[String], after: Option<&str>) -> (r: Vec<
        String,
    >)
        requires
            self.wf(),
        ensures
            texts(r@) == self@.listed(str_of(prefix), texts(allow@), str_of(after)),
            ascending(texts(r@)),
            forall|i: int|
                0 <= i < r@.len() ==> self@.topics.contains_key((#[trigger] r@[i])@),
    {
        let ghost p = |n: Seq<char>|
            name_listed(n, str_of(prefix), texts(allow@), str_of(after));
        let names = self.topics.names();
        let ghost ks = texts(names@);
        let mut out: Vec<String> = Vec::new();
        let mut i: usize = 0;
        proof {
            assert(self@.topics.dom() =~= self.topics@.dom());
            assert(ks.take(0) =~= Seq::<Seq<char>>::empty());
            assert(texts(out@) =~= keep_names(ks.take(0), p));
        }
        while i < names.len()
            invariant
                self.wf(),
                p == (|n: Seq<char>|
                    name_listed(n, str_of(prefix), texts(allow@), str_of(after))),
                ks == texts(names@),
                forall|k: int|
                    0 <= k < names@.len() ==> self.topics@.contains_key((#[trigger] names@[k])@),
                i <= names@.len(),
                texts(out@) == keep_names(ks.take(i as int), p),
                forall|j: int|
                    0 <= j < out@.len() ==> self.topics@.contains_key((#[trigger] out@[j])@),
            decreases names@.len() - i,
        {
            let ghost o = texts(out@);
            proof {
                assert(ks.take(i + 1).drop_last() =~= ks.take(i as int));
                assert(ks.take(i + 1).last() == names@[i as int]@);
            }
            if lists_name(names[i].as_str(), prefix, allow, after) {
                out.push(names[i].clone());
                assert(texts(out@) =~= o.push(names@[i as int]@));
            }
            i += 1;
        }
        proof {
            assert(ks.take(i as int) =~= ks);
            keep_names_sorted(ks, p);
            assert(ks.to_set().filter(p) =~= self@.topics.dom().filter(p));
        }
        out
    }

    /// A page of the topics after a name, and the name to go on from where there
    /// are more.
    pub fn list_boxes_after(
        &mut self,
        prefix: Option<&str>,
        page_size: usize,
        after: Option<&str>,
        touch: bool,
        allow_prefixes: &[String],
        now: i64,
    ) -> (r: (Vec<BoxSummary>, Option<String>))
        requires
            old(self).wf(),
        ensures
            final(self).wf(),
            ({
                let all = old(self)@.listed(
                    str_of(prefix),
                    texts(allow_prefixes@),
                    str_of(after),
                );
                let page = first_page(all, page_size);
                &&& final(self)@ == old(self)@.glanced(page.to_set(), touch, now)
                &&& r.0@.len() == page.len()
                &&& forall|i: int|
                    0 <= i < r.0@.len() ==> summarises(
                        #[trigger] r.0@[i],
                        old(self)@.glance(page[i], touch, now),
                    )
                &&& text_of(r.1) == (if all.len() > page_of(page_size) {
                    Some(page.last())
                } else {
                    None
                })
            }),
    {
        let page: usize = clamp_page(page_size);
        let mut names = self.names_listed(prefix, allow_prefixes, after);
        let ghost all = texts(names@);
        let more = names.len() > page;
        if more {
            let ghost before = names@;
            names.truncate(page);
            proof {
                assert(texts(names@) =~= all.take(page as int));
                assert forall|i: int, j: int| 0 <= i < j < names@.len() implies text_lt(
                    #[trigger] texts(names@)[i],
                    #[trigger] texts(names@)[j],
                ) by {
                    assert(text_lt(all[i], all[j]));
                }
                assert forall|i: int| 0 <= i < names@.len() implies self@.topics.contains_key(
                    (#[trigger] names@[i])@,
                ) by {
                    assert(names@[i] == before[i]);
                }
            }
        }
        let last = if more {
            Some(names[names.len() - 1].clone())
        } else {
            None
        };
        let boxes = self.glance_at(&names, touch, now);
        (boxes, last)
    }

    /// A page of the topics from a token on. A malformed token is refused.
    pub fn list_boxes(
        &mut self,
        prefix: Option<&str>,
        page_size: usize,
        cursor: Option<&str>,
        touch: bool,
        allow_prefixes: &[String],
        now: i64,
    ) -> (r: Result<BoxListResponse, Error>)
        requires
            old(self).wf(),
        ensures
            final(self).wf(),
            ({
                let start = start_after(cursor);
                let all = old(self)@.listed(
                    str_of(prefix),
                    texts(allow_prefixes@),
                    start->0,
                );
                let page = first_page(all, page_size);
                if start is None {
                    &&& r is Err
                    &&& r->Err_0.code == ErrorCode::InvalidRequest
                    &&& r->Err_0.detail is Plain
                    &&& final(self)@ == old(self)@
                } else {
                    &&& r is Ok
                    &&& final(self)@ == old(self)@.glanced(page.to_set(), touch, now)
                    &&& r->Ok_0.boxes@.len() == page.len()
                    &&& forall|i: int|
                        0 <= i < page.len() ==> summarises(
                            #[trigger] r->Ok_0.boxes@[i],
                            old(self)@.glance(page[i], touch, now),
                        )
                    &&& text_of(r->Ok_0.next_cursor) == next_token(all, page_size)
                    &&& r->Ok_0.next_cursor is Some ==> token_name(r->Ok_0.next_cursor->0@) == Some(
                        Some(page.last()),
                    )
                }
            }),
    {
        let after = match decode_cursor(cursor) {
            Ok(a) => a,
            Err(e) => {
                return Err(e);
            },
        };
        let a = match &after {
            Some(s) => Some(s.as_str()),
            None => None,
        };
        let (boxes, last) = self.list_boxes_after(
            prefix,
            page_size,
            a,
            touch,
            allow_prefixes,
            now,
        );
        let next_cursor = match &last {
            Some(n) => encode_cursor(n.as_str()),
            None => None,
        };
        Ok(BoxListResponse { boxes, next_cursor })
    }

    /// A page of the routers after a name, and the name to go on from where there
    /// are more.
    pub fn list_routers_after(
        &self,
        prefix: Option<&str>,
        source: Option<&str>,
        dest: Option<&str>,
        page_size: usize,
        after: Option<&str>,
        allow_prefixes: &[String],
    ) -> (r: (Vec<RouterSummary>, Option<String>))
        requires
            self.wf(),
        ensures
            ({
                let all = self@.listed_routers(
                    str_of(prefix),
                    str_of(source),
                    str_of(dest),
                    texts(allow_prefixes@),
                    str_of(after),
                );
                let page = first_page(all, page_size);
                &&& r.0@.len() == page.len()
                &&& forall|i: int|
                    0 <= i < r.0@.len() ==> router_summarises(#[trigger] r.0@[i], self@, page[i])
                &&& text_of(r.1) == (if all.len() > page_of(page_size) {
                    Some(page.last())
                } else {
                    None
                })
            }),
    {
        let page: usize = clamp_page(page_size);
        let ghost m = self@.routers.routers;
        let ghost p = |n: Seq<char>|
            router_listed(
                m[n],
                str_of(prefix),
                str_of(source),
                str_of(dest),
                texts(allow_prefixes@),
                str_of(after),
            );
        let rs = self.routers.iter();
        let ghost ks = in_order(m.dom());
        proof {
            self.routers.wf_named();
            self.routers.names_sorted();
        }
        let mut out: Vec<RouterSummary> = Vec::new();
        let ghost mut picked: Seq<Seq<char>> = Seq::empty();
        let mut i: usize = 0;
        proof {
            assert(ks.take(0) =~= Seq::<Seq<char>>::empty());
        }
        while i < rs.len()
            invariant
                self.wf(),
                m == self@.routers.routers,
                self@.routers.named(),
                p == (|n: Seq<char>|
                    router_listed(
                        m[n],
                        str_of(prefix),
                        str_of(source),
                        str_of(dest),
                        texts(allow_prefixes@),
                        str_of(after),
                    )),
                ascending(ks),
                ks.to_set() == m.dom(),
                rs@.len() == ks.len(),
                forall|j: int| 0 <= j < rs@.len() ==> *(#[trigger] rs@[j]) == m[ks[j]],
                i <= rs@.len(),
                picked == keep_names(ks.take(i as int), p),
                out@.len() == picked.len(),
                forall|j: int|
                    0 <= j < out@.len() ==> router_summarises(#[trigger] out@[j], self@, picked[j])
                        && m.contains_key(picked[j]),
            decreases rs@.len() - i,
        {
            let r = rs[i];
            proof {
                assert(ks.take(i + 1).drop_last() =~= ks.take(i as int));
                assert(ks.take(i + 1).last() == ks[i as int]);
                assert(ks.contains(ks[i as int]));
                assert(m.dom().contains(ks[i as int]));
                assert(m.contains_key(ks[i as int]));
                assert(*r == m[ks[i as int]]);
            }
            let by_source = match source {
                Some(s) => text_eq(r.source.as_str(), s),
                None => true,
            };
            let by_dest = match dest {
                Some(d) => text_eq(r.dest.as_str(), d),
                None => true,
            };
            if by_source && by_dest && lists_name(r.name.as_str(), prefix, allow_prefixes, after)
                && name_allowed(r.source.as_str(), allow_prefixes) && name_allowed(
                r.dest.as_str(),
                allow_prefixes,
            ) {
                let ghost o0 = out@;
                let ghost p0 = picked;
                out.push(
                    RouterSummary {
                        router: r.name.clone(),
                        source: r.source.clone(),
                        dest: r.dest.clone(),
                        forwarded_total: self.routers.forwarded_total(r.name.as_str()),
                    },
                );
                proof {
                    assert(p(ks[i as int]));
                    picked = picked.push(ks[i as int]);
                    assert(r.name@ == ks[i as int]);
                    assert forall|j: int| 0 <= j < out@.len() implies router_summarises(
                        #[trigger] out@[j],
                        self@,
                        picked[j],
                    ) && m.contains_key(picked[j]) by {
                        if j < o0.len() {
                            assert(out@[j] == o0[j]);
                            assert(picked[j] == p0[j]);
                        }
                    }
                }
            }
            assert(forall|j: int|
                    0 <= j < out@.len() ==> router_summarises(#[trigger] out@[j], self@, picked[j])
                        && m.contains_key(picked[j]));
            i += 1;
        }
        proof {
            assert(ks.take(i as int) =~= ks);
            keep_names_sorted(ks, p);
            assert(picked == self@.listed_routers(
                str_of(prefix),
                str_of(source),
                str_of(dest),
                texts(allow_prefixes@),
                str_of(after),
            ));
        }
        if out.len() > page {
            let last = out[page - 1].router.clone();
            out.truncate(page);
            (out, Some(last))
        } else {
            (out, None)
        }
    }

    /// A page of the routers from a token on. A malformed token is refused.
    pub fn list_routers(
        &self,
        prefix: Option<&str>,
        source: Option<&str>,
        dest: Option<&str>,
        page_size: usize,
        cursor: Option<&str>,
        allow_prefixes: &[String],
    ) -> (r: Result<RouterListResponse, Error>)
        requires
            self.wf(),
        ensures
            ({
                let start = start_after(cursor);
                let all = self@.listed_routers(
                    str_of(prefix),
                    str_of(source),
                    str_of(dest),
                    texts(allow_prefixes@),
                    start->0,
                );
                let page = first_page(all, page_size);
                if start is None {
                    r is Err && r->Err_0.code == ErrorCode::InvalidRequest && r->Err_0.detail is Plain
                } else {
                    &&& r is Ok
                    &&& r->Ok_0.routers@.len() == page.len()
                    &&& forall|i: int|
                        0 <= i < page.len() ==> router_summarises(
                            #[trigger] r->Ok_0.routers@[i],
                            self@,
                            page[i],
                        )
                    &&& text_of(r->Ok_0.next_cursor) == next_token(all, page_size)
                    &&& r->Ok_0.next_cursor is Some ==> token_name(r->Ok_0.next_cursor->0@) == Some(
                        Some(page.last()),
                    )
                }
            }),
    {
        let after = match decode_cursor(cursor) {
            Ok(a) => a,
            Err(e) => {
                return Err(e);
            },
        };
        let a = match &after {
            Some(s) => Some(s.as_str()),
            None => None,
        };
        let (routers, last) = self.list_routers_after(
            prefix,
            source,
            dest,
            page_size,
            a,
            allow_prefixes,
        );
        let next_cursor = match &last {
            Some(n) => encode_cursor(n.as_str()),
            None => None,
        };
        Ok(RouterListResponse { routers, next_cursor })
    }

    /// From where the topics named are watched. A topic that is not there is
    /// refused, or with `lenient` left out.
    pub fn watch_box_states(
        &mut self,
        boxes: &Vec<(String, WatchBoxOptions)>,
        lenient: bool,
        now: i64,
    ) -> (r: Result<Vec<(String, WatchBoxState)>, Error>)
        requires
            old(self).wf(),
            names_of(boxes@).no_duplicates(),
        ensures
            final(self).wf(),
            ({
                let v = old(self)@;
                let missing = exists|i: int|
                    0 <= i < boxes@.len() && !v.topics.contains_key((#[trigger] boxes@[i]).0@);
                if missing && !lenient {
                    &&& r is Err
                    &&& r->Err_0.code == ErrorCode::TopicNotFound
                    &&& r->Err_0.detail is Plain
                    &&& final(self)@ == v
                } else {
                    &&& r is Ok
                    &&& r->Ok_0@ == watch_starts(v, boxes@, now)
                    &&& final(self)@ == v.glanced(names_of(boxes@).to_set(), false, now)
                }
            }),
    {
        let ghost v = self@;
        let ghost ns = names_of(boxes@);
        let mut k: usize = 0;
        while k < boxes.len()
            invariant
                self.wf(),
                self@ == v,
                k <= boxes@.len(),
                forall|j: int|
                    0 <= j < k ==> lenient || v.topics.contains_key((#[trigger] boxes@[j]).0@),
            decreases boxes@.len() - k,
        {
            if !lenient && !self.topics.contains_key(boxes[k].0.as_str()) {
                assert(!v.topics.contains_key(boxes@[k as int].0@));
                return Err(Error::new(ErrorCode::TopicNotFound));
            }
            k += 1;
        }
        let mut out: Vec<(String, WatchBoxState)> = Vec::new();
        let mut i: usize = 0;
        proof {
            assert(boxes@.take(0) =~= Seq::<(String, WatchBoxOptions)>::empty());
            assert(ns.take(0).to_set() =~= Set::<Seq<char>>::empty());
            assert(self@.topics =~= v.glanced(ns.take(0).to_set(), false, now).topics);
            assert(out@ =~= watch_starts(v, boxes@.take(0), now));
        }
        while i < boxes.len()
            invariant
                self.wf(),
                ns == names_of(boxes@),
                ns.no_duplicates(),
                i <= boxes@.len(),
                self@ == v.glanced(ns.take(i as int).to_set(), false, now),
                out@ == watch_starts(v, boxes@.take(i as int), now),
            decreases boxes@.len() - i,
        {
            let b = &boxes[i];
            let ghost n = ns[i as int];
            let ghost u = self@;
            proof {
                assert(n == b.0@);
                assert(boxes@.take(i + 1).drop_last() =~= boxes@.take(i as int));
                assert(boxes@.take(i + 1).last() == *b);
                let h = ns.take(i as int);
                assert(!h.contains(n)) by {
                    if h.contains(n) {
                        let j = choose|j: int| 0 <= j < h.len() && h[j] == n;
                        assert(ns[j] == ns[i as int]);
                    }
                }
                take_one_more(ns, i as int);
                let a = ns.take(i as int).to_set();
                let c = ns.take(i + 1).to_set();
                assert forall|x: Seq<char>| c.contains(x) <==> a.contains(x) || x == n by {
                    assert(ns.take(i + 1).contains(x) <==> ns.take(i as int).contains(x) || x
                        == n);
                }
                assert(!a.contains(n));
                if v.topics.contains_key(n) {
                    assert(u.topics[n] == v.topics[n]);
                }
            }
            match self.take_topic(b.0.as_str()) {
                Some(t) => {
                    let mut t = t;
                    proof {
                        retention_keeps(t@, now);
                    }
                    let _ = t.enforce_retention(now);
                    let head_seq: u64 = t.head_seq();
                    let from_seq: u64 = if b.1.tail {
                        head_seq
                    } else {
                        b.1.from_seq
                    };
                    let earliest_seq: u64 = t.earliest_seq();
                    out.push((b.0.clone(), WatchBoxState { from_seq, head_seq, earliest_seq }));
                    self.put_topic(t);
                    proof {
                        assert(t@ == v.glance(n, false, now));
                        assert(self@.topics =~= v.glanced(
                            ns.take(i + 1).to_set(),
                            false,
                            now,
                        ).topics);
                    }
                },
                None => {
                    proof {
                        assert(self@.topics =~= v.glanced(
                            ns.take(i + 1).to_set(),
                            false,
                            now,
                        ).topics);
                    }
                },
            }
            i += 1;
        }
        proof {
            assert(boxes@.take(i as int) =~= boxes@);
            assert(ns.take(i as int) =~= ns);
        }
        Ok(out)
    }
}

/// From where a topic is watched.
pub open spec fn watched(t: TopicView, o: WatchBoxOptions) -> WatchBoxState {
    WatchBoxState {
        from_seq: if o.tail {
            t.head
        } else {
            o.from_seq
        },
        head_seq: t.head,
        earliest_seq: t.earliest(),
    }
}

/// What a watch on a list of topics starts from: those that are there, in order.
pub open spec fn watch_starts(
    v: EngineView,
    boxes: Seq<(String, WatchBoxOptions)>,
    now: i64,
) -> Seq<(String, WatchBoxState)>
    decreases boxes.len(),
{
    if boxes.len() == 0 {
        Seq::empty()
    } else {
        let b = boxes.last();
        let earlier = watch_starts(v, boxes.drop_last(), now);
        if v.topics.contains_key(b.0@) {
            earlier.push((b.0, watched(v.glance(b.0@, false, now), b.1)))
        } else {
            earlier
        }
    }
}

/// The name after which a listing starts, given a token. Nothing where the token
/// is malformed.
pub open spec fn start_after(cursor: Option<&str>) -> Option<Option<Seq<char>>> {
    match cursor {
        None => Some(None),
        Some(c) => if c@.len() == 0 {
            Some(None)
        } else {
            token_name(c@)
        },
    }
}

/// The token for the next page, where there is one.
pub open spec fn next_token(all: Seq<Seq<char>>, page_size: usize) -> Option<Seq<char>> {
    if all.len() > page_of(page_size) && token_fits(first_page(all, page_size).last()) {
        Some(token(first_page(all, page_size).last()))
    } else {
        None
    }
}

/// The topics that up to `calls` calls show, each of which goes on where the one
/// before left off, one page after the other.
pub open spec fn joined_pages(
    v: EngineView,
    prefix: Option<Seq<char>>,
    page_size: usize,
    after: Option<Seq<char>>,
    touch: bool,
    allow: Seq<Seq<char>>,
    now: i64,
    calls: nat,
) -> Seq<Seq<char>>
    decreases calls,
{
    let all = v.listed(prefix, allow, after);
    let page = first_page(all, page_size);
    if calls == 0 {
        Seq::empty()
    } else if all.len() > page_of(page_size) {
        page + joined_pages(
            v.glanced(page.to_set(), touch, now),
            prefix,
            page_size,
            Some(page.last()),
            touch,
            allow,
            now,
            (calls - 1) as nat,
        )
    } else {
        page
    }
}

/// The pages of a listing, one after the other, show every topic that is asked for
/// once, in the order of the names. No page is larger than asked for.
pub proof fn pages_show_every_topic_once(
    v: EngineView,
    prefix: Option<Seq<char>>,
    page_size: usize,
    after: Option<Seq<char>>,
    touch: bool,
    allow: Seq<Seq<char>>,
    now: i64,
    calls: nat,
)
    requires
        v.ok(),
        calls > 0,
        calls >= v.listed(prefix, allow, after).len(),
    ensures
        ({
            let names = joined_pages(v, prefix, page_size, after, touch, allow, now, calls);
            &&& names == v.listed(prefix, allow, after)
            &&& ascending(names)
            &&& names.no_duplicates()
            &&& forall|n: Seq<char>| #[trigger]
                names.contains(n) <==> v.topics.contains_key(n) && name_listed(
                    n,
                    prefix,
                    allow,
                    after,
                )
        }),
        first_page(v.listed(prefix, allow, after), page_size).len() <= page_of(page_size),
        ({
            let all = v.listed(prefix, allow, after);
            token_fits(first_page(all, page_size).last()) ==> (next_token(all, page_size) is Some
                <==> all.len() > first_page(all, page_size).len())
        }),
{
    let shown = v.topics.dom().filter(|n: Seq<char>| name_listed(n, prefix, allow, after));
    in_order_lists(shown);
    pages_join(v, prefix, page_size, after, touch, allow, now, calls);
    let names = v.listed(prefix, allow, after);
    assert forall|i: int, j: int| 0 <= i < names.len() && 0 <= j < names.len() && i != j implies names[i]
        != names[j] by {
        if names[i] == names[j] {
            ascending_distinct(names, i, j);
        }
    }
}

proof fn pages_join(
    v: EngineView,
    prefix: Option<Seq<char>>,
    page_size: usize,
    after: Option<Seq<char>>,
    touch: bool,
    allow: Seq<Seq<char>>,
    now: i64,
    calls: nat,
)
    requires
        v.topics.dom().finite(),
        calls > 0,
        calls >= v.listed(prefix, allow, after).len(),
    ensures
        joined_pages(v, prefix, page_size, after, touch, allow, now, calls) == v.listed(
            prefix,
            allow,
            after,
        ),
    decreases calls,
{
    let all = v.listed(prefix, allow, after);
    let page = first_page(all, page_size);
    let k = page_of(page_size);
    if all.len() > k {
        let w = v.glanced(page.to_set(), touch, now);
        assert(w.topics.dom() =~= v.topics.dom());
        let shown = v.topics.dom().filter(|n: Seq<char>| name_listed(n, prefix, allow, after));
        let last = Some(page.last());
        let later = w.topics.dom().filter(|n: Seq<char>| name_listed(n, prefix, allow, last));
        in_order_lists(shown);
        assert(all.contains(all[k - 1]));
        assert forall|n: Seq<char>| #[trigger] later.contains(n) <==> shown.contains(n) && text_lt(
            all[k - 1],
            n,
        ) by {
            if later.contains(n) && after is Some {
                text_lt_transitive(after->0, all[k - 1], n);
            }
        }
        order_goes_on(shown, later, k);
        pages_join(w, prefix, page_size, last, touch, allow, now, (calls - 1) as nat);
        assert(page + all.skip(k) =~= all);
    }
}

/// The routers that up to `calls` calls show, each of which goes on where the one
/// before left off, one page after the other.
pub open spec fn joined_router_pages(
    v: EngineView,
    prefix: Option<Seq<char>>,
    source: Option<Seq<char>>,
    dest: Option<Seq<char>>,
    page_size: usize,
    after: Option<Seq<char>>,
    allow: Seq<Seq<char>>,
    calls: nat,
) -> Seq<Seq<char>>
    decreases calls,
{
    let all = v.listed_routers(prefix, source, dest, allow, after);
    let page = first_page(all, page_size);
    if calls == 0 {
        Seq::empty()
    } else if all.len() > page_of(page_size) {
        page + joined_router_pages(
            v,
            prefix,
            source,
            dest,
            page_size,
            Some(page.last()),
            allow,
            (calls - 1) as nat,
        )
    } else {
        page
    }
}

/// The pages of a listing of routers, one after the other, show every router that is
/// asked for once, in the order of the names.
pub proof fn pages_show_every_router_once(
    v: EngineView,
    prefix: Option<Seq<char>>,
    source: Option<Seq<char>>,
    dest: Option<Seq<char>>,
    page_size: usize,
    after: Option<Seq<char>>,
    allow: Seq<Seq<char>>,
    calls: nat,
)
    requires
        v.ok(),
        calls > 0,
        calls >= v.listed_routers(prefix, source, dest, allow, after).len(),
    ensures
        ({
            let names = joined_router_pages(
                v,
                prefix,
                source,
                dest,
                page_size,
                after,
                allow,
                calls,
            );
            &&& names == v.listed_routers(prefix, source, dest, allow, after)
            &&& ascending(names)
            &&& forall|n: Seq<char>| #[trigger]
                names.contains(n) <==> v.routers.routers.contains_key(n) && router_listed(
                    v.routers.routers[n],
                    prefix,
                    source,
                    dest,
                    allow,
                    after,
                )
        }),
    decreases calls,
{
    let all = v.listed_routers(prefix, source, dest, allow, after);
    let page = first_page(all, page_size);
    let k = page_of(page_size);
    let shown = v.routers.routers.dom().filter(
        |n: Seq<char>|
            router_listed(v.routers.routers[n], prefix, source, dest, allow, after),
    );
    in_order_lists(shown);
    if all.len() > k {
        let last = Some(page.last());
        let later = v.routers.routers.dom().filter(
            |n: Seq<char>|
                router_listed(v.routers.routers[n], prefix, source, dest, allow, last),
        );
        assert(all.contains(all[k - 1]));
        assert forall|n: Seq<char>| #[trigger] later.contains(n) <==> shown.contains(n) && text_lt(
            all[k - 1],
            n,
        ) by {
            if v.routers.routers.contains_key(n) {
                assert(v.routers.routers[n].name@ == n);
            }
            assert(v.routers.routers.contains_key(all[k - 1]));
            if later.contains(n) && after is Some {
                text_lt_transitive(after->0, all[k - 1], n);
            }
        }
        order_goes_on(shown, later, k);
        pages_show_every_router_once(
            v,
            prefix,
            source,
            dest,
            page_size,
            last,
            allow,
            (calls - 1) as nat,
        );
        assert(page + all.skip(k) =~= all);
    }
}

} // verus!
