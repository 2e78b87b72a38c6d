//! The routers between topics, and the graph they form.
use crate::config::{is_valid_name, valid_name};
use crate::names::{in_order, in_order_is, in_order_lists, names_of, not_earlier, take_one_more,
    NameMap};
use crate::text::{ascending, insert_name, text_eq, texts};
use crate::types::{Error, ErrorCode, ErrorDetail, Router};
use vstd::prelude::*;
use vstd::string::StringExecFns;

verus! {

/// The routers by name, and per router how far it has read, how much it has
/// forwarded, and where its run in the destination starts.
pub ghost struct RouterView {
    pub routers: Map<Seq<char>, Router>,
    pub cursors: Map<Seq<char>, u64>,
    pub totals: Map<Seq<char>, u64>,
    pub bases: Map<Seq<char>, u64>,
}

/// The number for a name, `0` where there is none.
pub open spec fn number(m: Map<Seq<char>, u64>, name: Seq<char>) -> u64 {
    if m.contains_key(name) {
        m[name]
    } else {
        0
    }
}

/// A router other than `skip` leads from `u` to `v`.
pub open spec fn edge(
    routers: Map<Seq<char>, Router>,
    skip: Option<Seq<char>>,
    u: Seq<char>,
    v: Seq<char>,
) -> bool {
    exists|n: Seq<char>| #[trigger]
        routers.contains_key(n) && skip != Some(n) && routers[n].source@ == u && routers[n].dest@
            == v
}

/// The relation that the routers other than `skip` form.
pub open spec fn edges(
    routers: Map<Seq<char>, Router>,
    skip: Option<Seq<char>>,
) -> spec_fn(Seq<char>, Seq<char>) -> bool {
    |u: Seq<char>, v: Seq<char>| edge(routers, skip, u, v)
}

/// A path: each place leads to the next.
pub open spec fn path_in(
    e: spec_fn(Seq<char>, Seq<char>) -> bool,
    p: Seq<Seq<char>>,
) -> bool {
    &&& p.len() > 0
    &&& forall|i: int| 0 <= i < p.len() - 1 ==> e(#[trigger] p[i], p[i + 1])
}

/// A path leads from `u` to `v`.
pub open spec fn leads(
    e: spec_fn(Seq<char>, Seq<char>) -> bool,
    u: Seq<char>,
    v: Seq<char>,
) -> bool {
    exists|p: Seq<Seq<char>>| #[trigger] path_in(e, p) && p[0] == u && p.last() == v
}

/// No path leads back to where it started.
pub open spec fn acyclic(e: spec_fn(Seq<char>, Seq<char>) -> bool) -> bool {
    forall|u: Seq<char>, v: Seq<char>| #[trigger] e(u, v) ==> !leads(e, v, u)
}

/// A new router from `source` to `dest` would close a cycle.
pub open spec fn closes_cycle(
    routers: Map<Seq<char>, Router>,
    skip: Option<Seq<char>>,
    source: Seq<char>,
    dest: Seq<char>,
) -> bool {
    source == dest || leads(edges(routers, skip), dest, source)
}

/// A path that a new router from `source` to `dest` would close into a cycle.
pub open spec fn is_cycle(
    routers: Map<Seq<char>, Router>,
    skip: Option<Seq<char>>,
    source: Seq<char>,
    dest: Seq<char>,
    p: Seq<Seq<char>>,
) -> bool {
    &&& p.len() >= 2
    &&& p[0] == source
    &&& p[1] == dest
    &&& p.last() == source
    &&& path_in(edges(routers, skip), p.skip(1))
}

/// The names of the routers with an end at a topic.
pub open spec fn touching(routers: Map<Seq<char>, Router>, topic: Seq<char>) -> Set<Seq<char>> {
    routers.dom().filter(|n: Seq<char>| routers[n].source@ == topic || routers[n].dest@ == topic)
}

/// The names of the routers that read from a topic.
pub open spec fn reading(routers: Map<Seq<char>, Router>, topic: Seq<char>) -> Set<Seq<char>> {
    routers.dom().filter(|n: Seq<char>| routers[n].source@ == topic)
}

/// Another router than the one named reads from another source into `dest`.
pub open spec fn fans_in(
    routers: Map<Seq<char>, Router>,
    name: Seq<char>,
    source: Seq<char>,
    dest: Seq<char>,
) -> bool {
    exists|n: Seq<char>|
        n != name && #[trigger] routers.contains_key(n) && routers[n].dest@ == dest
            && routers[n].source@ != source
}

/// No topic is the destination of routers with different sources.
pub open spec fn single_source(routers: Map<Seq<char>, Router>) -> bool {
    forall|m: Seq<char>, n: Seq<char>| #[trigger]
        routers.contains_key(m) && #[trigger] routers.contains_key(n) && routers[m].dest@
            == routers[n].dest@ ==> routers[m].source@ == routers[n].source@
}

impl RouterView {
    /// Whether a router can be taken in: it may form cycles, or closes none.
    pub open spec fn accepts(self, r: Router) -> bool {
        r.allow_cycle || !closes_cycle(self.routers, Some(r.name@), r.source@, r.dest@)
    }

    /// The routers with `r` taken in. What is known of an earlier router of that
    /// name stays.
    pub open spec fn upserted(self, r: Router) -> RouterView {
        RouterView {
            routers: self.routers.insert(r.name@, r),
            cursors: self.cursors.insert(r.name@, number(self.cursors, r.name@)),
            totals: self.totals.insert(r.name@, number(self.totals, r.name@)),
            bases: self.bases.insert(r.name@, number(self.bases, r.name@)),
        }
    }

    /// The routers without those named.
    pub open spec fn without(self, names: Set<Seq<char>>) -> RouterView {
        RouterView {
            routers: self.routers.remove_keys(names),
            cursors: self.cursors.remove_keys(names),
            totals: self.totals.remove_keys(names),
            bases: self.bases.remove_keys(names),
        }
    }

    /// A router has read up to `src_head` and forwarded `count` more records.
    pub open spec fn noted(self, name: Seq<char>, src_head: u64, count: u64) -> RouterView {
        RouterView {
            cursors: self.cursors.insert(name, src_head),
            totals: self.totals.insert(name, (number(self.totals, name) + count) as u64),
            ..self
        }
    }

    /// A router with its cursor, total and base.
    pub open spec fn entry(self, name: Seq<char>) -> (Router, u64, u64, u64) {
        (
            self.routers[name],
            number(self.cursors, name),
            number(self.totals, name),
            number(self.bases, name),
        )
    }

    /// The routers with their cursor, total and base, in ascending order of their
    /// names.
    pub open spec fn snapshot(self) -> Seq<(Router, u64, u64, u64)> {
        in_order(self.routers.dom()).map_values(|n: Seq<char>| self.entry(n))
    }

    /// The routers with one taken in as it was.
    pub open spec fn restored(self, e: (Router, u64, u64, u64)) -> RouterView {
        RouterView {
            routers: self.routers.insert(e.0.name@, e.0),
            cursors: self.cursors.insert(e.0.name@, e.1),
            totals: self.totals.insert(e.0.name@, e.2),
            bases: self.bases.insert(e.0.name@, e.3),
        }
    }

    /// The routers with some taken in as they were, one after the other.
    pub open spec fn restored_all(self, s: Seq<(Router, u64, u64, u64)>) -> RouterView
        decreases s.len(),
    {
        if s.len() == 0 {
            self
        } else {
            self.restored_all(s.drop_last()).restored(s.last())
        }
    }

    /// Each router stands under its own name.
    pub open spec fn named(self) -> bool {
        forall|n: Seq<char>| #[trigger]
            self.routers.contains_key(n) ==> self.routers[n].name@ == n
    }
}

/// A path goes on with another edge.
pub proof fn path_extends(
    e: spec_fn(Seq<char>, Seq<char>) -> bool,
    u: Seq<char>,
    v: Seq<char>,
    w: Seq<char>,
)
    requires
        leads(e, u, v),
        e(v, w),
    ensures
        leads(e, u, w),
{
    let p = choose|p: Seq<Seq<char>>| #[trigger] path_in(e, p) && p[0] == u && p.last() == v;
    let q = p.push(w);
    assert forall|i: int| 0 <= i < q.len() - 1 implies e(#[trigger] q[i], q[i + 1]) by {
        if i < p.len() - 1 {
            assert(e(p[i], p[i + 1]));
        }
    }
    assert(path_in(e, q) && q[0] == u && q.last() == w);
}

/// A path can be entered by an edge.
pub proof fn path_enters(
    e: spec_fn(Seq<char>, Seq<char>) -> bool,
    u: Seq<char>,
    v: Seq<char>,
    w: Seq<char>,
)
    requires
        e(u, v),
        leads(e, v, w),
    ensures
        leads(e, u, w),
{
    let p = choose|p: Seq<Seq<char>>| #[trigger] path_in(e, p) && p[0] == v && p.last() == w;
    let q = seq![u] + p;
    assert forall|i: int| 0 <= i < q.len() - 1 implies e(#[trigger] q[i], q[i + 1]) by {
        if i > 0 {
            assert(e(p[i - 1], p[i]));
        }
    }
    assert(path_in(e, q) && q[0] == u && q.last() == w);
}

/// Two paths join.
pub proof fn paths_join(
    e: spec_fn(Seq<char>, Seq<char>) -> bool,
    u: Seq<char>,
    v: Seq<char>,
    w: Seq<char>,
)
    requires
        leads(e, u, v),
        leads(e, v, w),
    ensures
        leads(e, u, w),
{
    let p = choose|p: Seq<Seq<char>>| #[trigger] path_in(e, p) && p[0] == u && p.last() == v;
    let q = choose|q: Seq<Seq<char>>| #[trigger] path_in(e, q) && q[0] == v && q.last() == w;
    let r = p.drop_last() + q;
    assert forall|i: int| 0 <= i < r.len() - 1 implies e(#[trigger] r[i], r[i + 1]) by {
        if i < p.len() - 2 {
            assert(e(p[i], p[i + 1]));
        } else if i == p.len() - 2 {
            assert(e(p[i], p[i + 1]));
        } else {
            let j = i - (p.len() - 1);
            assert(e(q[j], q[j + 1]));
        }
    }
    assert(path_in(e, r) && r[0] == u && r.last() == w);
}

/// Every place leads to itself.
pub proof fn leads_to_itself(e: spec_fn(Seq<char>, Seq<char>) -> bool, u: Seq<char>)
    ensures
        leads(e, u, u),
{
    let p = seq![u];
    assert(path_in(e, p) && p[0] == u && p.last() == u);
}

/// A set of places that no edge leaves, and that holds `u`, holds all that `u`
/// leads to.
pub proof fn closed_set_holds_path(
    e: spec_fn(Seq<char>, Seq<char>) -> bool,
    s: Set<Seq<char>>,
    p: Seq<Seq<char>>,
    i: int,
)
    requires
        path_in(e, p),
        s.contains(p[0]),
        forall|u: Seq<char>, v: Seq<char>| s.contains(u) && #[trigger] e(u, v) ==> s.contains(v),
        0 <= i < p.len(),
    ensures
        s.contains(p[i]),
    decreases i,
{
    if i > 0 {
        closed_set_holds_path(e, s, p, i - 1);
        assert(e(p[i - 1], p[i - 1 + 1]));
    }
}

/// With one more edge from `a` to `b`, a path either needs it not, or comes to `a`
/// and leaves from `b` without it.
pub proof fn path_with_one_more_edge(
    e: spec_fn(Seq<char>, Seq<char>) -> bool,
    f: spec_fn(Seq<char>, Seq<char>) -> bool,
    a: Seq<char>,
    b: Seq<char>,
    p: Seq<Seq<char>>,
)
    requires
        forall|u: Seq<char>, v: Seq<char>| #[trigger] f(u, v) ==> e(u, v) || (u == a && v == b),
        path_in(f, p),
    ensures
        leads(e, p[0], p.last()) || (leads(e, p[0], a) && leads(e, b, p.last())),
    decreases p.len(),
{
    if p.len() == 1 {
        leads_to_itself(e, p[0]);
    } else {
        let q = p.drop_last();
        assert forall|i: int| 0 <= i < q.len() - 1 implies f(#[trigger] q[i], q[i + 1]) by {
            assert(f(p[i], p[i + 1]));
        }
        path_with_one_more_edge(e, f, a, b, q);
        let z = q.last();
        let y = p.last();
        assert(f(p[p.len() - 2], p[p.len() - 2 + 1]));
        leads_to_itself(e, b);
        if leads(e, p[0], z) {
            if e(z, y) {
                path_extends(e, p[0], z, y);
            }
        } else {
            if e(z, y) {
                path_extends(e, b, z, y);
            }
        }
    }
}

/// As long as no router that closes a cycle is taken in, there is none: from a
/// graph without cycles, a router that does not ask for cycles and is accepted
/// leads to a graph without cycles.
pub proof fn accepted_router_keeps_acyclic(g: RouterView, r: Router)
    requires
        acyclic(edges(g.routers, None)),
        !r.allow_cycle,
        g.accepts(r),
    ensures
        acyclic(edges(g.upserted(r).routers, None)),
{
    let all = edges(g.routers, None);
    let e = edges(g.routers, Some(r.name@));
    let f = edges(g.upserted(r).routers, None);
    let a = r.source@;
    let b = r.dest@;
    assert forall|u: Seq<char>, v: Seq<char>| #[trigger] f(u, v) implies e(u, v) || (u == a && v
        == b) by {
        let m = g.upserted(r).routers;
        let n = choose|n: Seq<char>| #[trigger]
            m.contains_key(n) && m[n].source@ == u && m[n].dest@ == v;
        if n != r.name@ {
            assert(g.routers.contains_key(n));
        }
    }
    assert forall|u: Seq<char>, v: Seq<char>| #[trigger] e(u, v) implies all(u, v) by {}
    assert forall|u: Seq<char>, v: Seq<char>| leads(e, u, v) implies leads(all, u, v) by {
        let p = choose|p: Seq<Seq<char>>| #[trigger] path_in(e, p) && p[0] == u && p.last() == v;
        assert(path_in(all, p));
    }
    assert(!leads(e, b, a));
    assert forall|u: Seq<char>, v: Seq<char>| #[trigger] f(u, v) implies !leads(f, v, u) by {
        if leads(f, v, u) {
            let p = choose|p: Seq<Seq<char>>| #[trigger]
                path_in(f, p) && p[0] == v && p.last() == u;
            path_with_one_more_edge(e, f, a, b, p);
            if e(u, v) {
                assert(all(u, v));
                if leads(e, v, u) {
                    assert(leads(all, v, u));
                } else {
                    path_enters(e, u, v, a);
                    paths_join(e, b, u, a);
                }
            } else {
                assert(leads(e, b, a));
            }
        }
    }
}

/// Without routers there is no cycle.
pub proof fn no_routers_no_cycle(g: RouterView)
    requires
        g.routers == Map::<Seq<char>, Router>::empty(),
    ensures
        acyclic(edges(g.routers, None)),
{
}

/// Taking routers away closes no cycle.
pub proof fn removal_keeps_acyclic(g: RouterView, names: Set<Seq<char>>)
    requires
        acyclic(edges(g.routers, None)),
    ensures
        acyclic(edges(g.without(names).routers, None)),
{
    let e = edges(g.routers, None);
    let f = edges(g.without(names).routers, None);
    assert forall|u: Seq<char>, v: Seq<char>| #[trigger] f(u, v) implies e(u, v) by {
        let m = g.without(names).routers;
        let n = choose|n: Seq<char>| #[trigger]
            m.contains_key(n) && m[n].source@ == u && m[n].dest@ == v;
        assert(g.routers.contains_key(n));
    }
    assert forall|u: Seq<char>, v: Seq<char>| #[trigger] f(u, v) implies !leads(f, v, u) by {
        if leads(f, v, u) {
            let p = choose|p: Seq<Seq<char>>| #[trigger]
                path_in(f, p) && p[0] == v && p.last() == u;
            assert(path_in(e, p));
            assert(e(u, v));
        }
    }
}

fn contains_text(v: &Vec<String>, s: &str) -> (r: bool)
    ensures
        r == texts(v@).contains(s@),
{
    let mut i: usize = 0;
    while i < v.len()
        invariant
            i <= v@.len(),
            forall|j: int| 0 <= j < i ==> (#[trigger] v@[j])@ != s@,
        decreases v@.len() - i,
    {
        if text_eq(v[i].as_str(), s) {
            assert(texts(v@)[i as int] == s@);
            return true;
        }
        i += 1;
    }
    proof {
        if texts(v@).contains(s@) {
            let j = choose|j: int| 0 <= j < texts(v@).len() && texts(v@)[j] == s@;
            assert(v@[j]@ == s@);
        }
    }
    false
}

/// The routers between topics.
#[derive(Debug)]
pub struct RouterGraph {
    routers: NameMap<Router>,
    cursors: NameMap<u64>,
    totals: NameMap<u64>,
    bases: NameMap<u64>,
}

impl View for RouterGraph {
    type V = RouterView;

    closed spec fn view(&self) -> RouterView {
        RouterView {
            routers: self.routers@,
            cursors: self.cursors@,
            totals: self.totals@,
            bases: self.bases@,
        }
    }
}

impl RouterGraph {
    /// The maps are well-formed, and each router stands under its own name.
    pub closed spec fn wf(&self) -> bool {
        &&& self.routers.wf()
        &&& self.cursors.wf()
        &&& self.totals.wf()
        &&& self.bases.wf()
        &&& self@.named()
    }

    /// Each router of a well-formed graph stands under its own name, and there
    /// are finitely many.
    pub proof fn wf_named(&self)
        requires
            self.wf(),
        ensures
            self@.named(),
            self@.routers.dom().finite(),
    {
        self.routers.keys_are_domain();
    }

    /// The names of the routers can be put in order.
    pub proof fn names_sorted(&self)
        requires
            self.wf(),
        ensures
            ascending(in_order(self@.routers.dom())),
            in_order(self@.routers.dom()).to_set() == self@.routers.dom(),
    {
        self.routers.keys_are_domain();
        in_order_is(names_of(self.routers.pairs()));
    }

    /// No routers.
    pub fn new() -> (r: RouterGraph)
        ensures
            r.wf(),
            r@ == no_routers(),
    {
        RouterGraph {
            routers: NameMap::new(),
            cursors: NameMap::new(),
            totals: NameMap::new(),
            bases: NameMap::new(),
        }
    }

    /// The router of a name.
    pub fn get(&self, name: &str) -> (r: Option<&Router>)
        requires
            self.wf(),
        ensures
            match r {
                Some(x) => self@.routers.contains_key(name@) && *x == self@.routers[name@],
                None => !self@.routers.contains_key(name@),
            },
    {
        self.routers.get(name)
    }

    /// How many routers there are.
    pub fn len(&self) -> (r: usize)
        requires
            self.wf(),
        ensures
            r == self@.routers.dom().len(),
    {
        proof {
            self.routers.keys_are_domain();
        }
        self.routers.len()
    }

    /// Whether there are no routers.
    pub fn is_empty(&self) -> (r: bool)
        requires
            self.wf(),
        ensures
            r == (self@.routers.dom().len() == 0),
    {
        self.len() == 0
    }

    /// How many records a router has forwarded.
    pub fn forwarded_total(&self, name: &str) -> (r: u64)
        requires
            self.wf(),
        ensures
            r == number(self@.totals, name@),
    {
        match self.totals.get(name) {
            Some(n) => *n,
            None => 0,
        }
    }

    /// How far a router has read its source.
    pub fn cursor(&self, name: &str) -> (r: u64)
        requires
            self.wf(),
        ensures
            r == number(self@.cursors, name@),
    {
        match self.cursors.get(name) {
            Some(n) => *n,
            None => 0,
        }
    }

    /// Where a router's run in its destination starts.
    pub fn dest_base(&self, name: &str) -> (r: u64)
        requires
            self.wf(),
        ensures
            r == number(self@.bases, name@),
    {
        match self.bases.get(name) {
            Some(n) => *n,
            None => 0,
        }
    }

    /// The routers in ascending order of their names.
    pub fn iter(&self) -> (r: Vec<&Router>)
        requires
            self.wf(),
        ensures
            r@.len() == in_order(self@.routers.dom()).len(),
            forall|i: int|
                0 <= i < r@.len() ==> *(#[trigger] r@[i])
                    == self@.routers[in_order(self@.routers.dom())[i]],
    {
        let mut out: Vec<&Router> = Vec::new();
        let mut i: usize = 0;
        let ghost ks = names_of(self.routers.pairs());
        while i < self.routers.len()
            invariant
                self.wf(),
                ks == names_of(self.routers.pairs()),
                i <= self.routers.pairs().len(),
                out@.len() == i,
                forall|j: int|
                    0 <= j < i ==> *(#[trigger] out@[j]) == self@.routers[ks[j]],
            decreases self.routers.pairs().len() - i,
        {
            proof {
                self.routers.pair_in_map(i as int);
            }
            out.push(&self.routers.at(i).1);
            i += 1;
        }
        proof {
            self.routers.keys_are_domain();
            in_order_is(ks);
        }
        out
    }

    /// Takes a router in, and says whether it is new. One that would close a
    /// cycle, and does not ask for it, is refused with the cycle.
    pub fn upsert(&mut self, router: Router) -> (r: Result<bool, Error>)
        requires
            old(self).wf(),
        ensures
            final(self).wf(),
            match r {
                Ok(created) => {
                    &&& old(self)@.accepts(router)
                    &&& created == !old(self)@.routers.contains_key(router.name@)
                    &&& final(self)@ == old(self)@.upserted(router)
                },
                Err(e) => {
                    &&& !old(self)@.accepts(router)
                    &&& *final(self) == *old(self)
                    &&& e.code == ErrorCode::RouterCycle
                    &&& e.detail is Cycle
                    &&& is_cycle(
                        old(self)@.routers,
                        Some(router.name@),
                        router.source@,
                        router.dest@,
                        texts(e.detail->Cycle_0@),
                    )
                },
            },
    {
        match self.refusal(&router, 0) {
            Some(e) => Err(e),
            None => Ok(self.place(router)),
        }
    }

    /// What a router is refused for under a limit on the number of routers (`0` for
    /// none).
    pub(crate) fn refusal(&self, router: &Router, max_routers: u64) -> (r: Option<Error>)
        requires
            self.wf(),
        ensures
            ({
                let full = !self@.routers.contains_key(router.name@) && max_routers != 0
                    && self@.routers.dom().len() >= max_routers;
                match r {
                    None => !full && self@.accepts(*router),
                    Some(e) => {
                        &&& full ==> e.code == ErrorCode::Throttled && e.detail
                            == ErrorDetail::Limit(max_routers)
                        &&& !full ==> {
                            &&& !self@.accepts(*router)
                            &&& e.code == ErrorCode::RouterCycle
                            &&& e.detail is Cycle
                            &&& is_cycle(
                                self@.routers,
                                Some(router.name@),
                                router.source@,
                                router.dest@,
                                texts(e.detail->Cycle_0@),
                            )
                        }
                    },
                }
            }),
    {
        let is_new = !self.routers.contains_key(router.name.as_str());
        if is_new && max_routers != 0 && self.len() as u64 >= max_routers {
            return Some(
                Error::with_detail(ErrorCode::Throttled, ErrorDetail::Limit(max_routers)),
            );
        }
        if router.allow_cycle {
            return None;
        }
        let c = self.would_create_cycle_excluding(
            router.source.as_str(),
            router.dest.as_str(),
            Some(router.name.as_str()),
        );
        match c {
            Some(cycle) => Some(
                Error::with_detail(ErrorCode::RouterCycle, ErrorDetail::Cycle(cycle)),
            ),
            None => None,
        }
    }

    /// Puts a router in its place, and says whether it is new.
    pub(crate) fn place(&mut self, router: Router) -> (r: bool)
        requires
            old(self).wf(),
        ensures
            final(self).wf(),
            r == !old(self)@.routers.contains_key(router.name@),
            final(self)@ == old(self)@.upserted(router),
    {
        let created = !self.routers.contains_key(router.name.as_str());
        let cursor: u64 = self.cursor(router.name.as_str());
        let total: u64 = self.forwarded_total(router.name.as_str());
        let base: u64 = self.dest_base(router.name.as_str());
        self.cursors.insert(router.name.clone(), cursor);
        self.totals.insert(router.name.clone(), total);
        self.bases.insert(router.name.clone(), base);
        let name = router.name.clone();
        self.routers.insert(name, router);
        created
    }

    /// As [`upsert`](Self::upsert), with a limit on the number of routers (`0` for
    /// none). A new router beyond it is refused.
    pub fn upsert_capped(&mut self, router: Router, max_routers: u64) -> (r: Result<bool, Error>)
        requires
            old(self).wf(),
        ensures
            final(self).wf(),
            ({
                let new = !old(self)@.routers.contains_key(router.name@);
                let full = new && max_routers != 0 && old(self)@.routers.dom().len()
                    >= max_routers;
                match r {
                    Ok(created) => {
                        &&& !full
                        &&& old(self)@.accepts(router)
                        &&& created == new
                        &&& final(self)@ == old(self)@.upserted(router)
                    },
                    Err(e) => {
                        &&& *final(self) == *old(self)
                        &&& full ==> e.code == ErrorCode::Throttled && e.detail
                            == ErrorDetail::Limit(max_routers)
                        &&& !full ==> {
                            &&& !old(self)@.accepts(router)
                            &&& e.code == ErrorCode::RouterCycle
                            &&& e.detail is Cycle
                            &&& is_cycle(
                                old(self)@.routers,
                                Some(router.name@),
                                router.source@,
                                router.dest@,
                                texts(e.detail->Cycle_0@),
                            )
                        }
                    },
                }
            }),
    {
        match self.refusal(&router, max_routers) {
            Some(e) => Err(e),
            None => Ok(self.place(router)),
        }
    }

    /// Takes a router out, and says whether it was there.
    pub fn remove(&mut self, name: &str) -> (r: bool)
        requires
            old(self).wf(),
        ensures
            final(self).wf(),
            r == old(self)@.routers.contains_key(name@),
            final(self)@ == old(self)@.without(set![name@]),
    {
        let existed = self.routers.remove(name).is_some();
        let _ = self.cursors.remove(name);
        let _ = self.totals.remove(name);
        let _ = self.bases.remove(name);
        proof {
            let o = old(self)@.without(set![name@]);
            assert(self@.routers =~= o.routers);
            assert(self@.cursors =~= o.cursors);
            assert(self@.totals =~= o.totals);
            assert(self@.bases =~= o.bases);
        }
        existed
    }

    /// The names of the routers with an end at a topic, ascending.
    pub fn routers_touching_topic(&self, topic_name: &str) -> (r: Vec<String>)
        requires
            self.wf(),
        ensures
            texts(r@) == in_order(touching(self@.routers, topic_name@)),
            ascending(texts(r@)),
            texts(r@).to_set() == touching(self@.routers, topic_name@),
    {
        let mut names: Vec<String> = Vec::new();
        let mut i: usize = 0;
        let ghost ks = names_of(self.routers.pairs());
        let ghost want = touching(self@.routers, topic_name@);
        proof {
            self.routers.keys_are_domain();
        }
        while i < self.routers.len()
            invariant
                self.wf(),
                ks == names_of(self.routers.pairs()),
                ascending(ks),
                want == touching(self@.routers, topic_name@),
                i <= self.routers.pairs().len(),
                ascending(texts(names@)),
                forall|x: Seq<char>| #[trigger]
                    texts(names@).contains(x) <==> want.contains(x) && ks.take(
                        i as int,
                    ).contains(x),
            decreases self.routers.pairs().len() - i,
        {
            let p = self.routers.at(i);
            proof {
                self.routers.pair_in_map(i as int);
                assert(ks[i as int] == p.0@);
                take_one_more(ks, i as int);
                not_earlier(ks, i as int);
            }
            if text_eq(p.1.source.as_str(), topic_name) || text_eq(p.1.dest.as_str(), topic_name) {
                insert_name(&mut names, p.0.clone());
            }
            i += 1;
        }
        proof {
            assert(ks.take(i as int) =~= ks);
            assert(texts(names@).to_set() =~= want) by {
                assert forall|x: Seq<char>| texts(names@).contains(x) <==> want.contains(x) by {
                    if want.contains(x) {
                        assert(ks.to_set().contains(x));
                    }
                }
            }
            in_order_is(texts(names@));
        }
        names
    }

    /// Takes out the routers with an end at a topic, and names them, ascending.
    pub fn remove_touching_topic(&mut self, topic_name: &str) -> (r: Vec<String>)
        requires
            old(self).wf(),
        ensures
            final(self).wf(),
            texts(r@) == in_order(touching(old(self)@.routers, topic_name@)),
            final(self)@ == old(self)@.without(touching(old(self)@.routers, topic_name@)),
    {
        let removed = self.routers_touching_topic(topic_name);
        let mut i: usize = 0;
        let ghost t = texts(removed@);
        proof {
            let o = self@.without(t.take(0).to_set());
            assert(t.take(0).to_set() =~= Set::<Seq<char>>::empty());
            assert(self@.routers =~= o.routers);
            assert(self@.cursors =~= o.cursors);
            assert(self@.totals =~= o.totals);
            assert(self@.bases =~= o.bases);
        }
        while i < removed.len()
            invariant
                self.wf(),
                t == texts(removed@),
                i <= removed@.len(),
                self@ == old(self)@.without(t.take(i as int).to_set()),
            decreases removed@.len() - i,
        {
            let ghost a = t.take(i as int);
            let ghost b = t.take(i + 1);
            let _ = self.remove(removed[i].as_str());
            proof {
                let n = removed@[i as int]@;
                assert(b =~= a.push(n));
                assert forall|x: Seq<char>| b.contains(x) <==> a.contains(x) || x == n by {
                    if a.contains(x) {
                        let j = choose|j: int| 0 <= j < a.len() && a[j] == x;
                        assert(b[j] == x);
                    }
                    assert(b[i as int] == n);
                }
                assert(b.to_set() =~= a.to_set().insert(n));
                let o = old(self)@.without(b.to_set());
                assert(self@.routers =~= o.routers);
                assert(self@.cursors =~= o.cursors);
                assert(self@.totals =~= o.totals);
                assert(self@.bases =~= o.bases);
            }
            i += 1;
        }
        assert(t.take(i as int) =~= t);
        removed
    }

    /// The routers that read from a topic, in ascending order of their names.
    pub fn routers_for_source(&self, topic_name: &str) -> (r: Vec<Router>)
        requires
            self.wf(),
        ensures
            r@.len() == in_order(reading(self@.routers, topic_name@)).len(),
            forall|i: int|
                0 <= i < r@.len() ==> (#[trigger] r@[i]) == self@.routers[in_order(
                    reading(self@.routers, topic_name@),
                )[i]],
    {
        let mut out: Vec<Router> = Vec::new();
        let mut i: usize = 0;
        let ghost ks = names_of(self.routers.pairs());
        let ghost want = reading(self@.routers, topic_name@);
        let ghost mut picked: Seq<Seq<char>> = Seq::empty();
        proof {
            self.routers.keys_are_domain();
        }
        while i < self.routers.len()
            invariant
                self.wf(),
                ks == names_of(self.routers.pairs()),
                ascending(ks),
                want == reading(self@.routers, topic_name@),
                i <= self.routers.pairs().len(),
                picked.len() == out@.len(),
                forall|j: int|
                    0 <= j < out@.len() ==> #[trigger] out@[j] == self@.routers[picked[j]],
                ascending(picked),
                forall|x: Seq<char>| #[trigger]
                    picked.contains(x) <==> want.contains(x) && ks.take(i as int).contains(x),
                forall|j: int|
                    0 <= j < picked.len() ==> ks.take(i as int).contains(#[trigger] picked[j]),
            decreases self.routers.pairs().len() - i,
        {
            let p = self.routers.at(i);
            let ghost before = picked;
            proof {
                self.routers.pair_in_map(i as int);
                assert(ks[i as int] == p.0@);
                take_one_more(ks, i as int);
            }
            if text_eq(p.1.source.as_str(), topic_name) {
                out.push(p.1.copy());
                proof {
                    picked = picked.push(p.0@);
                    assert forall|a: int, b: int| 0 <= a < b < picked.len() implies
                        crate::text::text_lt(#[trigger] picked[a], #[trigger] picked[b]) by {
                        if b == before.len() {
                            assert(ks.take(i as int).contains(before[a]));
                            let h = ks.take(i as int);
                            let j = choose|j: int| 0 <= j < h.len() && h[j] == before[a];
                            assert(crate::text::text_lt(ks[j], ks[i as int]));
                        } else {
                            assert(crate::text::text_lt(before[a], before[b]));
                        }
                    }
                    assert forall|x: Seq<char>| picked.contains(x) <==> before.contains(x) || x
                        == p.0@ by {
                        if before.contains(x) {
                            let j = choose|j: int| 0 <= j < before.len() && before[j] == x;
                            assert(picked[j] == x);
                        }
                        assert(picked[before.len() as int] == p.0@);
                    }
                }
            }
            i += 1;
        }
        proof {
            assert(ks.take(i as int) =~= ks);
            assert(picked.to_set() =~= want) by {
                assert forall|x: Seq<char>| picked.contains(x) <==> want.contains(x) by {
                    if want.contains(x) {
                        assert(ks.to_set().contains(x));
                    }
                }
            }
            in_order_is(picked);
        }
        out
    }

    /// Whether another router than the one named reads from another source into
    /// `dest`.
    pub fn has_other_source(&self, name: &str, source: &str, dest: &str) -> (r: bool)
        requires
            self.wf(),
        ensures
            r == fans_in(self@.routers, name@, source@, dest@),
    {
        let mut i: usize = 0;
        while i < self.routers.len()
            invariant
                self.wf(),
                i <= self.routers.pairs().len(),
                forall|j: int|
                    0 <= j < i ==> {
                        let p = #[trigger] self.routers.pairs()[j];
                        p.0@ == name@ || p.1.dest@ != dest@ || p.1.source@ == source@
                    },
            decreases self.routers.pairs().len() - i,
        {
            let p = self.routers.at(i);
            if !text_eq(p.0.as_str(), name) && text_eq(p.1.dest.as_str(), dest) && !text_eq(
                p.1.source.as_str(),
                source,
            ) {
                proof {
                    self.routers.pair_in_map(i as int);
                    assert(self@.routers.contains_key(p.0@));
                }
                return true;
            }
            i += 1;
        }
        proof {
            assert forall|n: Seq<char>| #[trigger] self@.routers.contains_key(n) implies n == name@
                || self@.routers[n].dest@ != dest@ || self@.routers[n].source@ == source@ by {
                let j = self.routers.key_in_list(n);
                assert(self.routers.pairs()[j].0@ == n);
            }
        }
        false
    }

    /// Whether any router reads from a topic.
    pub fn has_routers_for_source(&self, topic_name: &str) -> (r: bool)
        requires
            self.wf(),
        ensures
            r == (reading(self@.routers, topic_name@) != Set::<Seq<char>>::empty()),
    {
        let mut i: usize = 0;
        while i < self.routers.len()
            invariant
                self.wf(),
                i <= self.routers.pairs().len(),
                forall|j: int|
                    0 <= j < i ==> (#[trigger] self.routers.pairs()[j]).1.source@ != topic_name@,
            decreases self.routers.pairs().len() - i,
        {
            let p = self.routers.at(i);
            if text_eq(p.1.source.as_str(), topic_name) {
                proof {
                    self.routers.pair_in_map(i as int);
                    assert(reading(self@.routers, topic_name@).contains(p.0@));
                }
                return true;
            }
            i += 1;
        }
        proof {
            assert forall|x: Seq<char>| !reading(self@.routers, topic_name@).contains(x) by {
                if reading(self@.routers, topic_name@).contains(x) {
                    let j = self.routers.key_in_list(x);
                    assert(self.routers.pairs()[j].1.source@ != topic_name@);
                }
            }
            assert(reading(self@.routers, topic_name@) =~= Set::<Seq<char>>::empty());
        }
        false
    }

    /// Notes that a router has read up to `src_head` and forwarded `count` more
    /// records.
    pub fn note_forwarded(&mut self, router: &str, src_head: u64, count: u64)
        requires
            old(self).wf(),
            number(old(self)@.totals, router@) + count <= u64::MAX,
        ensures
            final(self).wf(),
            final(self)@ == old(self)@.noted(router@, src_head, count),
    {
        let total: u64 = self.forwarded_total(router);
        self.cursors.insert(router.to_owned(), src_head);
        self.totals.insert(router.to_owned(), total + count);
    }

    /// Sets how far a router has read its source.
    pub fn set_cursor(&mut self, name: &str, cursor: u64)
        requires
            old(self).wf(),
        ensures
            final(self).wf(),
            final(self)@ == (RouterView {
                cursors: old(self)@.cursors.insert(name@, cursor),
                ..old(self)@
            }),
    {
        self.cursors.insert(name.to_owned(), cursor);
    }

    /// Fixes where a router's run in its destination starts, as long as it has
    /// forwarded nothing.
    pub fn seed_dest_base(&mut self, name: &str, base: u64)
        requires
            old(self).wf(),
        ensures
            final(self).wf(),
            number(old(self)@.totals, name@) == 0 ==> final(self)@ == (RouterView {
                bases: old(self)@.bases.insert(name@, base),
                ..old(self)@
            }),
            number(old(self)@.totals, name@) != 0 ==> *final(self) == *old(self),
    {
        if self.forwarded_total(name) == 0 {
            self.bases.insert(name.to_owned(), base);
        }
    }

    /// The sequence number the next forwarded record gets in the destination.
    pub fn next_dest_seq(&self, name: &str) -> (r: u64)
        requires
            self.wf(),
            number(self@.bases, name@) + number(self@.totals, name@) + 1 <= u64::MAX,
        ensures
            r == number(self@.bases, name@) + number(self@.totals, name@) + 1,
    {
        self.dest_base(name) + self.forwarded_total(name) + 1
    }

    /// The routers with their cursor, total and base, in ascending order of their
    /// names.
    pub fn snapshot_all(&self) -> (r: Vec<(Router, u64, u64, u64)>)
        requires
            self.wf(),
        ensures
            r@ == self@.snapshot(),
    {
        let mut out: Vec<(Router, u64, u64, u64)> = Vec::new();
        let mut i: usize = 0;
        let ghost ks = names_of(self.routers.pairs());
        while i < self.routers.len()
            invariant
                self.wf(),
                ks == names_of(self.routers.pairs()),
                i <= self.routers.pairs().len(),
                out@.len() == i,
                forall|j: int|
                    0 <= j < i ==> (#[trigger] out@[j]).0 == self@.routers[ks[j]] && out@[j].1
                        == number(self@.cursors, ks[j]) && out@[j].2 == number(
                        self@.totals,
                        ks[j],
                    ) && out@[j].3 == number(self@.bases, ks[j]),
            decreases self.routers.pairs().len() - i,
        {
            let p = self.routers.at(i);
            proof {
                self.routers.pair_in_map(i as int);
            }
            let n = p.0.as_str();
            out.push((p.1.copy(), self.cursor(n), self.forwarded_total(n), self.dest_base(n)));
            i += 1;
        }
        proof {
            self.routers.keys_are_domain();
            in_order_is(ks);
            assert(out@ =~= self@.snapshot());
        }
        out
    }

    /// Takes a router in as it was, with its cursor, total and base.
    pub fn restore(&mut self, router: Router, cursor: u64, forwarded_total: u64, dest_base: u64)
        requires
            old(self).wf(),
        ensures
            final(self).wf(),
            final(self)@ == old(self)@.restored((router, cursor, forwarded_total, dest_base)),
    {
        self.cursors.insert(router.name.clone(), cursor);
        self.totals.insert(router.name.clone(), forwarded_total);
        self.bases.insert(router.name.clone(), dest_base);
        let name = router.name.clone();
        self.routers.insert(name, router);
    }

    /// The cycle that a new router from `source` to `dest` would close, if any.
    pub fn would_create_cycle(&self, source: &str, dest: &str) -> (r: Option<Vec<String>>)
        requires
            self.wf(),
        ensures
            match r {
                Some(p) => is_cycle(self@.routers, None, source@, dest@, texts(p@)),
                None => !closes_cycle(self@.routers, None, source@, dest@),
            },
            r is Some <==> closes_cycle(self@.routers, None, source@, dest@),
    {
        self.would_create_cycle_excluding(source, dest, None)
    }

    fn would_create_cycle_excluding(
        &self,
        source: &str,
        dest: &str,
        exclude: Option<&str>,
    ) -> (r: Option<Vec<String>>)
        requires
            self.wf(),
        ensures
            match r {
                Some(p) => is_cycle(
                    self@.routers,
                    skip_name(exclude),
                    source@,
                    dest@,
                    texts(p@),
                ),
                None => !closes_cycle(self@.routers, skip_name(exclude), source@, dest@),
            },
            r is Some <==> closes_cycle(self@.routers, skip_name(exclude), source@, dest@),
    {
        let ghost e = edges(self@.routers, skip_name(exclude));
        let mut path: Vec<String> = Vec::new();
        path.push(source.to_owned());
        if text_eq(source, dest) {
            path.push(dest.to_owned());
            proof {
                let p = texts(path@);
                assert(p =~= seq![source@, dest@]);
                assert(p.skip(1) =~= seq![dest@]);
                assert(path_in(e, p.skip(1)));
            }
            return Some(path);
        }
        let mut visited: Vec<String> = Vec::new();
        let ghost universe = self.nodes().insert(dest@);
        proof {
            self.nodes_finite();
            assert(texts(visited@) =~= Seq::<Seq<char>>::empty());
            assert(texts(path@) =~= seq![source@]);
        }
        let found = self.dfs_to(exclude, dest, source, &mut visited, &mut path, Ghost(universe));
        if found {
            proof {
                let p = texts(path@);
                let q = choose|q: Seq<Seq<char>>| #[trigger]
                    path_in(e, q) && q[0] == dest@ && q.last() == source@ && p == seq![source@]
                        + q;
                assert(p.skip(1) =~= q);
                assert(leads(e, dest@, source@));
                assert(p.last() == q.last());
            }
            Some(path)
        } else {
            proof {
                let s = texts(visited@).to_set();
                if leads(e, dest@, source@) {
                    let p = choose|p: Seq<Seq<char>>| #[trigger]
                        path_in(e, p) && p[0] == dest@ && p.last() == source@;
                    assert(s.contains(dest@));
                    assert forall|u: Seq<char>, v: Seq<char>|
                        s.contains(u) && #[trigger] e(u, v) implies s.contains(v) by {
                        assert(texts(visited@).contains(u));
                        assert(texts(visited@).contains(v));
                    }
                    closed_set_holds_path(e, s, p, p.len() - 1);
                    assert(texts(visited@).contains(source@));
                }
            }
            None
        }
    }

    /// The destinations of the routers.
    spec fn nodes(&self) -> Set<Seq<char>> {
        self@.routers.dom().map(|n: Seq<char>| self@.routers[n].dest@)
    }

    proof fn nodes_finite(&self)
        requires
            self.wf(),
        ensures
            self.nodes().finite(),
    {
        self.routers.keys_are_domain();
        self@.routers.dom().lemma_map_finite(|n: Seq<char>| self@.routers[n].dest@);
    }

    fn dfs_to(
        &self,
        exclude: Option<&str>,
        from: &str,
        target: &str,
        visited: &mut Vec<String>,
        path: &mut Vec<String>,
        Ghost(universe): Ghost<Set<Seq<char>>>,
    ) -> (found: bool)
        requires
            self.wf(),
            universe.finite(),
            self.nodes().subset_of(universe),
            universe.contains(from@),
            !texts(old(visited)@).contains(from@),
            !texts(old(visited)@).contains(target@),
        ensures
            ({
                let e = edges(self@.routers, skip_name(exclude));
                let v0 = texts(old(visited)@);
                let v1 = texts(final(visited)@);
                &&& found ==> exists|q: Seq<Seq<char>>| #[trigger]
                    path_in(e, q) && q[0] == from@ && q.last() == target@ && texts(final(path)@)
                        == texts(old(path)@) + q
                &&& !found ==> {
                    &&& texts(final(path)@) == texts(old(path)@)
                    &&& forall|x: Seq<char>| #[trigger] v0.contains(x) ==> v1.contains(x)
                    &&& v1.contains(from@)
                    &&& !v1.contains(target@)
                    &&& forall|u: Seq<char>, v: Seq<char>|
                        v1.contains(u) && !v0.contains(u) && #[trigger] e(u, v) ==> v1.contains(v)
                }
            }),
        decreases universe.difference(texts(old(visited)@).to_set()).len(),
    {
        let ghost e = edges(self@.routers, skip_name(exclude));
        let ghost v0 = texts(visited@);
        let ghost p0 = texts(path@);
        path.push(from.to_owned());
        assert(texts(path@) =~= p0.push(from@));
        if text_eq(from, target) {
            proof {
                let q = seq![from@];
                assert(path_in(e, q) && q[0] == from@ && q.last() == target@);
                assert(texts(path@) =~= p0 + q);
            }
            return true;
        }
        visited.push(from.to_owned());
        proof {
            assert(texts(visited@) =~= v0.push(from@));
            assert forall|x: Seq<char>| texts(visited@).contains(x) <==> v0.contains(x) || x
                == from@ by {
                if v0.contains(x) {
                    let j = choose|j: int| 0 <= j < v0.len() && v0[j] == x;
                    assert(texts(visited@)[j] == x);
                }
                assert(texts(visited@)[v0.len() as int] == from@);
            }
        }
        let mut i: usize = 0;
        while i < self.routers.len()
            invariant
                self.wf(),
                e == edges(self@.routers, skip_name(exclude)),
                universe.finite(),
                self.nodes().subset_of(universe),
                universe.contains(from@),
                !v0.contains(from@),
                from@ != target@,
                v0 == texts(old(visited)@),
                p0 == texts(old(path)@),
                i <= self.routers.pairs().len(),
                texts(path@) == p0.push(from@),
                forall|x: Seq<char>| #[trigger]
                    v0.contains(x) ==> texts(visited@).contains(x),
                texts(visited@).contains(from@),
                !texts(visited@).contains(target@),
                forall|u: Seq<char>, v: Seq<char>|
                    texts(visited@).contains(u) && !v0.contains(u) && u != from@ && #[trigger] e(
                        u,
                        v,
                    ) ==> texts(visited@).contains(v),
                forall|j: int|
                    0 <= j < i && (#[trigger] self.routers.pairs()[j]).1.source@ == from@
                        && skip_name(exclude) != Some(self.routers.pairs()[j].0@) ==> texts(
                        visited@,
                    ).contains(self.routers.pairs()[j].1.dest@),
            decreases self.routers.pairs().len() - i,
        {
            let p = self.routers.at(i);
            proof {
                self.routers.pair_in_map(i as int);
            }
            let skipped = match exclude {
                Some(x) => text_eq(x, p.0.as_str()),
                None => false,
            };
            if !skipped && text_eq(p.1.source.as_str(), from) && !contains_text(
                visited,
                p.1.dest.as_str(),
            ) {
                let ghost v1 = texts(visited@);
                proof {
                    assert(self.nodes().contains(p.1.dest@)) by {
                        assert(self@.routers.dom().contains(p.0@));
                    }
                    let a = universe.difference(v0.to_set());
                    let b = universe.difference(v1.to_set());
                    assert(a.contains(from@));
                    assert(b.subset_of(a.remove(from@))) by {
                        assert forall|x: Seq<char>| b.contains(x) implies a.remove(
                            from@,
                        ).contains(x) by {
                            if v0.contains(x) {
                                assert(v1.contains(x));
                            }
                        }
                    }
                    vstd::set_lib::lemma_len_subset(b, a.remove(from@));
                }
                if self.dfs_to(
                    exclude,
                    p.1.dest.as_str(),
                    target,
                    visited,
                    path,
                    Ghost(universe),
                ) {
                    proof {
                        let q = choose|q: Seq<Seq<char>>| #[trigger]
                            path_in(e, q) && q[0] == p.1.dest@ && q.last() == target@ && texts(
                                path@,
                            ) == p0.push(from@) + q;
                        let r = seq![from@] + q;
                        assert(e(from@, p.1.dest@)) by {
                            assert(self@.routers.contains_key(p.0@));
                        }
                        assert forall|k: int| 0 <= k < r.len() - 1 implies e(
                            #[trigger] r[k],
                            r[k + 1],
                        ) by {
                            if k > 0 {
                                assert(e(q[k - 1], q[k]));
                            }
                        }
                        assert(path_in(e, r) && r[0] == from@ && r.last() == target@);
                        assert(texts(path@) =~= p0 + r);
                    }
                    return true;
                }
                proof {
                    assert forall|u: Seq<char>, v: Seq<char>|
                        texts(visited@).contains(u) && !v0.contains(u) && u != from@ && #[trigger] e(
                            u,
                            v,
                        ) implies texts(visited@).contains(v) by {
                        if v1.contains(u) {
                            assert(v1.contains(v));
                        }
                    }
                    assert(v1.contains(from@));
                    assert forall|j: int|
                        0 <= j < i && (#[trigger] self.routers.pairs()[j]).1.source@ == from@
                            && skip_name(exclude) != Some(
                            self.routers.pairs()[j].0@,
                        ) implies texts(visited@).contains(self.routers.pairs()[j].1.dest@) by {
                        assert(v1.contains(self.routers.pairs()[j].1.dest@));
                    }
                }
            }
            i += 1;
        }
        let ghost whole = path@;
        let _ = path.pop();
        proof {
            assert(path@ =~= whole.drop_last());
            assert(texts(path@) =~= texts(whole).drop_last());
            assert(p0.push(from@).drop_last() =~= p0);
            assert forall|u: Seq<char>, v: Seq<char>|
                texts(visited@).contains(u) && !v0.contains(u) && #[trigger] e(
                    u,
                    v,
                ) implies texts(visited@).contains(v) by {
                if u == from@ {
                    let n = choose|n: Seq<char>| #[trigger]
                        self@.routers.contains_key(n) && skip_name(exclude) != Some(n)
                            && self@.routers[n].source@ == u && self@.routers[n].dest@ == v;
                    let j = self.routers.key_in_list(n);
                    assert(self.routers.pairs()[j].1.source@ == from@);
                }
            }
        }
        false
    }
}

/// The name that a cycle check leaves out.
pub open spec fn skip_name(s: Option<&str>) -> Option<Seq<char>> {
    match s {
        Some(x) => Some(x@),
        None => None,
    }
}

/// The name a router gets when none is given: `source->dest`.
pub fn default_router_name(source: &str, dest: &str) -> (r: String)
    ensures
        r@ == source@ + seq!['-', '>'] + dest@,
{
    let arrow = "->";
    proof {
        reveal_strlit("->");
        assert(arrow@ =~= seq!['-', '>']);
    }
    let mut s = source.to_owned();
    s.append(arrow);
    s.append(dest);
    s
}

/// A router joins two different topics with valid names.
pub fn validate_router(source: &str, dest: &str) -> (r: Result<(), Error>)
    ensures
        r is Ok <==> source@ != dest@ && valid_name(source@) && valid_name(dest@),
        r is Err ==> r->Err_0.code == ErrorCode::InvalidRequest && r->Err_0.detail
            == ErrorDetail::Plain,
{
    if text_eq(source, dest) {
        return Err(Error::new(ErrorCode::InvalidRequest));
    }
    if !is_valid_name(source) || !is_valid_name(dest) {
        return Err(Error::new(ErrorCode::InvalidRequest));
    }
    Ok(())
}

/// No routers.
pub open spec fn no_routers() -> RouterView {
    RouterView {
        routers: Map::empty(),
        cursors: Map::empty(),
        totals: Map::empty(),
        bases: Map::empty(),
    }
}

/// What a snapshot of the routers holds is what there was: taken in again, one after
/// the other, it gives every router back, with its cursor, its total and its base, and
/// no other. Cycles make no difference.
pub proof fn a_snapshot_gives_the_routers_back(g: RouterView)
    requires
        g.named(),
        g.routers.dom().finite(),
    ensures
        ({
            let h = no_routers().restored_all(g.snapshot());
            &&& h.routers == g.routers
            &&& h.cursors.dom() == g.routers.dom()
            &&& h.totals.dom() == g.routers.dom()
            &&& h.bases.dom() == g.routers.dom()
            &&& forall|n: Seq<char>| #[trigger]
                g.routers.contains_key(n) ==> h.entry(n) == g.entry(n)
        }),
{
    let s = g.snapshot();
    let all = in_order(g.routers.dom());
    in_order_lists(g.routers.dom());
    restored_run(g, s.len() as int);
    assert(s.take(s.len() as int) =~= s);
    assert(all.take(s.len() as int) =~= all);
    let h = no_routers().restored_all(s);
    assert(h.routers =~= g.routers);
    assert(h.cursors.dom() =~= g.routers.dom());
    assert(h.totals.dom() =~= g.routers.dom());
    assert(h.bases.dom() =~= g.routers.dom());
}

proof fn restored_run(g: RouterView, k: int)
    requires
        g.named(),
        g.routers.dom().finite(),
        0 <= k <= in_order(g.routers.dom()).len(),
    ensures
        ({
            let h = no_routers().restored_all(g.snapshot().take(k));
            let names = in_order(g.routers.dom()).take(k);
            forall|n: Seq<char>|
                {
                    &&& #[trigger] h.routers.contains_key(n) <==> names.contains(n)
                    &&& h.cursors.contains_key(n) <==> names.contains(n)
                    &&& h.totals.contains_key(n) <==> names.contains(n)
                    &&& h.bases.contains_key(n) <==> names.contains(n)
                    &&& names.contains(n) ==> h.entry(n) == g.entry(n)
                }
        }),
    decreases k,
{
    let s = g.snapshot();
    let all = in_order(g.routers.dom());
    in_order_lists(g.routers.dom());
    if k > 0 {
        restored_run(g, k - 1);
        assert(s.take(k).drop_last() =~= s.take(k - 1));
        assert(s.take(k).last() == s[k - 1]);
        let x = all[k - 1];
        assert(all.contains(x));
        assert(g.routers.contains_key(x));
        assert(s[k - 1] == g.entry(x));
        take_one_more(all, k - 1);
        assert(all.take(k - 1 + 1) == all.take(k));
        let a = no_routers().restored_all(s.take(k - 1));
        let h = no_routers().restored_all(s.take(k));
        assert(h == a.restored(g.entry(x)));
        assert forall|n: Seq<char>|
            {
                &&& #[trigger] h.routers.contains_key(n) <==> all.take(k).contains(n)
                &&& h.cursors.contains_key(n) <==> all.take(k).contains(n)
                &&& h.totals.contains_key(n) <==> all.take(k).contains(n)
                &&& h.bases.contains_key(n) <==> all.take(k).contains(n)
                &&& all.take(k).contains(n) ==> h.entry(n) == g.entry(n)
            } by {
            assert(a.routers.contains_key(n) <==> all.take(k - 1).contains(n));
            assert(all.take(k).contains(n) <==> all.take(k - 1).contains(n) || n == x);
        }
    }
}

} // verus!
