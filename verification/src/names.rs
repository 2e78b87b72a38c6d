//! Maps from names, kept in ascending order of the names.
use crate::text::{ascending, ascending_unique, text_before, text_lt, text_lt_irreflexive,
    text_lt_total, text_lt_transitive, text_eq};
use vstd::prelude::*;

verus! {

/// The names of a list of pairs.
pub open spec fn names_of<V>(s: Seq<(String, V)>) -> Seq<Seq<char>> {
    s.map_values(|p: (String, V)| p.0@)
}

/// The names of a finite set in ascending order.
pub open spec fn in_order(names: Set<Seq<char>>) -> Seq<Seq<char>> {
    choose|s: Seq<Seq<char>>| ascending(s) && s.to_set() == names
}

/// An ascending list is the list of its names in ascending order.
pub proof fn in_order_is(s: Seq<Seq<char>>)
    requires
        ascending(s),
    ensures
        in_order(s.to_set()) == s,
{
    let t = in_order(s.to_set());
    assert(ascending(t) && t.to_set() == s.to_set());
    assert forall|x: Seq<char>| s.contains(x) <==> t.contains(x) by {
        assert(s.contains(x) <==> s.to_set().contains(x));
        assert(t.contains(x) <==> t.to_set().contains(x));
    }
    ascending_unique(s, t);
}

/// An ascending list with one more name in its place.
spec fn with_name(s: Seq<Seq<char>>, x: Seq<char>) -> Seq<Seq<char>>
    decreases s.len(),
{
    if s.len() == 0 || text_lt(s.last(), x) {
        s.push(x)
    } else {
        with_name(s.drop_last(), x).push(s.last())
    }
}

proof fn with_name_ascends(s: Seq<Seq<char>>, x: Seq<char>)
    requires
        ascending(s),
        !s.contains(x),
    ensures
        ascending(with_name(s, x)),
        forall|n: Seq<char>| #[trigger] with_name(s, x).contains(n) <==> s.contains(n) || n == x,
    decreases s.len(),
{
    let t = with_name(s, x);
    if s.len() == 0 || text_lt(s.last(), x) {
        assert forall|i: int, j: int| 0 <= i < j < t.len() implies text_lt(
            #[trigger] t[i],
            #[trigger] t[j],
        ) by {
            if j == s.len() {
                if i < s.len() - 1 {
                    text_lt_transitive(s[i], s.last(), x);
                }
            } else {
                assert(text_lt(s[i], s[j]));
            }
        }
        assert forall|n: Seq<char>| #[trigger] t.contains(n) <==> s.contains(n) || n == x by {
            if s.contains(n) {
                let i = choose|i: int| 0 <= i < s.len() && s[i] == n;
                assert(t[i] == n);
            }
            assert(t[s.len() as int] == x);
        }
    } else {
        let r = s.drop_last();
        let u = with_name(r, x);
        assert(s.last() != x) by {
            assert(s.contains(s.last()));
        }
        text_lt_total(s.last(), x);
        assert forall|i: int, j: int| 0 <= i < j < r.len() implies text_lt(
            #[trigger] r[i],
            #[trigger] r[j],
        ) by {
            assert(text_lt(s[i], s[j]));
        }
        assert(!r.contains(x)) by {
            if r.contains(x) {
                let i = choose|i: int| 0 <= i < r.len() && r[i] == x;
                assert(s[i] == x);
            }
        }
        with_name_ascends(r, x);
        assert forall|i: int, j: int| 0 <= i < j < t.len() implies text_lt(
            #[trigger] t[i],
            #[trigger] t[j],
        ) by {
            if j == u.len() {
                assert(u.contains(u[i]));
                if u[i] != x {
                    let k = choose|k: int| 0 <= k < r.len() && r[k] == u[i];
                    assert(text_lt(s[k], s[s.len() - 1]));
                }
            } else {
                assert(text_lt(u[i], u[j]));
            }
        }
        assert forall|n: Seq<char>| #[trigger] t.contains(n) <==> s.contains(n) || n == x by {
            if t.contains(n) {
                let i = choose|i: int| 0 <= i < t.len() && t[i] == n;
                if i < u.len() {
                    assert(u.contains(n));
                    if n != x {
                        let k = choose|k: int| 0 <= k < r.len() && r[k] == n;
                        assert(s[k] == n);
                    }
                } else {
                    assert(s[s.len() - 1] == n);
                }
            }
            if s.contains(n) || n == x {
                if n == s.last() {
                    assert(t[u.len() as int] == n);
                } else {
                    if n != x {
                        let i = choose|i: int| 0 <= i < s.len() && s[i] == n;
                        assert(r[i] == n);
                    }
                    assert(u.contains(n));
                    let k = choose|k: int| 0 <= k < u.len() && u[k] == n;
                    assert(t[k] == n);
                }
            }
        }
    }
}

/// A finite set has its names in ascending order: all of them, each once.
pub proof fn in_order_lists(names: Set<Seq<char>>)
    requires
        names.finite(),
    ensures
        ascending(in_order(names)),
        in_order(names).to_set() == names,
        forall|n: Seq<char>| #[trigger] in_order(names).contains(n) <==> names.contains(n),
    decreases names.len(),
{
    if names.len() == 0 {
        let s = Seq::<Seq<char>>::empty();
        assert(s.to_set() =~= names);
        in_order_is(s);
    } else {
        let x = names.choose();
        let rest = names.remove(x);
        in_order_lists(rest);
        let s = in_order(rest);
        assert(!s.contains(x)) by {
            assert(!rest.contains(x));
        }
        with_name_ascends(s, x);
        let t = with_name(s, x);
        assert forall|n: Seq<char>| t.to_set().contains(n) <==> names.contains(n) by {
            assert(t.to_set().contains(n) <==> t.contains(n));
        }
        assert(t.to_set() =~= names);
        in_order_is(t);
    }
    let t = in_order(names);
    assert forall|n: Seq<char>| #[trigger] t.contains(n) <==> names.contains(n) by {
        assert(t.to_set().contains(n) <==> t.contains(n));
    }
}

/// The names after one of a set are those that follow it in order.
pub proof fn order_goes_on(names: Set<Seq<char>>, later: Set<Seq<char>>, k: int)
    requires
        names.finite(),
        0 < k <= in_order(names).len(),
        forall|n: Seq<char>| #[trigger]
            later.contains(n) <==> names.contains(n) && text_lt(in_order(names)[k - 1], n),
    ensures
        in_order(later) == in_order(names).skip(k),
{
    in_order_lists(names);
    let all = in_order(names);
    let t = all.skip(k);
    assert forall|i: int, j: int| 0 <= i < j < t.len() implies text_lt(
        #[trigger] t[i],
        #[trigger] t[j],
    ) by {
        assert(text_lt(all[i + k], all[j + k]));
    }
    assert forall|n: Seq<char>| t.to_set().contains(n) <==> later.contains(n) by {
        if t.contains(n) {
            let i = choose|i: int| 0 <= i < t.len() && t[i] == n;
            assert(all[i + k] == n);
            assert(all.contains(n));
            assert(text_lt(all[k - 1], all[i + k]));
        }
        if later.contains(n) {
            assert(all.contains(n));
            let i = choose|i: int| 0 <= i < all.len() && all[i] == n;
            if i < k {
                if i < k - 1 {
                    assert(text_lt(all[i], all[k - 1]));
                    text_lt_transitive(all[i], all[k - 1], all[i]);
                }
                text_lt_irreflexive(n);
            } else {
                assert(t[i - k] == n);
            }
        }
    }
    assert(t.to_set() =~= later);
    in_order_is(t);
}

/// In an ascending list no name comes twice.
pub proof fn ascending_distinct(s: Seq<Seq<char>>, i: int, j: int)
    requires
        ascending(s),
        0 <= i < s.len(),
        0 <= j < s.len(),
        s[i] == s[j],
    ensures
        i == j,
{
    if i < j {
        assert(text_lt(s[i], s[j]));
        text_lt_irreflexive(s[i]);
    }
    if j < i {
        assert(text_lt(s[j], s[i]));
        text_lt_irreflexive(s[i]);
    }
}

/// One more place of a list holds one more name.
pub proof fn take_one_more(s: Seq<Seq<char>>, i: int)
    requires
        0 <= i < s.len(),
    ensures
        forall|x: Seq<char>| #[trigger]
            s.take(i + 1).contains(x) <==> s.take(i).contains(x) || x == s[i],
{
    let a = s.take(i);
    let b = s.take(i + 1);
    assert forall|x: Seq<char>| #[trigger] b.contains(x) <==> a.contains(x) || x == s[i] by {
        if b.contains(x) {
            let j = choose|j: int| 0 <= j < b.len() && b[j] == x;
            if j < i {
                assert(a[j] == x);
            }
        }
        if a.contains(x) {
            let j = choose|j: int| 0 <= j < a.len() && a[j] == x;
            assert(b[j] == x);
        }
        assert(b[i] == s[i]);
    }
}

/// In an ascending list a name does not come earlier as well.
pub proof fn not_earlier(s: Seq<Seq<char>>, i: int)
    requires
        ascending(s),
        0 <= i < s.len(),
    ensures
        !s.take(i).contains(s[i]),
{
    let a = s.take(i);
    if a.contains(s[i]) {
        let j = choose|j: int| 0 <= j < a.len() && a[j] == s[i];
        ascending_distinct(s, j, i);
    }
}

/// A map from names.
#[derive(Debug)]
pub struct NameMap<V> {
    items: Vec<(String, V)>,
}

impl<V> View for NameMap<V> {
    type V = Map<Seq<char>, V>;

    closed spec fn view(&self) -> Map<Seq<char>, V> {
        Map::new(
            |k: Seq<char>| names_of(self.items@).contains(k),
            |k: Seq<char>| self.items@[names_of(self.items@).index_of(k)].1,
        )
    }
}

impl<V> NameMap<V> {
    /// The pairs in ascending order of their names.
    pub closed spec fn pairs(&self) -> Seq<(String, V)> {
        self.items@
    }

    /// The names are ascending.
    pub closed spec fn wf(&self) -> bool {
        ascending(names_of(self.items@))
    }

    /// A pair of the list is a pair of the map.
    pub proof fn pair_in_map(&self, i: int)
        requires
            self.wf(),
            0 <= i < self.pairs().len(),
        ensures
            self@.contains_key(self.pairs()[i].0@),
            self@[self.pairs()[i].0@] == self.pairs()[i].1,
    {
        let ks = names_of(self.items@);
        assert(ks[i] == self.items@[i].0@);
        assert(ks.contains(ks[i]));
        let j = ks.index_of(ks[i]);
        assert(ks[j] == ks[i]);
        ascending_distinct(ks, i, j);
    }

    /// A name of the map is in the list.
    pub proof fn key_in_list(&self, k: Seq<char>) -> (i: int)
        requires
            self.wf(),
            self@.contains_key(k),
        ensures
            0 <= i < self.pairs().len(),
            self.pairs()[i].0@ == k,
            self.pairs()[i].1 == self@[k],
    {
        let ks = names_of(self.items@);
        ks.index_of(k)
    }

    /// The names of the list are ascending and are the names of the map.
    pub proof fn keys_are_domain(&self)
        requires
            self.wf(),
        ensures
            ascending(names_of(self.pairs())),
            names_of(self.pairs()).to_set() == self@.dom(),
            self@.dom().finite(),
            self@.dom().len() == self.pairs().len(),
    {
        let ks = names_of(self.items@);
        assert(ks.to_set() =~= self@.dom());
        assert(ks.no_duplicates()) by {
            assert forall|i: int, j: int| 0 <= i < ks.len() && 0 <= j < ks.len() && i != j implies ks[i]
                != ks[j] by {
                if ks[i] == ks[j] {
                    ascending_distinct(ks, i, j);
                }
            }
        }
        ks.unique_seq_to_set();
        vstd::seq_lib::seq_to_set_is_finite(ks);
    }

    /// The empty map.
    pub fn new() -> (r: NameMap<V>)
        ensures
            r.wf(),
            r@ == Map::<Seq<char>, V>::empty(),
    {
        let r = NameMap { items: Vec::new() };
        assert(r@ =~= Map::<Seq<char>, V>::empty());
        r
    }

    /// The number of names.
    pub fn len(&self) -> (r: usize)
        ensures
            r == self.pairs().len(),
    {
        self.items.len()
    }

    /// The pair at a place of the list.
    pub fn at(&self, i: usize) -> (r: &(String, V))
        requires
            i < self.pairs().len(),
        ensures
            *r == self.pairs()[i as int],
    {
        &self.items[i]
    }

    fn position(&self, x: &str) -> (r: usize)
        requires
            self.wf(),
        ensures
            r <= self.items@.len(),
            forall|j: int| 0 <= j < r ==> text_lt(#[trigger] names_of(self.items@)[j], x@),
            forall|j: int|
                r <= j < self.items@.len() ==> !text_lt(
                    #[trigger] names_of(self.items@)[j],
                    x@,
                ),
    {
        let mut lo: usize = 0;
        let mut hi: usize = self.items.len();
        let ghost ks = names_of(self.items@);
        while lo < hi
            invariant
                self.wf(),
                ks == names_of(self.items@),
                lo <= hi <= self.items@.len(),
                forall|j: int| 0 <= j < lo ==> text_lt(#[trigger] ks[j], x@),
                forall|j: int| hi <= j < self.items@.len() ==> !text_lt(#[trigger] ks[j], x@),
            decreases hi - lo,
        {
            let mid: usize = lo + (hi - lo) / 2;
            assert(ks[mid as int] == self.items@[mid as int].0@);
            if text_before(self.items[mid].0.as_str(), x) {
                proof {
                    assert forall|j: int| 0 <= j < mid + 1 implies text_lt(
                        #[trigger] ks[j],
                        x@,
                    ) by {
                        if j < mid {
                            assert(text_lt(ks[j], ks[mid as int]));
                            text_lt_transitive(ks[j], ks[mid as int], x@);
                        }
                    }
                }
                lo = mid + 1;
            } else {
                proof {
                    assert forall|j: int| mid <= j < ks.len() implies !text_lt(
                        #[trigger] ks[j],
                        x@,
                    ) by {
                        if j > mid && text_lt(ks[j], x@) {
                            assert(text_lt(ks[mid as int], ks[j]));
                            text_lt_transitive(ks[mid as int], ks[j], x@);
                        }
                    }
                }
                hi = mid;
            }
        }
        lo
    }

    proof fn position_decides(&self, r: int, x: Seq<char>)
        requires
            self.wf(),
            0 <= r <= self.items@.len(),
            forall|j: int| 0 <= j < r ==> text_lt(#[trigger] names_of(self.items@)[j], x),
            forall|j: int|
                r <= j < self.items@.len() ==> !text_lt(#[trigger] names_of(self.items@)[j], x),
        ensures
            self@.contains_key(x) <==> r < self.items@.len() && self.items@[r].0@ == x,
            !self@.contains_key(x) ==> (forall|j: int|
                r <= j < self.items@.len() ==> text_lt(x, #[trigger] names_of(self.items@)[j])),
    {
        let ks = names_of(self.items@);
        if r < ks.len() && self.items@[r].0@ == x {
            self.pair_in_map(r);
        }
        if self@.contains_key(x) {
            let i = self.key_in_list(x);
            assert(ks[i] == x);
            text_lt_irreflexive(x);
            assert(i >= r);
            if i > r {
                assert(text_lt(ks[r], ks[i]));
            }
        } else {
            assert forall|j: int| r <= j < ks.len() implies text_lt(x, #[trigger] ks[j]) by {
                text_lt_total(x, ks[j]);
                if ks[j] == x {
                    self.pair_in_map(j);
                }
            }
        }
    }

    /// Whether there is a value for `k`.
    pub fn contains_key(&self, k: &str) -> (r: bool)
        requires
            self.wf(),
        ensures
            r == self@.contains_key(k@),
    {
        self.get(k).is_some()
    }

    /// The value for `k`.
    pub fn get(&self, k: &str) -> (r: Option<&V>)
        requires
            self.wf(),
        ensures
            match r {
                Some(v) => self@.contains_key(k@) && *v == self@[k@],
                None => !self@.contains_key(k@),
            },
    {
        let i: usize = self.position(k);
        proof {
            self.position_decides(i as int, k@);
        }
        if i < self.items.len() && text_eq(self.items[i].0.as_str(), k) {
            proof {
                self.pair_in_map(i as int);
            }
            Some(&self.items[i].1)
        } else {
            None
        }
    }

    /// Sets the value for `k`.
    pub fn insert(&mut self, k: String, v: V)
        requires
            old(self).wf(),
        ensures
            final(self).wf(),
            final(self)@ == old(self)@.insert(k@, v),
    {
        let i: usize = self.position(k.as_str());
        let ghost s = self.items@;
        let ghost ks = names_of(s);
        let ghost kv = k@;
        proof {
            self.position_decides(i as int, kv);
        }
        if i < self.items.len() && text_eq(self.items[i].0.as_str(), k.as_str()) {
            self.items.set(i, (k, v));
            proof {
                let t = self.items@;
                assert(names_of(t) =~= ks);
                old(self).pair_in_map(i as int);
                self.pair_in_map(i as int);
                assert forall|x: Seq<char>| names_of(t).contains(x) implies self@[x] == old(
                    self,
                )@.insert(kv, v)[x] by {
                    let j = self.key_in_list(x);
                    old(self).pair_in_map(j);
                    if x == kv {
                        assert(ks[j] == ks[i as int]);
                        ascending_distinct(ks, i as int, j);
                    }
                }
                assert(self@ =~= old(self)@.insert(kv, v));
            }
        } else {
            self.items.insert(i, (k, v));
            proof {
                let t = self.items@;
                let kt = names_of(t);
                assert(kt =~= ks.insert(i as int, kv));
                assert forall|a: int, b: int| 0 <= a < b < kt.len() implies text_lt(
                    #[trigger] kt[a],
                    #[trigger] kt[b],
                ) by {
                    let sa = if a < i {
                        a
                    } else {
                        a - 1
                    };
                    let sb = if b < i {
                        b
                    } else {
                        b - 1
                    };
                    if a == i {
                        assert(kt[b] == ks[sb]);
                    } else if b == i {
                        assert(kt[a] == ks[sa]);
                    } else {
                        assert(kt[a] == ks[sa] && kt[b] == ks[sb]);
                        assert(text_lt(ks[sa], ks[sb]));
                    }
                }
                assert forall|x: Seq<char>| kt.contains(x) <==> (x == kv || ks.contains(x)) by {
                    if kt.contains(x) {
                        let j = choose|j: int| 0 <= j < kt.len() && kt[j] == x;
                        if j < i {
                            assert(ks[j] == x);
                        } else if j > i {
                            assert(ks[j - 1] == x);
                        }
                    }
                    if ks.contains(x) {
                        let j = choose|j: int| 0 <= j < ks.len() && ks[j] == x;
                        if j < i {
                            assert(kt[j] == x);
                        } else {
                            assert(kt[j + 1] == x);
                        }
                    }
                    assert(kt[i as int] == kv);
                }
                assert forall|x: Seq<char>| kt.contains(x) implies self@[x] == old(self)@.insert(
                    kv,
                    v,
                )[x] by {
                    let j = self.key_in_list(x);
                    assert(kt[j] == x);
                    if j < i {
                        old(self).pair_in_map(j);
                        assert(ks[j] == x);
                        if x == kv {
                            assert(ks.contains(kv));
                        }
                    } else if j > i {
                        old(self).pair_in_map(j - 1);
                        assert(ks[j - 1] == x);
                        if x == kv {
                            assert(ks.contains(kv));
                        }
                    }
                }
                assert(self@ =~= old(self)@.insert(kv, v));
            }
        }
    }

    /// Takes out the value for `k`.
    pub fn remove(&mut self, k: &str) -> (r: Option<V>)
        requires
            old(self).wf(),
        ensures
            final(self).wf(),
            final(self)@ == old(self)@.remove(k@),
            match r {
                Some(v) => old(self)@.contains_key(k@) && v == old(self)@[k@],
                None => !old(self)@.contains_key(k@),
            },
            r is Some ==> final(self).pairs().len() + 1 == old(self).pairs().len(),
    {
        let i: usize = self.position(k);
        let ghost s = self.items@;
        let ghost ks = names_of(s);
        let ghost kv = k@;
        proof {
            self.position_decides(i as int, kv);
        }
        if i < self.items.len() && text_eq(self.items[i].0.as_str(), k) {
            let p = self.items.remove(i);
            proof {
                let t = self.items@;
                let kt = names_of(t);
                assert(kt =~= ks.remove(i as int));
                old(self).pair_in_map(i as int);
                assert forall|a: int, b: int| 0 <= a < b < kt.len() implies text_lt(
                    #[trigger] kt[a],
                    #[trigger] kt[b],
                ) by {
                    let sa = if a < i {
                        a
                    } else {
                        a + 1
                    };
                    let sb = if b < i {
                        b
                    } else {
                        b + 1
                    };
                    assert(kt[a] == ks[sa] && kt[b] == ks[sb]);
                    assert(text_lt(ks[sa], ks[sb]));
                }
                assert forall|x: Seq<char>| kt.contains(x) <==> (x != kv && ks.contains(x)) by {
                    if kt.contains(x) {
                        let j = choose|j: int| 0 <= j < kt.len() && kt[j] == x;
                        let m = if j < i {
                            j
                        } else {
                            j + 1
                        };
                        assert(ks[m] == x);
                        if x == kv {
                            ascending_distinct(ks, m, i as int);
                        }
                    }
                    if ks.contains(x) && x != kv {
                        let j = choose|j: int| 0 <= j < ks.len() && ks[j] == x;
                        if j < i {
                            assert(kt[j] == x);
                        } else {
                            assert(kt[j - 1] == x);
                        }
                    }
                }
                assert forall|x: Seq<char>| kt.contains(x) implies self@[x] == old(self)@.remove(
                    kv,
                )[x] by {
                    let j = self.key_in_list(x);
                    if j < i {
                        old(self).pair_in_map(j);
                    } else {
                        old(self).pair_in_map(j + 1);
                    }
                }
                assert(self@ =~= old(self)@.remove(kv));
            }
            Some(p.1)
        } else {
            proof {
                assert(self@ =~= self@.remove(kv));
            }
            None
        }
    }
}

} // verus!
