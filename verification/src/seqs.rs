//! Sets and maps of sequence numbers, kept as ascending lists.
use vstd::prelude::*;

verus! {

/// A list of numbers is strictly ascending.
pub open spec fn rising(s: Seq<u64>) -> bool {
    forall|i: int, j: int| 0 <= i < j < s.len() ==> #[trigger] s[i] < #[trigger] s[j]
}

/// Two ascending lists of the same numbers are the same list.
pub proof fn rising_unique(s: Seq<u64>, t: Seq<u64>)
    requires
        rising(s),
        rising(t),
        s.to_set() == t.to_set(),
    ensures
        s == t,
    decreases s.len(),
{
    assert forall|x: u64| s.contains(x) <==> t.contains(x) by {
        assert(s.contains(x) <==> s.to_set().contains(x));
        assert(t.contains(x) <==> t.to_set().contains(x));
    }
    if s.len() == 0 {
        if t.len() > 0 {
            assert(t.contains(t[0]));
        }
        assert(s =~= t);
    } else {
        assert(s.contains(s[0]));
        assert(t.contains(s[0]));
        assert(t.contains(t[0]));
        assert(s.contains(t[0]));
        let s1 = s.drop_first();
        let t1 = t.drop_first();
        assert(s[0] == t[0]);
        assert forall|x: u64| s1.to_set().contains(x) <==> t1.to_set().contains(x) by {
            if s1.contains(x) {
                let i = choose|i: int| 0 <= i < s1.len() && s1[i] == x;
                assert(s[i + 1] == x);
                assert(t.contains(x));
                let j = choose|j: int| 0 <= j < t.len() && t[j] == x;
                assert(t1[j - 1] == x);
            }
            if t1.contains(x) {
                let i = choose|i: int| 0 <= i < t1.len() && t1[i] == x;
                assert(t[i + 1] == x);
                assert(s.contains(x));
                let j = choose|j: int| 0 <= j < s.len() && s[j] == x;
                assert(s1[j - 1] == x);
            }
        }
        assert(s1.to_set() =~= t1.to_set());
        rising_unique(s1, t1);
        assert(s =~= seq![s[0]] + s1);
        assert(t =~= seq![t[0]] + t1);
    }
}

/// An ascending list is as long as the set of its numbers is large.
pub proof fn rising_len(s: Seq<u64>)
    requires
        rising(s),
    ensures
        s.to_set().finite(),
        s.to_set().len() == s.len(),
{
    assert(s.no_duplicates()) by {
        assert forall|i: int, j: int|
            0 <= i < s.len() && 0 <= j < s.len() && i != j implies s[i] != s[j] by {
            if i < j {
                assert(s[i] < s[j]);
            } else {
                assert(s[j] < s[i]);
            }
        }
    }
    s.unique_seq_to_set();
    vstd::seq_lib::seq_to_set_is_finite(s);
}

/// How many numbers of a list have a property.
pub open spec fn count_where(s: Seq<u64>, p: spec_fn(u64) -> bool) -> nat
    decreases s.len(),
{
    if s.len() == 0 {
        0
    } else {
        count_where(s.drop_last(), p) + if p(s.last()) {
            1nat
        } else {
            0
        }
    }
}

/// In an ascending list the count is the size of the set of numbers with the
/// property.
pub proof fn count_is_size(s: Seq<u64>, p: spec_fn(u64) -> bool)
    requires
        rising(s),
    ensures
        s.to_set().filter(p).finite(),
        count_where(s, p) == s.to_set().filter(p).len(),
    decreases s.len(),
{
    if s.len() == 0 {
        assert(s.to_set().filter(p) =~= Set::<u64>::empty());
    } else {
        let t = s.drop_last();
        count_is_size(t, p);
        assert forall|x: u64| s.to_set().contains(x) <==> (t.to_set().contains(x) || x
            == s.last()) by {
            if s.contains(x) {
                let i = choose|i: int| 0 <= i < s.len() && s[i] == x;
                if i < t.len() {
                    assert(t[i] == x);
                }
            }
            if t.contains(x) {
                let i = choose|i: int| 0 <= i < t.len() && t[i] == x;
                assert(s[i] == x);
            }
            assert(s[s.len() - 1] == s.last());
        }
        assert(!t.contains(s.last())) by {
            if t.contains(s.last()) {
                let i = choose|i: int| 0 <= i < t.len() && t[i] == s.last();
                assert(s[i] < s[s.len() - 1]);
            }
        }
        if p(s.last()) {
            assert(s.to_set().filter(p) =~= t.to_set().filter(p).insert(s.last()));
        } else {
            assert(s.to_set().filter(p) =~= t.to_set().filter(p));
        }
    }
}

/// A set of sequence numbers.
#[derive(Debug)]
pub struct SeqSet {
    items: Vec<u64>,
}

impl View for SeqSet {
    type V = Set<u64>;

    closed spec fn view(&self) -> Set<u64> {
        self.items@.to_set()
    }
}

impl SeqSet {
    /// The numbers in ascending order.
    pub closed spec fn list(&self) -> Seq<u64> {
        self.items@
    }

    /// The list is ascending.
    pub closed spec fn wf(&self) -> bool {
        rising(self.items@)
    }

    /// The list holds the set, in ascending order.
    pub proof fn list_is_set(&self)
        requires
            self.wf(),
        ensures
            rising(self.list()),
            self.list().to_set() == self@,
            self@.finite(),
            self@.len() == self.list().len(),
    {
        rising_len(self.items@);
    }

    /// The empty set.
    pub fn new() -> (r: SeqSet)
        ensures
            r.wf(),
            r@ == Set::<u64>::empty(),
            r.list() == Seq::<u64>::empty(),
    {
        let r = SeqSet { items: Vec::new() };
        assert(r@ =~= Set::<u64>::empty());
        r
    }

    fn position(&self, x: u64) -> (r: usize)
        requires
            self.wf(),
        ensures
            r <= self.items@.len(),
            forall|j: int| 0 <= j < r ==> #[trigger] self.items@[j] < x,
            forall|j: int| r <= j < self.items@.len() ==> x <= #[trigger] self.items@[j],
    {
        let mut lo: usize = 0;
        let mut hi: usize = self.items.len();
        while lo < hi
            invariant
                self.wf(),
                lo <= hi <= self.items@.len(),
                forall|j: int| 0 <= j < lo ==> #[trigger] self.items@[j] < x,
                forall|j: int| hi <= j < self.items@.len() ==> x <= #[trigger] self.items@[j],
            decreases hi - lo,
        {
            let mid: usize = lo + (hi - lo) / 2;
            if self.items[mid] < x {
                lo = mid + 1;
            } else {
                hi = mid;
            }
        }
        lo
    }

    /// Whether `x` is in the set.
    pub fn contains(&self, x: u64) -> (r: bool)
        requires
            self.wf(),
        ensures
            r == self@.contains(x),
    {
        let i: usize = self.position(x);
        if i < self.items.len() && self.items[i] == x {
            assert(self.items@.contains(x));
            true
        } else {
            assert(!self.items@.contains(x));
            false
        }
    }

    /// Adds `x`, and says whether it is new.
    pub fn insert(&mut self, x: u64) -> (r: bool)
        requires
            old(self).wf(),
        ensures
            final(self).wf(),
            final(self)@ == old(self)@.insert(x),
            r == !old(self)@.contains(x),
    {
        let i: usize = self.position(x);
        let ghost s = self.items@;
        if i < self.items.len() && self.items[i] == x {
            assert(s.contains(x));
            assert(self@ =~= self@.insert(x));
            false
        } else {
            assert(!s.contains(x));
            self.items.insert(i, x);
            proof {
                let t = self.items@;
                assert forall|y: u64| t.to_set().contains(y) <==> s.to_set().insert(x).contains(
                    y,
                ) by {
                    if t.contains(y) {
                        let j = choose|j: int| 0 <= j < t.len() && t[j] == y;
                        if j < i {
                            assert(s[j] == y);
                        } else if j > i {
                            assert(s[j - 1] == y);
                        }
                    }
                    if s.contains(y) {
                        let j = choose|j: int| 0 <= j < s.len() && s[j] == y;
                        if j < i {
                            assert(t[j] == y);
                        } else {
                            assert(t[j + 1] == y);
                        }
                    }
                    assert(t[i as int] == x);
                }
                assert(t.to_set() =~= s.to_set().insert(x));
            }
            true
        }
    }

    /// Takes the smallest number out.
    pub fn pop_first(&mut self) -> (r: Option<u64>)
        requires
            old(self).wf(),
        ensures
            final(self).wf(),
            match r {
                Some(x) => {
                    &&& old(self)@.contains(x)
                    &&& forall|y: u64| old(self)@.contains(y) ==> x <= y
                    &&& final(self)@ == old(self)@.remove(x)
                    &&& final(self).list().len() + 1 == old(self).list().len()
                },
                None => {
                    &&& old(self)@ == Set::<u64>::empty()
                    &&& *final(self) == *old(self)
                },
            },
    {
        if self.items.len() == 0 {
            assert(self@ =~= Set::<u64>::empty());
            return None;
        }
        let ghost s = self.items@;
        let x: u64 = self.items.remove(0);
        proof {
            let t = self.items@;
            assert(s[0] == x);
            assert(s.contains(x));
            assert forall|y: u64| t.to_set().contains(y) <==> s.to_set().remove(x).contains(y) by {
                if t.contains(y) {
                    let j = choose|j: int| 0 <= j < t.len() && t[j] == y;
                    assert(s[j + 1] == y);
                }
                if s.contains(y) && y != x {
                    let j = choose|j: int| 0 <= j < s.len() && s[j] == y;
                    assert(t[j - 1] == y);
                }
            }
            assert(t.to_set() =~= s.to_set().remove(x));
            assert forall|y: u64| s.to_set().contains(y) implies x <= y by {
                let j = choose|j: int| 0 <= j < s.len() && s[j] == y;
            }
        }
        Some(x)
    }

    /// The numbers in ascending order.
    pub fn into_list(self) -> (r: Vec<u64>)
        requires
            self.wf(),
        ensures
            rising(r@),
            r@.to_set() == self@,
    {
        self.items
    }
}

/// A map from sequence numbers.
#[derive(Debug)]
pub struct SeqMap<V> {
    items: Vec<(u64, V)>,
}

/// The keys of a list of pairs.
pub open spec fn keys_of<V>(s: Seq<(u64, V)>) -> Seq<u64> {
    s.map_values(|p: (u64, V)| p.0)
}

impl<V> View for SeqMap<V> {
    type V = Map<u64, V>;

    closed spec fn view(&self) -> Map<u64, V> {
        Map::new(
            |k: u64| keys_of(self.items@).contains(k),
            |k: u64| self.items@[keys_of(self.items@).index_of(k)].1,
        )
    }
}

impl<V> SeqMap<V> {
    /// The pairs in ascending order of their keys.
    pub closed spec fn pairs(&self) -> Seq<(u64, V)> {
        self.items@
    }

    /// The keys are ascending.
    pub closed spec fn wf(&self) -> bool {
        rising(keys_of(self.items@))
    }

    /// A pair of the list is a pair of the map.
    pub proof fn pair_in_map(&self, i: int)
        requires
            self.wf(),
            0 <= i < self.pairs().len(),
        ensures
            self@.contains_key(self.pairs()[i].0),
            self@[self.pairs()[i].0] == self.pairs()[i].1,
    {
        let ks = keys_of(self.items@);
        assert(ks[i] == self.items@[i].0);
        assert(ks.contains(ks[i]));
        let j = ks.index_of(ks[i]);
        assert(ks[j] == ks[i]);
        assert(i == j) by {
            if i < j {
                assert(ks[i] < ks[j]);
            }
            if j < i {
                assert(ks[j] < ks[i]);
            }
        }
    }

    /// A key of the map is in the list.
    pub proof fn key_in_list(&self, k: u64) -> (i: int)
        requires
            self.wf(),
            self@.contains_key(k),
        ensures
            0 <= i < self.pairs().len(),
            self.pairs()[i].0 == k,
            self.pairs()[i].1 == self@[k],
    {
        let ks = keys_of(self.items@);
        ks.index_of(k)
    }

    /// The keys of the list are ascending and are the keys of the map.
    pub proof fn keys_are_domain(&self)
        requires
            self.wf(),
        ensures
            rising(keys_of(self.pairs())),
            keys_of(self.pairs()).to_set() == self@.dom(),
    {
        assert(keys_of(self.items@).to_set() =~= self@.dom());
    }

    /// The empty map.
    pub fn new() -> (r: SeqMap<V>)
        ensures
            r.wf(),
            r@ == Map::<u64, V>::empty(),
    {
        let r = SeqMap { items: Vec::new() };
        assert(r@ =~= Map::<u64, V>::empty());
        r
    }

    /// The number of pairs.
    pub fn len(&self) -> (r: usize)
        ensures
            r == self.pairs().len(),
    {
        self.items.len()
    }

    /// The pair at a place of the list.
    pub fn at(&self, i: usize) -> (r: &(u64, V))
        requires
            i < self.pairs().len(),
        ensures
            *r == self.pairs()[i as int],
    {
        &self.items[i]
    }

    fn position(&self, x: u64) -> (r: usize)
        requires
            self.wf(),
        ensures
            r <= self.items@.len(),
            forall|j: int| 0 <= j < r ==> #[trigger] keys_of(self.items@)[j] < x,
            forall|j: int|
                r <= j < self.items@.len() ==> x <= #[trigger] keys_of(self.items@)[j],
    {
        let mut lo: usize = 0;
        let mut hi: usize = self.items.len();
        while lo < hi
            invariant
                self.wf(),
                lo <= hi <= self.items@.len(),
                forall|j: int| 0 <= j < lo ==> #[trigger] keys_of(self.items@)[j] < x,
                forall|j: int|
                    hi <= j < self.items@.len() ==> x <= #[trigger] keys_of(self.items@)[j],
            decreases hi - lo,
        {
            let mid: usize = lo + (hi - lo) / 2;
            assert(keys_of(self.items@)[mid as int] == self.items@[mid as int].0);
            if self.items[mid].0 < x {
                lo = mid + 1;
            } else {
                hi = mid;
            }
        }
        lo
    }

    /// Whether there is a value for `k`.
    pub fn contains_key(&self, k: u64) -> (r: bool)
        requires
            self.wf(),
        ensures
            r == self@.contains_key(k),
    {
        self.get(k).is_some()
    }

    /// The value for `k`.
    pub fn get(&self, k: u64) -> (r: Option<&V>)
        requires
            self.wf(),
        ensures
            match r {
                Some(v) => self@.contains_key(k) && *v == self@[k],
                None => !self@.contains_key(k),
            },
    {
        let i: usize = self.position(k);
        if i < self.items.len() && self.items[i].0 == k {
            proof {
                self.pair_in_map(i as int);
            }
            Some(&self.items[i].1)
        } else {
            proof {
                let ks = keys_of(self.items@);
                if i < ks.len() {
                    assert(ks[i as int] == self.items@[i as int].0);
                }
                assert(!ks.contains(k));
            }
            None
        }
    }

    /// Sets the value for `k`.
    pub fn insert(&mut self, k: u64, v: V)
        requires
            old(self).wf(),
        ensures
            final(self).wf(),
            final(self)@ == old(self)@.insert(k, v),
    {
        let i: usize = self.position(k);
        let ghost s = self.items@;
        let ghost ks = keys_of(s);
        if i < self.items.len() && self.items[i].0 == k {
            self.items.set(i, (k, v));
            proof {
                let t = self.items@;
                assert(keys_of(t) =~= ks);
                assert forall|x: u64| keys_of(t).contains(x) implies self@[x] == old(self)@.insert(
                    k,
                    v,
                )[x] by {
                    let j = self.key_in_list(x);
                    old(self).pair_in_map(j);
                    if j < i {
                        assert(ks[j] < ks[i as int]);
                    } else if j > i {
                        assert(ks[i as int] < ks[j]);
                    }
                }
                self.pair_in_map(i as int);
                old(self).pair_in_map(i as int);
                assert(self@ =~= old(self)@.insert(k, v));
            }
        } else {
            proof {
                if i < ks.len() {
                    assert(ks[i as int] == s[i as int].0);
                }
            }
            self.items.insert(i, (k, v));
            proof {
                let t = self.items@;
                let kt = keys_of(t);
                assert(kt =~= ks.insert(i as int, k));
                assert(self.wf());
                assert forall|x: u64| kt.contains(x) <==> (x == k || ks.contains(x)) by {
                    if kt.contains(x) {
                        let j = choose|j: int| 0 <= j < kt.len() && kt[j] == x;
                        if j < i {
                            assert(ks[j] == x);
                        } else if j > i {
                            assert(ks[j - 1] == x);
                        }
                    }
                    if ks.contains(x) {
                        let j = choose|j: int| 0 <= j < ks.len() && ks[j] == x;
                        if j < i {
                            assert(kt[j] == x);
                        } else {
                            assert(kt[j + 1] == x);
                        }
                    }
                    assert(kt[i as int] == k);
                }
                assert forall|x: u64| kt.contains(x) implies self@[x] == old(self)@.insert(
                    k,
                    v,
                )[x] by {
                    let j = self.key_in_list(x);
                    if j < i {
                        old(self).pair_in_map(j);
                    } else if j > i {
                        old(self).pair_in_map(j - 1);
                    }
                    assert(!ks.contains(k)) by {
                        if ks.contains(k) {
                            let m = choose|m: int| 0 <= m < ks.len() && ks[m] == k;
                            assert(s[m].0 == k);
                        }
                    }
                }
                assert(self@ =~= old(self)@.insert(k, v));
            }
        }
    }

    /// Takes out the pair with the smallest key.
    pub fn remove_first(&mut self)
        requires
            old(self).wf(),
            old(self).pairs().len() > 0,
        ensures
            final(self).wf(),
            final(self)@ == old(self)@.remove(old(self).pairs()[0].0),
            final(self).pairs().len() + 1 == old(self).pairs().len(),
    {
        let k: u64 = self.items[0].0;
        proof {
            self.pair_in_map(0);
        }
        let _ = self.remove(k);
    }

    /// Takes out the value for `k`.
    pub fn remove(&mut self, k: u64) -> (r: Option<V>)
        requires
            old(self).wf(),
        ensures
            final(self).wf(),
            final(self)@ == old(self)@.remove(k),
            match r {
                Some(v) => old(self)@.contains_key(k) && v == old(self)@[k],
                None => !old(self)@.contains_key(k),
            },
            r is Some ==> final(self).pairs().len() + 1 == old(self).pairs().len(),
    {
        let i: usize = self.position(k);
        let ghost s = self.items@;
        let ghost ks = keys_of(s);
        if i < self.items.len() && self.items[i].0 == k {
            let p = self.items.remove(i);
            proof {
                let t = self.items@;
                let kt = keys_of(t);
                assert(kt =~= ks.remove(i as int));
                assert(self.wf());
                old(self).pair_in_map(i as int);
                assert forall|x: u64| kt.contains(x) <==> (x != k && ks.contains(x)) by {
                    if kt.contains(x) {
                        let j = choose|j: int| 0 <= j < kt.len() && kt[j] == x;
                        if j < i {
                            assert(ks[j] == x);
                            assert(ks[j] < ks[i as int]);
                        } else {
                            assert(ks[j + 1] == x);
                            assert(ks[i as int] < ks[j + 1]);
                        }
                    }
                    if ks.contains(x) && x != k {
                        let j = choose|j: int| 0 <= j < ks.len() && ks[j] == x;
                        if j < i {
                            assert(kt[j] == x);
                        } else {
                            assert(kt[j - 1] == x);
                        }
                    }
                }
                assert forall|x: u64| kt.contains(x) implies self@[x] == old(self)@.remove(
                    k,
                )[x] by {
                    let j = self.key_in_list(x);
                    if j < i {
                        old(self).pair_in_map(j);
                    } else {
                        old(self).pair_in_map(j + 1);
                    }
                }
                assert(self@ =~= old(self)@.remove(k));
            }
            Some(p.1)
        } else {
            proof {
                if i < ks.len() {
                    assert(ks[i as int] == s[i as int].0);
                }
                assert(!ks.contains(k));
                assert(self@ =~= self@.remove(k));
            }
            None
        }
    }
}

} // verus!
