//! The topics by name: an index from names to places, and the topics in their places.
use crate::names::{in_order, in_order_is, take_one_more};
use crate::text::{ascending, insert_name, texts};
use crate::topic_state::TopicState;
use vstd::prelude::*;

verus! {

/// `dashmap::DashMap`. Nothing inside it is visible; what it holds is given by
/// [`held`]. Only the functions of this file touch one, and those that change it take
/// it by `&mut`, so that nothing changes it while it is shared.
#[verifier::external_type_specification]
#[verifier::external_body]
#[verifier::reject_recursive_types(K)]
#[verifier::reject_recursive_types(V)]
#[verifier::reject_recursive_types(S)]
pub struct ExDashMap<K, V, S>(dashmap::DashMap<K, V, S>);

/// What an index holds: a place for each of its names.
pub uninterp spec fn held(index: dashmap::DashMap<String, u64>) -> Map<Seq<char>, u64>;

/// `dashmap::DashMap::new`: holds nothing.
#[verifier::external_body]
fn new_index() -> (r: dashmap::DashMap<String, u64>)
    ensures
        held(r).dom() == Set::<Seq<char>>::empty(),
{
    dashmap::DashMap::new()
}

/// `dashmap::DashMap::get`: the place for a name, copied out, so that no lock
/// outlives the call.
#[verifier::external_body]
fn index_get(index: &dashmap::DashMap<String, u64>, name: &str) -> (r: Option<u64>)
    ensures
        r == (if held(*index).contains_key(name@) {
            Some(held(*index)[name@])
        } else {
            None
        }),
{
    index.get(name).map(|e| *e.value())
}

/// `dashmap::DashMap::insert`: sets the place for a name, and changes no other.
#[verifier::external_body]
fn index_insert(index: &mut dashmap::DashMap<String, u64>, name: String, place: u64)
    ensures
        held(*final(index)) == held(*old(index)).insert(name@, place),
{
    index.insert(name, place);
}

/// `dashmap::DashMap::remove`: takes a name out, with its place, and changes no other.
#[verifier::external_body]
fn index_remove(index: &mut dashmap::DashMap<String, u64>, name: &str) -> (r: Option<u64>)
    ensures
        held(*final(index)) == held(*old(index)).remove(name@),
        r == (if held(*old(index)).contains_key(name@) {
            Some(held(*old(index))[name@])
        } else {
            None
        }),
{
    index.remove(name).map(|e| e.1)
}

/// The topics by name.
#[derive(Debug)]
pub struct Registry {
    index: dashmap::DashMap<String, u64>,
    slots: Vec<TopicState>,
}

/// The names of topics.
pub open spec fn topic_names(slots: Seq<TopicState>) -> Seq<Seq<char>> {
    slots.map_values(|t: TopicState| t.name@)
}

impl View for Registry {
    type V = Map<Seq<char>, TopicState>;

    closed spec fn view(&self) -> Map<Seq<char>, TopicState> {
        Map::new(
            |n: Seq<char>| held(self.index).contains_key(n),
            |n: Seq<char>| self.slots@[held(self.index)[n] as int],
        )
    }
}

impl Registry {
    /// The index leads from each name to the place of the topic with that name, and
    /// from no other name anywhere.
    pub closed spec fn wf(&self) -> bool {
        &&& forall|n: Seq<char>| #[trigger]
            held(self.index).contains_key(n) ==> held(self.index)[n] < self.slots@.len()
                && self.slots@[held(self.index)[n] as int].name@ == n
        &&& forall|i: int|
            0 <= i < self.slots@.len() ==> held(self.index).contains_key(
                (#[trigger] self.slots@[i]).name@,
            ) && held(self.index)[self.slots@[i].name@] == i
    }

    /// Each topic stands under its own name, and there are as many names as topics.
    pub proof fn wf_named(&self)
        requires
            self.wf(),
        ensures
            self@.dom().finite(),
            forall|n: Seq<char>| #[trigger] self@.contains_key(n) ==> self@[n].name@ == n,
    {
        self.names_are_domain();
    }

    proof fn names_are_domain(&self)
        requires
            self.wf(),
        ensures
            topic_names(self.slots@).no_duplicates(),
            topic_names(self.slots@).to_set() == self@.dom(),
            self@.dom().finite(),
            self@.dom().len() == self.slots@.len(),
    {
        let ks = topic_names(self.slots@);
        assert forall|i: int, j: int| 0 <= i < ks.len() && 0 <= j < ks.len() && i != j implies ks[i]
            != ks[j] by {
            assert(ks[i] == self.slots@[i].name@ && ks[j] == self.slots@[j].name@);
        }
        assert forall|n: Seq<char>| ks.to_set().contains(n) <==> self@.dom().contains(n) by {
            if ks.contains(n) {
                let i = choose|i: int| 0 <= i < ks.len() && ks[i] == n;
                assert(self.slots@[i].name@ == n);
            }
            if self@.contains_key(n) {
                let i = held(self.index)[n] as int;
                assert(ks[i] == n);
            }
        }
        assert(ks.to_set() =~= self@.dom());
        ks.unique_seq_to_set();
        vstd::seq_lib::seq_to_set_is_finite(ks);
    }

    /// No topics.
    pub fn new() -> (r: Registry)
        ensures
            r.wf(),
            r@ == Map::<Seq<char>, TopicState>::empty(),
    {
        let r = Registry { index: new_index(), slots: Vec::new() };
        assert(r@ =~= Map::<Seq<char>, TopicState>::empty());
        r
    }

    /// The number of topics.
    pub fn len(&self) -> (r: usize)
        requires
            self.wf(),
        ensures
            r == self@.dom().len(),
    {
        proof {
            self.names_are_domain();
        }
        self.slots.len()
    }

    /// Whether there is a topic of that name.
    pub fn contains_key(&self, name: &str) -> (r: bool)
        requires
            self.wf(),
        ensures
            r == self@.contains_key(name@),
    {
        index_get(&self.index, name).is_some()
    }

    /// The topic of that name.
    pub fn get(&self, name: &str) -> (r: Option<&TopicState>)
        requires
            self.wf(),
        ensures
            match r {
                Some(t) => self@.contains_key(name@) && *t == self@[name@],
                None => !self@.contains_key(name@),
            },
    {
        match index_get(&self.index, name) {
            Some(i) => {
                assert(i < self.slots.len());
                Some(&self.slots[i as usize])
            },
            None => None,
        }
    }

    /// The names in ascending order.
    pub fn names(&self) -> (r: Vec<String>)
        requires
            self.wf(),
        ensures
            texts(r@) == in_order(self@.dom()),
            ascending(texts(r@)),
            texts(r@).to_set() == self@.dom(),
            forall|i: int| 0 <= i < r@.len() ==> self@.contains_key((#[trigger] r@[i])@),
    {
        let mut out: Vec<String> = Vec::new();
        let mut i: usize = 0;
        let ghost ks = topic_names(self.slots@);
        proof {
            self.names_are_domain();
        }
        while i < self.slots.len()
            invariant
                self.wf(),
                ks == topic_names(self.slots@),
                ks.no_duplicates(),
                i <= self.slots@.len(),
                ascending(texts(out@)),
                forall|n: Seq<char>| #[trigger]
                    texts(out@).contains(n) <==> ks.take(i as int).contains(n),
            decreases self.slots@.len() - i,
        {
            let ghost n = ks[i as int];
            proof {
                take_one_more(ks, i as int);
                if texts(out@).contains(n) {
                    let t = ks.take(i as int);
                    assert(t.contains(n));
                    let j = choose|j: int| 0 <= j < t.len() && t[j] == n;
                    assert(ks[j] == n);
                }
            }
            insert_name(&mut out, self.slots[i].name.clone());
            i += 1;
        }
        proof {
            assert(ks.take(i as int) =~= ks);
            let s = texts(out@);
            assert forall|n: Seq<char>| s.to_set().contains(n) <==> self@.dom().contains(n) by {
                assert(s.contains(n) <==> ks.contains(n));
                assert(ks.to_set().contains(n) <==> ks.contains(n));
            }
            assert(s.to_set() =~= self@.dom());
            in_order_is(s);
            assert forall|k: int| 0 <= k < out@.len() implies self@.contains_key(
                (#[trigger] out@[k])@,
            ) by {
                assert(s[k] == out@[k]@);
                assert(s.to_set().contains(s[k]));
            }
        }
        out
    }

    /// Puts a topic in, under its own name.
    pub fn insert(&mut self, t: TopicState)
        requires
            old(self).wf(),
        ensures
            final(self).wf(),
            final(self)@ == old(self)@.insert(t.name@, t),
    {
        let ghost name = t.name@;
        match index_get(&self.index, t.name.as_str()) {
            Some(i) => {
                self.slots.set(i as usize, t);
            },
            None => {
                let place: u64 = self.slots.len() as u64;
                index_insert(&mut self.index, t.name.clone(), place);
                self.slots.push(t);
            },
        }
        assert(self@ =~= old(self)@.insert(name, t));
    }

    /// Takes a topic out.
    pub fn remove(&mut self, name: &str) -> (r: Option<TopicState>)
        requires
            old(self).wf(),
        ensures
            final(self).wf(),
            final(self)@ == old(self)@.remove(name@),
            match r {
                Some(t) => old(self)@.contains_key(name@) && t == old(self)@[name@],
                None => !old(self)@.contains_key(name@),
            },
    {
        match index_remove(&mut self.index, name) {
            Some(place) => {
                let i: usize = place as usize;
                let last: usize = self.slots.len() - 1;
                let t = self.slots.swap_remove(i);
                if i < last {
                    index_insert(&mut self.index, self.slots[i].name.clone(), place);
                }
                assert(self@ =~= old(self)@.remove(name@));
                Some(t)
            },
            None => {
                assert(self@ =~= old(self)@.remove(name@));
                None
            },
        }
    }
}

} // verus!
