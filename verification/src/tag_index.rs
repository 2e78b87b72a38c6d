//! The index from tags to the sequence numbers of the records that carry them.
use crate::seqs::{rising, SeqSet};
use crate::text::text_eq;
use crate::types::Filter;
use vstd::prelude::*;

verus! {

/// One tag and its records, in ascending order.
#[derive(Debug)]
struct TagEntry {
    tag: String,
    seqs: Vec<u64>,
}

/// An index of records by tag. Its view is the set of pairs of a tag and the
/// sequence number of a record that carries it.
#[derive(Debug)]
pub struct TagIndex {
    entries: Vec<TagEntry>,
}

impl View for TagIndex {
    type V = Set<(Seq<char>, u64)>;

    closed spec fn view(&self) -> Set<(Seq<char>, u64)> {
        Set::new(
            |p: (Seq<char>, u64)|
                exists|i: int|
                    0 <= i < self.entries@.len() && (#[trigger] self.entries@[i]).tag@ == p.0
                        && self.entries@[i].seqs@.contains(p.1),
        )
    }
}

/// The numbers below `bound` that the index lists under a tag the filter selects.
pub open spec fn selected(
    pairs: Set<(Seq<char>, u64)>,
    filter: Filter,
    bound: u64,
) -> Set<u64> {
    Set::new(
        |s: u64| s < bound && exists|t: Seq<char>| #[trigger]
            pairs.contains((t, s)) && filter.selects(t),
    )
}

impl TagIndex {
    /// Each tag has one entry, with at least one number, ascending.
    pub closed spec fn wf(&self) -> bool {
        &&& forall|i: int, j: int|
            0 <= i < j < self.entries@.len() ==> (#[trigger] self.entries@[i]).tag@ != (
            #[trigger] self.entries@[j]).tag@
        &&& forall|i: int|
            0 <= i < self.entries@.len() ==> rising((#[trigger] self.entries@[i]).seqs@)
                && self.entries@[i].seqs@.len() > 0
    }

    /// The empty index.
    pub fn new() -> (r: TagIndex)
        ensures
            r.wf(),
            r@ == Set::<(Seq<char>, u64)>::empty(),
    {
        let r = TagIndex { entries: Vec::new() };
        assert(r@ =~= Set::<(Seq<char>, u64)>::empty());
        r
    }

    fn find(&self, tag: &str) -> (r: Option<usize>)
        requires
            self.wf(),
        ensures
            match r {
                Some(i) => i < self.entries@.len() && self.entries@[i as int].tag@ == tag@,
                None => forall|i: int|
                    0 <= i < self.entries@.len() ==> (#[trigger] self.entries@[i]).tag@ != tag@,
            },
    {
        let mut i: usize = 0;
        while i < self.entries.len()
            invariant
                i <= self.entries@.len(),
                forall|j: int| 0 <= j < i ==> (#[trigger] self.entries@[j]).tag@ != tag@,
            decreases self.entries@.len() - i,
        {
            if text_eq(self.entries[i].tag.as_str(), tag) {
                return Some(i);
            }
            i += 1;
        }
        None
    }

    /// Lists `seq` under `tag`. Numbers come in ascending order.
    pub fn index_tag(&mut self, seq: u64, tag: &str)
        requires
            old(self).wf(),
            forall|p: (Seq<char>, u64)| #[trigger] old(self)@.contains(p) ==> p.1 < seq,
        ensures
            final(self).wf(),
            final(self)@ == old(self)@.insert((tag@, seq)),
    {
        let ghost es = self.entries@;
        match self.find(tag) {
            Some(i) => {
                let mut e = self.entries.remove(i);
                let ghost s = e.seqs@;
                proof {
                    assert forall|j: int| 0 <= j < s.len() implies #[trigger] s[j] < seq by {
                        assert(s.contains(s[j]));
                        assert(es[i as int].tag@ == tag@);
                        assert(old(self)@.contains((tag@, s[j])));
                    }
                }
                e.seqs.push(seq);
                let ghost e2 = e;
                self.entries.insert(i, e);
                proof {
                    let fs = self.entries@;
                    assert(fs =~= es.update(i as int, e2));
                    assert(e2.seqs@ =~= s.push(seq));
                    assert(e2.tag@ == tag@);
                    assert(self.wf());
                    assert forall|p: (Seq<char>, u64)| self@.contains(p) <==> old(self)@.insert(
                        (tag@, seq),
                    ).contains(p) by {
                        if self@.contains(p) {
                            let j = choose|j: int|
                                0 <= j < fs.len() && (#[trigger] fs[j]).tag@ == p.0
                                    && fs[j].seqs@.contains(p.1);
                            if j != i {
                                assert(es[j] == fs[j]);
                            } else {
                                let k = choose|k: int|
                                    0 <= k < e2.seqs@.len() && e2.seqs@[k] == p.1;
                                if k < s.len() {
                                    assert(s[k] == p.1);
                                    assert(es[i as int].seqs@.contains(p.1));
                                }
                            }
                        }
                        if old(self)@.contains(p) {
                            let j = choose|j: int|
                                0 <= j < es.len() && (#[trigger] es[j]).tag@ == p.0
                                    && es[j].seqs@.contains(p.1);
                            if j == i {
                                let k = choose|k: int| 0 <= k < s.len() && s[k] == p.1;
                                assert(e2.seqs@[k] == p.1);
                            }
                            assert(fs[j].tag@ == p.0 && fs[j].seqs@.contains(p.1));
                        }
                        if p == (tag@, seq) {
                            assert(e2.seqs@[s.len() as int] == seq);
                            assert(fs[i as int].seqs@.contains(seq));
                        }
                    }
                    assert(self@ =~= old(self)@.insert((tag@, seq)));
                }
            },
            None => {
                let mut v: Vec<u64> = Vec::new();
                v.push(seq);
                self.entries.push(TagEntry { tag: tag.to_owned(), seqs: v });
                proof {
                    let fs = self.entries@;
                    let n = es.len() as int;
                    assert(fs[n].seqs@ =~= seq![seq]);
                    assert forall|j: int| 0 <= j < n implies fs[j] == es[j] by {}
                    assert(self.wf());
                    assert forall|p: (Seq<char>, u64)| self@.contains(p) <==> old(self)@.insert(
                        (tag@, seq),
                    ).contains(p) by {
                        if self@.contains(p) {
                            let j = choose|j: int|
                                0 <= j < fs.len() && (#[trigger] fs[j]).tag@ == p.0
                                    && fs[j].seqs@.contains(p.1);
                            if j < n {
                                assert(es[j].tag@ == p.0 && es[j].seqs@.contains(p.1));
                            }
                        }
                        if old(self)@.contains(p) {
                            let j = choose|j: int|
                                0 <= j < es.len() && (#[trigger] es[j]).tag@ == p.0
                                    && es[j].seqs@.contains(p.1);
                            assert(fs[j].tag@ == p.0 && fs[j].seqs@.contains(p.1));
                        }
                        if p == (tag@, seq) {
                            assert(fs[n].seqs@[0] == seq);
                            assert(fs[n].tag@ == p.0 && fs[n].seqs@.contains(seq));
                        }
                    }
                    assert(self@ =~= old(self)@.insert((tag@, seq)));
                }
            },
        }
    }

    /// Takes `seq` out from under `tag`.
    pub fn unindex_tag(&mut self, tag: &str, seq: u64)
        requires
            old(self).wf(),
        ensures
            final(self).wf(),
            final(self)@ == old(self)@.remove((tag@, seq)),
    {
        let ghost es = self.entries@;
        match self.find(tag) {
            Some(i) => {
                let mut e = self.entries.remove(i);
                let ghost s = e.seqs@;
                let mut k: usize = 0;
                while k < e.seqs.len() && e.seqs[k] != seq
                    invariant
                        k <= e.seqs@.len(),
                        e.seqs@ == s,
                        forall|j: int| 0 <= j < k ==> #[trigger] s[j] != seq,
                    decreases s.len() - k,
                {
                    k += 1;
                }
                if k < e.seqs.len() {
                    let _ = e.seqs.remove(k);
                }
                let ghost t = e.seqs@;
                proof {
                    if k < s.len() {
                        assert(t =~= s.remove(k as int));
                    } else {
                        assert(t =~= s);
                    }
                    assert(rising(t)) by {
                        assert(rising(es[i as int].seqs@));
                    }
                    assert forall|x: u64| t.contains(x) <==> (s.contains(x) && x != seq) by {
                        if t.contains(x) {
                            let j = choose|j: int| 0 <= j < t.len() && t[j] == x;
                            if k < s.len() && j >= k {
                                assert(s[j + 1] == x);
                                assert(s[k as int] < s[j + 1]);
                            } else {
                                assert(s[j] == x);
                            }
                        }
                        if s.contains(x) && x != seq {
                            let j = choose|j: int| 0 <= j < s.len() && s[j] == x;
                            if k < s.len() && j > k {
                                assert(t[j - 1] == x);
                            } else {
                                assert(t[j] == x);
                            }
                        }
                    }
                }
                let ghost e2 = e;
                if e.seqs.len() > 0 {
                    self.entries.insert(i, e);
                    proof {
                        let fs = self.entries@;
                        assert(fs =~= es.update(i as int, e2));
                        assert(self.wf());
                        assert forall|p: (Seq<char>, u64)|
                            self@.contains(p) <==> old(self)@.remove((tag@, seq)).contains(p) by {
                            if self@.contains(p) {
                                let j = choose|j: int|
                                    0 <= j < fs.len() && (#[trigger] fs[j]).tag@ == p.0
                                        && fs[j].seqs@.contains(p.1);
                                assert(es[j].tag@ == p.0 && es[j].seqs@.contains(p.1));
                            }
                            if old(self)@.remove((tag@, seq)).contains(p) {
                                let j = choose|j: int|
                                    0 <= j < es.len() && (#[trigger] es[j]).tag@ == p.0
                                        && es[j].seqs@.contains(p.1);
                                assert(fs[j].tag@ == p.0 && fs[j].seqs@.contains(p.1));
                            }
                        }
                        assert(self@ =~= old(self)@.remove((tag@, seq)));
                    }
                } else {
                    proof {
                        let fs = self.entries@;
                        assert(fs =~= es.remove(i as int));
                        assert forall|j: int| 0 <= j < fs.len() implies fs[j] == es[if j < i {
                            j
                        } else {
                            j + 1
                        }] by {}
                        assert(self.wf());
                        assert forall|p: (Seq<char>, u64)|
                            self@.contains(p) <==> old(self)@.remove((tag@, seq)).contains(p) by {
                            if self@.contains(p) {
                                let j = choose|j: int|
                                    0 <= j < fs.len() && (#[trigger] fs[j]).tag@ == p.0
                                        && fs[j].seqs@.contains(p.1);
                                let m = if j < i {
                                    j
                                } else {
                                    j + 1
                                };
                                assert(es[m].tag@ == p.0 && es[m].seqs@.contains(p.1));
                                assert(es[m].tag@ != es[i as int].tag@) by {
                                    if m < i {
                                        assert(es[m].tag@ != es[i as int].tag@);
                                    } else {
                                        assert(es[i as int].tag@ != es[m].tag@);
                                    }
                                }
                            }
                            if old(self)@.remove((tag@, seq)).contains(p) {
                                let j = choose|j: int|
                                    0 <= j < es.len() && (#[trigger] es[j]).tag@ == p.0
                                        && es[j].seqs@.contains(p.1);
                                if j == i {
                                    assert(t.contains(p.1));
                                }
                                let m = if j < i {
                                    j
                                } else {
                                    j - 1
                                };
                                assert(fs[m].tag@ == p.0 && fs[m].seqs@.contains(p.1));
                            }
                        }
                        assert(self@ =~= old(self)@.remove((tag@, seq)));
                    }
                }
            },
            None => {
                proof {
                    assert(!self@.contains((tag@, seq)));
                    assert(self@ =~= old(self)@.remove((tag@, seq)));
                }
            },
        }
    }

    /// The numbers below `bound` under the tags that `filter` selects, ascending.
    pub fn select(&self, filter: &Filter, bound: u64) -> (r: Vec<u64>)
        requires
            self.wf(),
        ensures
            rising(r@),
            r@.to_set() == selected(self@, *filter, bound),
    {
        let mut out = SeqSet::new();
        let mut i: usize = 0;
        while i < self.entries.len()
            invariant
                self.wf(),
                i <= self.entries@.len(),
                out.wf(),
                forall|s: u64| #[trigger]
                    out@.contains(s) <==> s < bound && exists|k: int|
                        0 <= k < i && filter.selects((#[trigger] self.entries@[k]).tag@)
                            && self.entries@[k].seqs@.contains(s),
            decreases self.entries@.len() - i,
        {
            let ghost before = out@;
            let e = &self.entries[i];
            if filter.matches(e.tag.as_str()) {
                let mut j: usize = 0;
                while j < e.seqs.len()
                    invariant
                        j <= e.seqs@.len(),
                        out.wf(),
                        forall|s: u64| #[trigger]
                            out@.contains(s) <==> before.contains(s) || (s < bound
                                && e.seqs@.take(j as int).contains(s)),
                    decreases e.seqs@.len() - j,
                {
                    let s = e.seqs[j];
                    proof {
                        let a = e.seqs@.take(j as int);
                        let b = e.seqs@.take(j + 1);
                        assert(b =~= a.push(s));
                        assert forall|x: u64| b.contains(x) <==> a.contains(x) || x == s by {
                            if a.contains(x) {
                                let m = choose|m: int| 0 <= m < a.len() && a[m] == x;
                                assert(b[m] == x);
                            }
                            assert(b[j as int] == s);
                        }
                    }
                    if s < bound {
                        let _ = out.insert(s);
                    }
                    j += 1;
                }
                assert(e.seqs@.take(j as int) =~= e.seqs@);
            }
            proof {
                assert forall|s: u64| #[trigger] out@.contains(s) <==> s < bound && exists|k: int|
                    0 <= k < i + 1 && filter.selects((#[trigger] self.entries@[k]).tag@)
                        && self.entries@[k].seqs@.contains(s) by {
                    if out@.contains(s) && !before.contains(s) {
                        assert(filter.selects(self.entries@[i as int].tag@));
                    }
                    if exists|k: int|
                        0 <= k < i + 1 && filter.selects((#[trigger] self.entries@[k]).tag@)
                            && self.entries@[k].seqs@.contains(s) {
                        let k = choose|k: int|
                            0 <= k < i + 1 && filter.selects((#[trigger] self.entries@[k]).tag@)
                                && self.entries@[k].seqs@.contains(s);
                        if k < i && s < bound {
                            assert(before.contains(s));
                        }
                    }
                }
            }
            i += 1;
        }
        proof {
            assert forall|s: u64| out@.contains(s) <==> selected(
                self@,
                *filter,
                bound,
            ).contains(s) by {
                if out@.contains(s) {
                    let k = choose|k: int|
                        0 <= k < i && filter.selects((#[trigger] self.entries@[k]).tag@)
                            && self.entries@[k].seqs@.contains(s);
                    assert(self@.contains((self.entries@[k].tag@, s)));
                }
                if selected(self@, *filter, bound).contains(s) {
                    let t = choose|t: Seq<char>| #[trigger]
                        self@.contains((t, s)) && filter.selects(t);
                    let k = choose|k: int|
                        0 <= k < self.entries@.len() && (#[trigger] self.entries@[k]).tag@ == t
                            && self.entries@[k].seqs@.contains(s);
                    assert(filter.selects(self.entries@[k].tag@));
                }
            }
            assert(out@ =~= selected(self@, *filter, bound));
        }
        out.into_list()
    }
}

} // verus!
