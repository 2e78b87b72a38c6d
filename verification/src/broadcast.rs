//! Frames that are written once and shared by every reader who wants the same
//! parts of a record.
use std::sync::Arc;
use vstd::prelude::*;

verus! {

/// How many records have their frames at hand.
pub const RING_CAP: usize = 1024;

/// How many variants of a frame there are.
pub const N_VARIANTS: usize = 8;

/// Which parts of a record a frame holds.
#[derive(Debug, Clone, Copy, PartialEq, Eq, Structural)]
pub struct FrameVariant {
    pub include_data: bool,
    pub bits: u8,
}

/// The number of a variant: one bit each for data, tags and meta.
pub open spec fn variant_bits(data: bool, tags: bool, meta: bool) -> u8 {
    ((if data {
        1int
    } else {
        0
    }) + (if tags {
        2int
    } else {
        0
    }) + (if meta {
        4int
    } else {
        0
    })) as u8
}

impl FrameVariant {
    /// The variant is one of the eight.
    pub open spec fn wf(&self) -> bool {
        self.bits < N_VARIANTS
    }

    /// The variant with the parts asked for.
    pub fn new(include_data: bool, include_tags: bool, include_meta: bool) -> (r: FrameVariant)
        ensures
            r.wf(),
            r.include_data == include_data,
            r.bits == variant_bits(include_data, include_tags, include_meta),
    {
        let d: u8 = if include_data {
            1
        } else {
            0
        };
        let t: u8 = if include_tags {
            2
        } else {
            0
        };
        let m: u8 = if include_meta {
            4
        } else {
            0
        };
        FrameVariant { include_data, bits: d + t + m }
    }

    /// The place of the variant.
    pub fn idx(self) -> (r: usize)
        ensures
            r == self.bits,
    {
        self.bits as usize
    }
}

/// Different parts make different variants.
pub proof fn variants_differ(d1: bool, t1: bool, m1: bool, d2: bool, t2: bool, m2: bool)
    requires
        variant_bits(d1, t1, m1) == variant_bits(d2, t2, m2),
    ensures
        d1 == d2 && t1 == t2 && m1 == m2,
{
}

/// The frames of a record.
#[derive(Debug)]
pub struct CachedFrame {
    pub seq: u64,
    pub variants: Vec<Option<Arc<String>>>,
}

/// The frames of the latest records.
#[derive(Debug)]
pub struct BroadcastCache {
    pub ring: Vec<CachedFrame>,
}

/// The frame of a record in a variant.
pub open spec fn frame_in(
    ring: Seq<CachedFrame>,
    seq: u64,
    v: int,
) -> Option<Arc<String>> {
    if exists|i: int| 0 <= i < ring.len() && (#[trigger] ring[i]).seq == seq {
        let i = choose|i: int| 0 <= i < ring.len() && (#[trigger] ring[i]).seq == seq;
        ring[i].variants@[v]
    } else {
        None
    }
}

/// A record is in the ring.
pub open spec fn in_ring(ring: Seq<CachedFrame>, seq: u64) -> bool {
    exists|i: int| 0 <= i < ring.len() && (#[trigger] ring[i]).seq == seq
}

/// The record that goes when `seq` comes in: the lowest, where the ring is full and
/// `seq` is new to it.
pub open spec fn outgoing(ring: Seq<CachedFrame>, seq: u64) -> Option<u64> {
    if ring.len() < RING_CAP || in_ring(ring, seq) {
        None
    } else if ring[0].seq < seq {
        Some(ring[0].seq)
    } else {
        Some(seq)
    }
}

impl BroadcastCache {
    /// Records ascend, each has a place for every variant, and there are not too
    /// many.
    pub open spec fn wf(&self) -> bool {
        &&& self.ring@.len() <= RING_CAP
        &&& forall|i: int, j: int|
            0 <= i < j < self.ring@.len() ==> (#[trigger] self.ring@[i]).seq < (
            #[trigger] self.ring@[j]).seq
        &&& forall|i: int|
            0 <= i < self.ring@.len() ==> (#[trigger] self.ring@[i]).variants@.len() == N_VARIANTS
    }

    /// No frames.
    pub fn new() -> (r: BroadcastCache)
        ensures
            r.wf(),
            r.ring@.len() == 0,
    {
        BroadcastCache { ring: Vec::new() }
    }

    fn position(&self, seq: u64) -> (r: usize)
        requires
            self.wf(),
        ensures
            r <= self.ring@.len(),
            forall|j: int| 0 <= j < r ==> (#[trigger] self.ring@[j]).seq < seq,
            forall|j: int| r <= j < self.ring@.len() ==> seq <= (#[trigger] self.ring@[j]).seq,
    {
        let mut lo: usize = 0;
        let mut hi: usize = self.ring.len();
        while lo < hi
            invariant
                self.wf(),
                lo <= hi <= self.ring@.len(),
                forall|j: int| 0 <= j < lo ==> (#[trigger] self.ring@[j]).seq < seq,
                forall|j: int|
                    hi <= j < self.ring@.len() ==> seq <= (#[trigger] self.ring@[j]).seq,
            decreases hi - lo,
        {
            let mid: usize = lo + (hi - lo) / 2;
            if self.ring[mid].seq < seq {
                lo = mid + 1;
            } else {
                hi = mid;
            }
        }
        lo
    }

    /// The frame of a record, where it is at hand.
    pub fn lookup(&self, seq: u64, variant: FrameVariant) -> (r: Option<Arc<String>>)
        requires
            self.wf(),
            variant.wf(),
        ensures
            r == frame_in(self.ring@, seq, variant.bits as int),
    {
        let i: usize = self.position(seq);
        if i < self.ring.len() && self.ring[i].seq == seq {
            proof {
                let j = choose|j: int| 0 <= j < self.ring@.len() && (#[trigger] self.ring@[j]).seq
                    == seq;
                assert(self.ring@[i as int].seq == seq);
                assert(i == j);
            }
            match &self.ring[i].variants[variant.idx()] {
                Some(f) => Some(f.clone()),
                None => None,
            }
        } else {
            None
        }
    }

    /// The frame of a record: the one at hand, else the one given, which is kept at
    /// hand from then on. Where there are too many, the oldest record goes.
    pub fn frame(&mut self, seq: u64, variant: FrameVariant, fresh: Arc<String>) -> (r: Arc<String>)
        requires
            old(self).wf(),
            variant.wf(),
        ensures
            final(self).wf(),
            match frame_in(old(self).ring@, seq, variant.bits as int) {
                Some(f) => r == f && final(self).ring@ == old(self).ring@,
                None => {
                    &&& r == fresh
                    &&& forall|s: u64, v: int|
                        0 <= v < N_VARIANTS ==> #[trigger] frame_in(final(self).ring@, s, v) == (
                        if outgoing(old(self).ring@, seq) == Some(s) {
                            None
                        } else if s == seq && v == variant.bits {
                            Some(fresh)
                        } else {
                            frame_in(old(self).ring@, s, v)
                        })
                },
            },
    {
        match self.lookup(seq, variant) {
            Some(f) => {
                return f;
            },
            None => {},
        }
        let i: usize = self.position(seq);
        let v: usize = variant.idx();
        let ghost r0 = self.ring@;
        let kept = fresh.clone();
        if i < self.ring.len() && self.ring[i].seq == seq {
            let mut e = self.ring.remove(i);
            e.variants.set(v, Some(kept));
            self.ring.insert(i, e);
            proof {
                let r1 = self.ring@;
                assert(r1 =~= r0.update(i as int, e));
                place_in_ring(r1, seq, i as int);
                place_in_ring(r0, seq, i as int);
                assert(in_ring(r0, seq));
                assert forall|s: u64, w: int|
                    0 <= w < N_VARIANTS && (s, w) != (seq, v as int) implies #[trigger] frame_in(
                    r1,
                    s,
                    w,
                ) == frame_in(r0, s, w) by {
                    same_elsewhere(r0, r1, s);
                    if exists|k: int| 0 <= k < r0.len() && (#[trigger] r0[k]).seq == s {
                        let k = choose|k: int| 0 <= k < r0.len() && (#[trigger] r0[k]).seq == s;
                        place_in_ring(r0, s, k);
                        assert(r1[k].seq == s);
                        place_in_ring(r1, s, k);
                    }
                }
            }
            return fresh;
        }
        let mut variants: Vec<Option<Arc<String>>> = Vec::new();
        let mut k: usize = 0;
        while k < N_VARIANTS
            invariant
                k <= N_VARIANTS,
                v < N_VARIANTS,
                variants@.len() == k,
                forall|j: int|
                    0 <= j < k ==> #[trigger] variants@[j] == (if j == v {
                        Some(kept)
                    } else {
                        None
                    }),
            decreases N_VARIANTS - k,
        {
            if k == v {
                variants.push(Some(kept.clone()));
            } else {
                variants.push(None);
            }
            k += 1;
        }
        self.ring.insert(i, CachedFrame { seq, variants });
        let ghost r1 = self.ring@;
        proof {
            let e = r1[i as int];
            assert(r1 =~= r0.insert(i as int, e));
            assert forall|a: int, b: int| 0 <= a < b < r1.len() implies (#[trigger] r1[a]).seq < (
            #[trigger] r1[b]).seq by {
                let x = if a < i {
                    a
                } else {
                    a - 1
                };
                let y = if b < i {
                    b
                } else {
                    b - 1
                };
                if a == i {
                    assert(r1[b] == r0[y]);
                } else if b == i {
                    assert(r1[a] == r0[x]);
                } else {
                    assert(r1[a] == r0[x] && r1[b] == r0[y]);
                }
            }
            place_in_ring(r1, seq, i as int);
            assert(!in_ring(r0, seq));
            assert forall|s: u64, w: int|
                0 <= w < N_VARIANTS && (s, w) != (seq, v as int) implies #[trigger] frame_in(
                r1,
                s,
                w,
            ) == frame_in(r0, s, w) by {
                if in_ring(r0, s) {
                    let m = choose|m: int| 0 <= m < r0.len() && (#[trigger] r0[m]).seq == s;
                    place_in_ring(r0, s, m);
                    let m2 = if m < i {
                        m
                    } else {
                        m + 1
                    };
                    assert(r1[m2] == r0[m]);
                    place_in_ring(r1, s, m2);
                } else if in_ring(r1, s) {
                    let m = choose|m: int| 0 <= m < r1.len() && (#[trigger] r1[m]).seq == s;
                    if m != i {
                        let m0 = if m < i {
                            m
                        } else {
                            m - 1
                        };
                        assert(r0[m0] == r1[m]);
                    }
                    place_in_ring(r1, s, m);
                }
            }
        }
        if self.ring.len() > RING_CAP {
            let _ = self.ring.remove(0);
            proof {
                assert(self.ring@ =~= r1.remove(0));
                first_goes(r1);
                if i > 0 {
                    assert(r1[0] == r0[0]);
                } else {
                    assert(r1[1] == r0[0]);
                }
            }
        }
        fresh
    }
}

proof fn place_in_ring(ring: Seq<CachedFrame>, seq: u64, i: int)
    requires
        forall|a: int, b: int|
            0 <= a < b < ring.len() ==> (#[trigger] ring[a]).seq < (#[trigger] ring[b]).seq,
        0 <= i < ring.len(),
        ring[i].seq == seq,
    ensures
        forall|v: int| #[trigger] frame_in(ring, seq, v) == ring[i].variants@[v],
{
    let j = choose|j: int| 0 <= j < ring.len() && (#[trigger] ring[j]).seq == seq;
    assert(0 <= j < ring.len() && ring[j].seq == seq);
    assert(i == j);
}

/// Without its first record a ring has all frames but those of that record.
proof fn first_goes(ring: Seq<CachedFrame>)
    requires
        ring.len() > 0,
        forall|a: int, b: int|
            0 <= a < b < ring.len() ==> (#[trigger] ring[a]).seq < (#[trigger] ring[b]).seq,
    ensures
        forall|s: u64, v: int| #[trigger]
            frame_in(ring.remove(0), s, v) == (if s == ring[0].seq {
                None
            } else {
                frame_in(ring, s, v)
            }),
{
    let rest = ring.remove(0);
    assert forall|s: u64, v: int| #[trigger]
        frame_in(rest, s, v) == (if s == ring[0].seq {
            None
        } else {
            frame_in(ring, s, v)
        }) by {
        if in_ring(rest, s) {
            let m = choose|m: int| 0 <= m < rest.len() && (#[trigger] rest[m]).seq == s;
            assert(rest[m] == ring[m + 1]);
            place_in_ring(rest, s, m);
            place_in_ring(ring, s, m + 1);
        } else if in_ring(ring, s) {
            let m = choose|m: int| 0 <= m < ring.len() && (#[trigger] ring[m]).seq == s;
            if m > 0 {
                assert(rest[m - 1] == ring[m]);
            }
        }
    }
}

/// Rings with the same numbers hold the same records.
proof fn same_elsewhere(r0: Seq<CachedFrame>, r1: Seq<CachedFrame>, s: u64)
    requires
        r0.len() == r1.len(),
        forall|k: int| 0 <= k < r0.len() ==> (#[trigger] r0[k]).seq == r1[k].seq,
    ensures
        (exists|k: int| 0 <= k < r0.len() && (#[trigger] r0[k]).seq == s) <==> (exists|k: int|
            0 <= k < r1.len() && (#[trigger] r1[k]).seq == s),
{
    if exists|k: int| 0 <= k < r1.len() && (#[trigger] r1[k]).seq == s {
        let k = choose|k: int| 0 <= k < r1.len() && (#[trigger] r1[k]).seq == s;
        assert(r0[k].seq == s);
    }
    if exists|k: int| 0 <= k < r0.len() && (#[trigger] r0[k]).seq == s {
        let k = choose|k: int| 0 <= k < r0.len() && (#[trigger] r0[k]).seq == s;
        assert(r1[k].seq == s);
    }
}

} // verus!
