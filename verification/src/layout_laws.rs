//! What replaying the log leads to when its files lie in several layouts.
use crate::checkpoint::Checkpoint;
use crate::engine::EngineView;
use crate::lists::{arranged, is_arrangement, is_order_by, place_is_there};
use crate::replay::{all_placed, are_tails, group_keys, is_divided, is_replay_plan, of_topic, parts_of,
    placed, records_for, speaks_of, topic_is_replayed_as_logged, LogGroup, ReplayPlan};
use crate::replay_laws::{a_topic_is_a_matter_of_its_frames, is_written_log, removals_spare_routers,
    routers_are_a_matter_of_their_frames, same_routers, same_state, state_of};
use crate::wal::WalRecord;
use crate::walfiles::{is_logged_order, is_replay_order, key_le, lowest, records_of, replay_key,
    SplitFrame};
use vstd::prelude::*;

verus! {

/// The lowest sequence number that a group holds of a topic, if it holds records of it.
pub open spec fn low_of(part: Seq<WalRecord>, id: u64) -> Option<u64>
    decreases part.len(),
{
    if part.len() == 0 {
        None
    } else {
        let earlier = low_of(part.drop_last(), id);
        let f = part.last();
        if f.topic() == id && f is Append {
            match earlier {
                Some(s) => Some(crate::eviction::min64(s, f->Append_seq)),
                None => Some(f->Append_seq),
            }
        } else {
            earlier
        }
    }
}

/// The groups that hold frames of a topic can be told apart by the lowest sequence
/// number they hold of it; one of them may hold no record of it.
pub open spec fn told_apart(parts: Seq<Seq<WalRecord>>, id: u64) -> bool {
    forall|i: int, j: int|
        0 <= i < j < parts.len() && speaks_of(#[trigger] parts[i], id) && speaks_of(
            #[trigger] parts[j],
            id,
        ) ==> low_of(parts[i], id) != low_of(parts[j], id)
}

/// The frames of a topic lie in one group.
pub open spec fn in_one_group(parts: Seq<Seq<WalRecord>>, id: u64) -> bool {
    forall|i: int, j: int|
        0 <= i < j < parts.len() ==> !(speaks_of(#[trigger] parts[i], id) && speaks_of(
            #[trigger] parts[j],
            id,
        ))
}

/// Groups and places in them that a machine can number.
pub open spec fn numbered(parts: Seq<Seq<WalRecord>>) -> bool {
    &&& parts.len() <= usize::MAX
    &&& forall|i: int| 0 <= i < parts.len() ==> (#[trigger] parts[i]).len() <= usize::MAX
}

/// Frames stand in the order of their places.
spec fn in_places(frames: Seq<SplitFrame>) -> bool {
    forall|a: int, b: int|
        0 <= a < b < frames.len() ==> ((#[trigger] frames[a]).0 < (#[trigger] frames[b]).0 || (
        frames[a].0 == frames[b].0 && frames[a].1 < frames[b].1))
}

/// A frame stands at its place in its group.
spec fn at_place(parts: Seq<Seq<WalRecord>>, x: SplitFrame) -> bool {
    &&& x.0 < parts.len()
    &&& x.1 < parts[x.0 as int].len()
    &&& x.2 == parts[x.0 as int][x.1 as int]
}

proof fn placed_in_order(parts: Seq<Seq<WalRecord>>)
    requires
        numbered(parts),
    ensures
        in_places(all_placed(parts)),
        forall|k: int|
            0 <= k < all_placed(parts).len() ==> at_place(parts, #[trigger] all_placed(parts)[k]),
        forall|x: SplitFrame| #[trigger] at_place(parts, x) ==> all_placed(parts).contains(x),
    decreases parts.len(),
{
    if parts.len() > 0 {
        let p = parts.drop_last();
        assert(numbered(p)) by {
            assert forall|i: int| 0 <= i < p.len() implies (#[trigger] p[i]).len() <= usize::MAX by {
                assert(p[i] == parts[i]);
            }
        }
        placed_in_order(p);
        let g = (parts.len() - 1) as usize;
        let a = all_placed(p);
        let b = placed(parts.last(), g);
        let all = all_placed(parts);
        assert(parts[parts.len() - 1].len() <= usize::MAX);
        assert forall|k: int| 0 <= k < all.len() implies at_place(parts, #[trigger] all[k]) by {
            if k < a.len() {
                assert(at_place(p, a[k]));
            }
        }
        assert forall|i: int, j: int| 0 <= i < j < all.len() implies ((#[trigger] all[i]).0 < (
        #[trigger] all[j]).0 || (all[i].0 == all[j].0 && all[i].1 < all[j].1)) by {
            if i < a.len() {
                assert(at_place(p, a[i]));
            }
        }
        assert forall|x: SplitFrame| #[trigger] at_place(parts, x) implies all.contains(x) by {
            if x.0 == g {
                assert(b[x.1 as int] == x);
                assert(all[a.len() + x.1] == x);
            } else {
                assert(at_place(p, x));
                let k = choose|k: int| 0 <= k < a.len() && a[k] == x;
                assert(all[k] == x);
            }
        }
    }
}

proof fn of_topic_in_order(frames: Seq<SplitFrame>, id: u64)
    requires
        in_places(frames),
    ensures
        in_places(of_topic(frames, id)),
        forall|x: SplitFrame| #[trigger]
            of_topic(frames, id).contains(x) <==> frames.contains(x) && x.2.topic() == id,
    decreases frames.len(),
{
    if frames.len() > 0 {
        let f = frames.drop_last();
        assert forall|a: int, b: int| 0 <= a < b < f.len() implies ((#[trigger] f[a]).0 < (
        #[trigger] f[b]).0 || (f[a].0 == f[b].0 && f[a].1 < f[b].1)) by {
            assert(f[a] == frames[a] && f[b] == frames[b]);
        }
        of_topic_in_order(f, id);
        let last = frames.last();
        let e = of_topic(f, id);
        let all = of_topic(frames, id);
        assert forall|a: int, b: int| 0 <= a < b < all.len() implies ((#[trigger] all[a]).0 < (
        #[trigger] all[b]).0 || (all[a].0 == all[b].0 && all[a].1 < all[b].1)) by {
            if b == e.len() {
                assert(e.contains(e[a]));
                let k = choose|k: int| 0 <= k < f.len() && f[k] == e[a];
                assert(frames[k] == e[a]);
                assert(frames[frames.len() - 1] == last);
            }
        }
        assert forall|x: SplitFrame| #[trigger] all.contains(x) <==> frames.contains(x)
            && x.2.topic() == id by {
            if all.contains(x) {
                let k = choose|k: int| 0 <= k < all.len() && all[k] == x;
                if k < e.len() {
                    assert(e[k] == x);
                    assert(e.contains(x));
                    let m = choose|m: int| 0 <= m < f.len() && f[m] == x;
                    assert(frames[m] == x);
                } else {
                    assert(frames[frames.len() - 1] == x);
                }
            }
            if frames.contains(x) && x.2.topic() == id {
                let m = choose|m: int| 0 <= m < frames.len() && frames[m] == x;
                if m < f.len() {
                    assert(f[m] == x);
                    assert(f.contains(x));
                    assert(e.contains(x));
                    let k = choose|k: int| 0 <= k < e.len() && e[k] == x;
                    assert(all[k] == x);
                } else {
                    assert(all[e.len() as int] == x);
                }
            }
        }
    }
}

/// A frame is a record of a group.
spec fn is_record(x: SplitFrame, group: usize) -> bool {
    x.0 == group && x.2 is Append
}

proof fn lowest_is(frames: Seq<SplitFrame>, group: usize)
    ensures
        match lowest(frames, group) {
            Some(s) => {
                &&& exists|x: SplitFrame| #[trigger]
                    frames.contains(x) && is_record(x, group) && x.2->Append_seq == s
                &&& forall|x: SplitFrame| #[trigger]
                    frames.contains(x) && is_record(x, group) ==> s <= x.2->Append_seq
            },
            None => forall|x: SplitFrame| #[trigger] frames.contains(x) ==> !is_record(x, group),
        },
    decreases frames.len(),
{
    if frames.len() > 0 {
        let f = frames.drop_last();
        let last = frames.last();
        lowest_is(f, group);
        assert forall|x: SplitFrame| #[trigger] frames.contains(x) <==> f.contains(x) || x == last by {
            if frames.contains(x) {
                let k = choose|k: int| 0 <= k < frames.len() && frames[k] == x;
                if k < f.len() {
                    assert(f[k] == x);
                }
            }
            if f.contains(x) {
                let k = choose|k: int| 0 <= k < f.len() && f[k] == x;
                assert(frames[k] == x);
            }
            assert(frames[frames.len() - 1] == last);
        }
        match lowest(frames, group) {
            Some(s) => {
                if is_record(last, group) && last.2->Append_seq == s {
                    assert(frames.contains(last));
                } else {
                    let x = choose|x: SplitFrame| #[trigger]
                        f.contains(x) && is_record(x, group) && x.2->Append_seq == s;
                    assert(frames.contains(x));
                }
            },
            None => {},
        }
    }
}

/// A frame is a record of a topic.
spec fn is_record_of(f: WalRecord, id: u64) -> bool {
    f.topic() == id && f is Append
}

proof fn low_is(part: Seq<WalRecord>, id: u64)
    ensures
        match low_of(part, id) {
            Some(s) => {
                &&& exists|j: int|
                    0 <= j < part.len() && is_record_of(#[trigger] part[j], id)
                        && part[j]->Append_seq == s
                &&& forall|j: int|
                    0 <= j < part.len() && is_record_of(#[trigger] part[j], id) ==> s
                        <= part[j]->Append_seq
            },
            None => forall|j: int|
                0 <= j < part.len() ==> !is_record_of(#[trigger] part[j], id),
        },
    decreases part.len(),
{
    if part.len() > 0 {
        let p = part.drop_last();
        let n = part.len() - 1;
        low_is(p, id);
        assert forall|j: int| 0 <= j < p.len() implies #[trigger] p[j] == part[j] by {}
        match low_of(part, id) {
            Some(s) => {
                if is_record_of(part[n], id) && part[n]->Append_seq == s {
                } else {
                    let j = choose|j: int|
                        0 <= j < p.len() && is_record_of(#[trigger] p[j], id) && p[j]->Append_seq
                            == s;
                    assert(part[j] == p[j]);
                }
                assert forall|j: int| 0 <= j < part.len() && is_record_of(
                    #[trigger] part[j],
                    id,
                ) implies s <= part[j]->Append_seq by {
                    if j < n {
                        assert(p[j] == part[j]);
                    }
                }
            },
            None => {
                assert forall|j: int| 0 <= j < part.len() implies !is_record_of(
                    #[trigger] part[j],
                    id,
                ) by {
                    if j < n {
                        assert(p[j] == part[j]);
                    }
                }
            },
        }
    }
}

/// The frames of a topic, with their places.
spec fn frames_of(parts: Seq<Seq<WalRecord>>, id: u64) -> Seq<SplitFrame> {
    of_topic(all_placed(parts), id)
}

proof fn frames_of_are(parts: Seq<Seq<WalRecord>>, id: u64)
    requires
        numbered(parts),
    ensures
        in_places(frames_of(parts, id)),
        forall|x: SplitFrame| #[trigger]
            frames_of(parts, id).contains(x) <==> at_place(parts, x) && x.2.topic() == id,
{
    let all = all_placed(parts);
    placed_in_order(parts);
    of_topic_in_order(all, id);
    assert forall|x: SplitFrame| #[trigger] frames_of(parts, id).contains(x) <==> at_place(parts, x)
        && x.2.topic() == id by {
        if all.contains(x) {
            let k = choose|k: int| 0 <= k < all.len() && all[k] == x;
            assert(at_place(parts, all[k]));
        }
    }
}

/// The lowest sequence number of a group is a matter of the group.
proof fn lows_agree(parts: Seq<Seq<WalRecord>>, id: u64, g: usize)
    requires
        numbered(parts),
        g < parts.len(),
    ensures
        lowest(frames_of(parts, id), g) == low_of(parts[g as int], id),
{
    let fs = frames_of(parts, id);
    let part = parts[g as int];
    frames_of_are(parts, id);
    lowest_is(fs, g);
    low_is(part, id);
    assert(part.len() <= usize::MAX);
    assert forall|j: int| 0 <= j < part.len() && is_record_of(#[trigger] part[j], id) implies {
        let x = (g, j as usize, part[j]);
        fs.contains(x) && is_record(x, g)
    } by {
        let x = (g, j as usize, part[j]);
        assert(at_place(parts, x));
        assert(fs.contains(x));
    }
    assert forall|x: SplitFrame| #[trigger] fs.contains(x) && is_record(x, g) implies is_record_of(
        part[x.1 as int],
        id,
    ) && part[x.1 as int] == x.2 && x.1 < part.len() by {
        assert(at_place(parts, x));
    }
    match (lowest(fs, g), low_of(part, id)) {
        (Some(s), Some(t)) => {
            let x = choose|x: SplitFrame| #[trigger]
                fs.contains(x) && is_record(x, g) && x.2->Append_seq == s;
            assert(is_record_of(part[x.1 as int], id));
            let j = choose|j: int|
                0 <= j < part.len() && is_record_of(#[trigger] part[j], id) && part[j]->Append_seq
                    == t;
            assert(fs.contains((g, j as usize, part[j])));
        },
        (Some(s), None) => {
            let x = choose|x: SplitFrame| #[trigger]
                fs.contains(x) && is_record(x, g) && x.2->Append_seq == s;
            assert(is_record_of(part[x.1 as int], id));
        },
        (None, Some(t)) => {
            let j = choose|j: int|
                0 <= j < part.len() && is_record_of(#[trigger] part[j], id) && part[j]->Append_seq
                    == t;
            assert(fs.contains((g, j as usize, part[j])));
        },
        (None, None) => {},
    }
}

/// A frame of a topic, by its group and its place in the group.
spec fn is_of(parts: Seq<Seq<WalRecord>>, id: u64, e: (int, int)) -> bool {
    &&& 0 <= e.0 < parts.len()
    &&& 0 <= e.1 < parts[e.0].len()
    &&& parts[e.0][e.1].topic() == id
}

/// A frame comes before another: within a group by its place, else by the lowest
/// sequence number of its group.
spec fn before(parts: Seq<Seq<WalRecord>>, id: u64, a: (int, int), b: (int, int)) -> bool {
    if a.0 == b.0 {
        a.1 < b.1
    } else {
        match (low_of(parts[a.0], id), low_of(parts[b.0], id)) {
            (Some(s), Some(t)) => s < t,
            (Some(_), None) => true,
            _ => false,
        }
    }
}

/// The frames of a topic, one after the other.
spec fn listing(parts: Seq<Seq<WalRecord>>, id: u64, es: Seq<(int, int)>) -> bool {
    &&& forall|i: int, j: int|
        0 <= i < j < es.len() ==> before(parts, id, #[trigger] es[i], #[trigger] es[j])
    &&& forall|e: (int, int)| #[trigger] es.contains(e) <==> is_of(parts, id, e)
}

spec fn frames_at(parts: Seq<Seq<WalRecord>>, es: Seq<(int, int)>) -> Seq<WalRecord> {
    es.map_values(|e: (int, int)| parts[e.0][e.1])
}

/// There is one such list.
proof fn listing_is_unique(
    parts: Seq<Seq<WalRecord>>,
    id: u64,
    es: Seq<(int, int)>,
    ts: Seq<(int, int)>,
)
    requires
        forall|i: int, j: int|
            0 <= i < j < es.len() ==> before(parts, id, #[trigger] es[i], #[trigger] es[j]),
        forall|i: int, j: int|
            0 <= i < j < ts.len() ==> before(parts, id, #[trigger] ts[i], #[trigger] ts[j]),
        forall|e: (int, int)| #[trigger] es.contains(e) <==> ts.contains(e),
    ensures
        es == ts,
    decreases es.len(),
{
    if es.len() == 0 {
        if ts.len() > 0 {
            assert(ts.contains(ts[0]));
            assert(es.contains(ts[0]));
        }
        assert(es =~= ts);
    } else {
        assert(es.contains(es[0]));
        assert(ts.contains(es[0]));
        let (m, n) = (es.len() - 1, ts.len() - 1);
        let (x, y) = (es[m], ts[n]);
        assert(es.contains(x));
        assert(ts.contains(y));
        assert(ts.contains(x) && es.contains(y));
        let a = choose|a: int| 0 <= a < es.len() && es[a] == y;
        let b = choose|b: int| 0 <= b < ts.len() && ts[b] == x;
        if x != y {
            assert(before(parts, id, es[a], es[m]));
            assert(before(parts, id, ts[b], ts[n]));
        }
        let (e, t) = (es.drop_last(), ts.drop_last());
        assert forall|i: int, j: int| 0 <= i < j < e.len() implies before(
            parts,
            id,
            #[trigger] e[i],
            #[trigger] e[j],
        ) by {
            assert(before(parts, id, es[i], es[j]));
        }
        assert forall|i: int, j: int| 0 <= i < j < t.len() implies before(
            parts,
            id,
            #[trigger] t[i],
            #[trigger] t[j],
        ) by {
            assert(before(parts, id, ts[i], ts[j]));
        }
        assert forall|z: (int, int)| #[trigger] e.contains(z) implies t.contains(z) by {
            let i = choose|i: int| 0 <= i < e.len() && e[i] == z;
            assert(before(parts, id, es[i], es[m]));
            assert(es[i] == z);
            assert(es.contains(z));
            assert(ts.contains(z));
            let j = choose|j: int| 0 <= j < ts.len() && ts[j] == z;
            assert(j < n);
            assert(t[j] == z);
        }
        assert forall|z: (int, int)| #[trigger] t.contains(z) implies e.contains(z) by {
            let i = choose|i: int| 0 <= i < t.len() && t[i] == z;
            assert(before(parts, id, ts[i], ts[n]));
            assert(ts[i] == z);
            assert(ts.contains(z));
            assert(es.contains(z));
            let j = choose|j: int| 0 <= j < es.len() && es[j] == z;
            assert(j < m);
            assert(e[j] == z);
        }
        listing_is_unique(parts, id, e, t);
        assert(es =~= e.push(x));
        assert(ts =~= t.push(y));
    }
}

proof fn arranged_is_numbered(parts: Seq<Seq<WalRecord>>, order: Seq<usize>)
    requires
        numbered(parts),
        is_arrangement(order, parts.len()),
    ensures
        numbered(arranged(parts, order)),
        forall|id: u64| #[trigger]
            in_one_group(parts, id) ==> in_one_group(arranged(parts, order), id),
{
    let q = arranged(parts, order);
    assert forall|id: u64| #[trigger] in_one_group(parts, id) implies in_one_group(q, id) by {
        assert forall|i: int, j: int| 0 <= i < j < q.len() implies !(speaks_of(
            #[trigger] q[i],
            id,
        ) && speaks_of(#[trigger] q[j], id)) by {
            let (g, h) = (order[i] as int, order[j] as int);
            assert(q[i] == parts[g] && q[j] == parts[h]);
            if g < h {
                assert(!(speaks_of(parts[g], id) && speaks_of(parts[h], id)));
            } else {
                assert(!(speaks_of(parts[h], id) && speaks_of(parts[g], id)));
            }
        }
    }
    assert forall|i: int| 0 <= i < q.len() implies (#[trigger] q[i]).len() <= usize::MAX by {
        assert(q[i] == parts[order[i] as int]);
    }
}

proof fn speaks_at(part: Seq<WalRecord>, id: u64, j: int)
    requires
        0 <= j < part.len(),
        part[j].topic() == id,
    ensures
        speaks_of(part, id),
{
}

/// In whatever order the groups come, the frames of a topic are listed alike.
proof fn logged_order_is_a_listing(
    parts: Seq<Seq<WalRecord>>,
    order: Seq<usize>,
    id: u64,
    run: Seq<WalRecord>,
) -> (es: Seq<(int, int)>)
    requires
        numbered(parts),
        is_arrangement(order, parts.len()),
        told_apart(parts, id),
        is_logged_order(frames_of(arranged(parts, order), id), run),
        run.len() <= usize::MAX,
    ensures
        listing(parts, id, es),
        run == frames_at(parts, es),
{
    let q = arranged(parts, order);
    let fs = frames_of(q, id);
    arranged_is_numbered(parts, order);
    frames_of_are(q, id);
    let o = choose|o: Seq<usize>| #[trigger]
        is_replay_order(fs, o) && run == records_of(arranged(fs, o));
    let es = Seq::new(
        o.len(),
        |k: int| (order[fs[o[k] as int].0 as int] as int, fs[o[k] as int].1 as int),
    );
    assert forall|k: int| 0 <= k < o.len() implies {
        let x = fs[#[trigger] o[k] as int];
        &&& at_place(q, x)
        &&& x.2.topic() == id
        &&& q[x.0 as int] == parts[es[k].0]
        &&& is_of(parts, id, es[k])
        &&& run[k] == parts[es[k].0][es[k].1]
        &&& speaks_of(parts[es[k].0], id)
        &&& lowest(fs, x.0) == low_of(parts[es[k].0], id)
    } by {
        let x = fs[o[k] as int];
        assert(fs.contains(x));
        lows_agree(q, id, x.0);
        speaks_at(parts[es[k].0], id, es[k].1);
    }
    assert forall|i: int, j: int| 0 <= i < j < es.len() implies before(
        parts,
        id,
        #[trigger] es[i],
        #[trigger] es[j],
    ) by {
        let (a, b) = (fs[o[i] as int], fs[o[j] as int]);
        assert(key_le(replay_key(fs, a), replay_key(fs, b)));
        assert(o[i] != o[j]);
        assert(a.0 != b.0 || a.1 != b.1);
        if a.0 != b.0 {
            assert(order[a.0 as int] != order[b.0 as int]);
            let (g, h) = (es[i].0, es[j].0);
            assert(speaks_of(parts[g], id) && speaks_of(parts[h], id));
            if g < h {
                assert(low_of(parts[g], id) != low_of(parts[h], id));
            } else {
                assert(low_of(parts[h], id) != low_of(parts[g], id));
            }
        }
    }
    assert forall|e: (int, int)| #[trigger] es.contains(e) <==> is_of(parts, id, e) by {
        if es.contains(e) {
            let k = choose|k: int| 0 <= k < es.len() && es[k] == e;
            let _ = o[k];
            assert(is_of(parts, id, es[k]));
        }
        if is_of(parts, id, e) {
            place_is_there(order, parts.len(), e.0 as usize);
            let go = choose|go: int| 0 <= go < order.len() && order[go] == e.0 as usize;
            assert(parts[e.0].len() <= usize::MAX);
            let x = (go as usize, e.1 as usize, q[go][e.1]);
            assert(q[go] == parts[e.0]);
            assert(at_place(q, x));
            assert(fs.contains(x));
            let m = choose|m: int| 0 <= m < fs.len() && fs[m] == x;
            place_is_there(o, fs.len(), m as usize);
            let k = choose|k: int| 0 <= k < o.len() && o[k] == m as usize;
            assert(es[k] == e);
        }
    }
    assert(run =~= frames_at(parts, es));
    es
}

proof fn records_for_fit(frames: Seq<WalRecord>, id: u64)
    ensures
        records_for(frames, id).len() <= frames.len(),
    decreases frames.len(),
{
    if frames.len() > 0 {
        records_for_fit(frames.drop_last(), id);
    }
}

/// A topic is replayed in the order in which it was logged, whether it is divided or
/// not.
proof fn replayed_in_logged_order(parts: Seq<Seq<WalRecord>>, plan: Seq<WalRecord>, id: u64)
    requires
        numbered(parts),
        is_replay_plan(parts, plan),
        id != 0 || in_one_group(parts, id),
        plan.len() <= usize::MAX,
    ensures
        is_logged_order(frames_of(parts, id), records_for(plan, id)),
{
    topic_is_replayed_as_logged(parts, plan, id);
    if !is_divided(parts, id) {
        let fs = frames_of(parts, id);
        frames_of_are(parts, id);
        records_for_fit(plan, id);
        let o = Seq::new(fs.len(), |k: int| k as usize);
        assert(fs.len() <= usize::MAX);
        assert forall|i: int, j: int| 0 <= i < j < o.len() implies key_le(
            replay_key(fs, fs[#[trigger] o[i] as int]),
            replay_key(fs, fs[#[trigger] o[j] as int]),
        ) by {
            let (a, b) = (fs[i], fs[j]);
            assert(fs.contains(a) && fs.contains(b));
            speaks_at(parts[a.0 as int], id, a.1 as int);
            speaks_at(parts[b.0 as int], id, b.1 as int);
            if a.0 != b.0 {
                assert(speaks_of(parts[a.0 as int], id) && speaks_of(parts[b.0 as int], id));
            }
        }
        assert(is_replay_order(fs, o));
        assert(records_of(arranged(fs, o)) =~= records_of(fs));
    }
}

/// The order of the groups makes no difference for a topic: where its groups can be
/// told apart, it is replayed alike, in whatever order they are read.
pub proof fn groups_come_in_any_order(
    parts: Seq<Seq<WalRecord>>,
    order: Seq<usize>,
    plan: Seq<WalRecord>,
    order2: Seq<usize>,
    plan2: Seq<WalRecord>,
    id: u64,
)
    requires
        numbered(parts),
        told_apart(parts, id),
        id != 0 || in_one_group(parts, id),
        is_arrangement(order, parts.len()),
        is_arrangement(order2, parts.len()),
        is_replay_plan(arranged(parts, order), plan),
        is_replay_plan(arranged(parts, order2), plan2),
        plan.len() <= usize::MAX,
        plan2.len() <= usize::MAX,
    ensures
        records_for(plan, id) == records_for(plan2, id),
{
    arranged_is_numbered(parts, order);
    arranged_is_numbered(parts, order2);
    replayed_in_logged_order(arranged(parts, order), plan, id);
    replayed_in_logged_order(arranged(parts, order2), plan2, id);
    records_for_fit(plan, id);
    records_for_fit(plan2, id);
    let es = logged_order_is_a_listing(parts, order, id, records_for(plan, id));
    let ts = logged_order_is_a_listing(parts, order2, id, records_for(plan2, id));
    assert forall|e: (int, int)| #[trigger] es.contains(e) <==> ts.contains(e) by {
        assert(es.contains(e) <==> is_of(parts, id, e));
    }
    listing_is_unique(parts, id, es, ts);
}

/// Groups of the same files. Which of them are still written to may differ, as it does
/// with the number of shards.
pub open spec fn same_files(a: Seq<LogGroup>, b: Seq<LogGroup>) -> bool {
    &&& a.len() == b.len()
    &&& forall|i: int|
        0 <= i < a.len() ==> (#[trigger] a[i]).key@ == b[i].key@ && a[i].files@ == b[i].files@
}

/// The number of shards makes no difference for what is on the disk, whatever numbers
/// of shards it was written with: a topic whose groups can be told apart is recovered to
/// the same state with every number of shards; and so are the routers, but for how far
/// each has read, where their frames lie in one group and no topic is removed that is an
/// end of a router.
pub proof fn layouts_make_no_difference(
    v: EngineView,
    names: spec_fn(u64) -> Seq<char>,
    now: i64,
    ckpt: Option<Checkpoint>,
    groups: Seq<LogGroup>,
    plan: ReplayPlan,
    w: EngineView,
    groups2: Seq<LogGroup>,
    plan2: ReplayPlan,
    w2: EngineView,
)
    requires
        same_files(groups, groups2),
        numbered(parts_of(groups, ckpt)),
        plan.plans(groups, ckpt),
        plan2.plans(groups2, ckpt),
        is_written_log(v, names, plan.frames@),
        is_written_log(v, names, plan2.frames@),
        v.replays_all(plan.frames@, now, w),
        v.replays_all(plan2.frames@, now, w2),
    ensures
        forall|id: u64|
            id != 0 && told_apart(parts_of(groups, ckpt), id) ==> same_state(
                #[trigger] state_of(w.with_heads_reserved(), names, id),
                state_of(w2.with_heads_reserved(), names, id),
            ),
        in_one_group(parts_of(groups, ckpt), 0) && removals_spare_routers(
            v.routers,
            plan.frames@,
        ) && removals_spare_routers(v.routers, plan2.frames@) ==> same_routers(
            w.routers,
            w2.routers,
        ),
{
    let parts = parts_of(groups, ckpt);
    let o = choose|order: Seq<usize>| #[trigger]
        is_order_by(group_keys(groups), order) && {
            let ordered = arranged(groups, order);
            &&& is_replay_plan(parts_of(ordered, ckpt), plan.frames@)
            &&& are_tails(ordered, ckpt, plan.tails@)
        };
    let o2 = choose|order: Seq<usize>| #[trigger]
        is_order_by(group_keys(groups2), order) && {
            let ordered = arranged(groups2, order);
            &&& is_replay_plan(parts_of(ordered, ckpt), plan2.frames@)
            &&& are_tails(ordered, ckpt, plan2.tails@)
        };
    assert(parts_of(arranged(groups, o), ckpt) =~= arranged(parts, o));
    assert(parts_of(arranged(groups2, o2), ckpt) =~= arranged(parts, o2));
    assert(plan.frames.len() == plan.frames@.len());
    assert(plan2.frames.len() == plan2.frames@.len());
    assert forall|id: u64| id != 0 && told_apart(parts, id) implies same_state(
        #[trigger] state_of(w.with_heads_reserved(), names, id),
        state_of(w2.with_heads_reserved(), names, id),
    ) by {
        groups_come_in_any_order(parts, o, plan.frames@, o2, plan2.frames@, id);
        a_topic_is_a_matter_of_its_frames(
            v,
            names,
            now,
            plan.frames@,
            w,
            plan2.frames@,
            w2,
            id,
        );
    }
    if in_one_group(parts, 0) && removals_spare_routers(v.routers, plan.frames@)
        && removals_spare_routers(v.routers, plan2.frames@) {
        groups_come_in_any_order(parts, o, plan.frames@, o2, plan2.frames@, 0);
        routers_are_a_matter_of_their_frames(v, now, plan.frames@, w, plan2.frames@, w2);
    }
}

/// The frames of a topic that is spread over groups are replayed in the order in which they
/// were logged: those of one group as they stand there; and of two groups the one first that
/// holds the lower record, or that alone holds records.
pub proof fn how_spread_frames_are_ordered(
    frames: Seq<SplitFrame>,
    order: Seq<usize>,
    i: int,
    j: int,
)
    requires
        is_replay_order(frames, order),
        0 <= i < j < order.len(),
    ensures
        ({
            let f = frames[order[i] as int];
            let g = frames[order[j] as int];
            &&& f.0 == g.0 ==> f.1 <= g.1
            &&& !exists|x: SplitFrame|
                #![trigger frames.contains(x)]
                {
                    &&& frames.contains(x)
                    &&& x.0 == g.0
                    &&& x.2 is Append
                    &&& forall|y: SplitFrame| #[trigger]
                        frames.contains(y) && y.0 == f.0 && y.2 is Append ==> x.2->Append_seq
                            < y.2->Append_seq
                }
        }),
{
    let f = frames[order[i] as int];
    let g = frames[order[j] as int];
    lowest_is(frames, f.0);
    lowest_is(frames, g.0);
    assert(key_le(
        replay_key(frames, frames[order[i] as int]),
        replay_key(frames, frames[order[j] as int]),
    ));
    if exists|x: SplitFrame|
        #![trigger frames.contains(x)]
        {
            &&& frames.contains(x)
            &&& x.0 == g.0
            &&& x.2 is Append
            &&& forall|y: SplitFrame| #[trigger]
                frames.contains(y) && y.0 == f.0 && y.2 is Append ==> x.2->Append_seq
                    < y.2->Append_seq
        } {
        let x = choose|x: SplitFrame|
            #![trigger frames.contains(x)]
            {
                &&& frames.contains(x)
                &&& x.0 == g.0
                &&& x.2 is Append
                &&& forall|y: SplitFrame| #[trigger]
                    frames.contains(y) && y.0 == f.0 && y.2 is Append ==> x.2->Append_seq
                        < y.2->Append_seq
            };
        assert(is_record(x, g.0));
        match lowest(frames, f.0) {
            Some(s) => {
                let y = choose|y: SplitFrame| #[trigger]
                    frames.contains(y) && is_record(y, f.0) && y.2->Append_seq == s;
                assert(x.2->Append_seq < y.2->Append_seq);
            },
            None => {},
        }
    }
}

} // verus!
