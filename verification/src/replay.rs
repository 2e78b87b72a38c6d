//! What of the log is replayed after a restart, and in which order.
use crate::checkpoint::{is_readable, Checkpoint, Snapshot};
use crate::engine::{Engine, EngineView};
use crate::eviction::{larger, max64};
use crate::lists::{arranged, is_order_by, order_by, rearranged, reversed};
use crate::seqs::rising;
use crate::snapshot::{sound, SnapshotRouter, SnapshotTopic};
use crate::wal::WalRecord;
use crate::walfiles::{find_split_topics, is_logged_order, is_replay_order, is_split, order_frames,
    position_for_key, position_of, records_of, replay_from, start_offset, SplitFrame};
use vstd::prelude::*;

verus! {

/// A frame read from a file, and the place where it ends.
#[derive(Debug)]
pub struct LogFrame {
    pub end: u64,
    pub record: WalRecord,
}

/// A file of the log: its number, its frames, and where the last sound one ends.
#[derive(Debug)]
pub struct LogFile {
    pub idx: u64,
    pub frames: Vec<LogFrame>,
    pub valid_len: u64,
}

/// A group of files: its key, the shard its name stands for, whether the log is
/// still written there, and its files in ascending order.
#[derive(Debug)]
pub struct LogGroup {
    pub key: String,
    pub shard: u64,
    pub current: bool,
    pub files: Vec<LogFile>,
}

/// The place from which a group is replayed: that of the checkpoint, else the start.
pub open spec fn place_of(ckpt: Option<Checkpoint>, key: Seq<char>) -> (u64, u64) {
    match ckpt {
        Some(c) => match position_of(c.shard_keys@, c.shards@, key, 0) {
            Some(p) => p,
            None => (0, 0),
        },
        None => (0, 0),
    }
}

fn find_place(ckpt: &Option<Checkpoint>, key: &str) -> (r: (u64, u64))
    ensures
        r == place_of(*ckpt, key@),
{
    match ckpt {
        Some(c) => match position_for_key(&c.shard_keys, &c.shards, key) {
            Some(p) => p,
            None => (0, 0),
        },
        None => (0, 0),
    }
}

/// The frames of a file that end beyond a place.
pub open spec fn frames_after(frames: Seq<LogFrame>, start: u64) -> Seq<WalRecord>
    decreases frames.len(),
{
    if frames.len() == 0 {
        Seq::empty()
    } else {
        let earlier = frames_after(frames.drop_last(), start);
        if frames.last().end > start {
            earlier.push(frames.last().record)
        } else {
            earlier
        }
    }
}

/// The frames of a group that are replayed.
pub open spec fn group_frames(files: Seq<LogFile>, place: (u64, u64)) -> Seq<WalRecord>
    decreases files.len(),
{
    if files.len() == 0 {
        Seq::empty()
    } else {
        let earlier = group_frames(files.drop_last(), place);
        match replay_from(files.last().idx, place.0, place.1) {
            Some(start) => earlier + frames_after(files.last().frames@, start),
            None => earlier,
        }
    }
}

/// Where a group ends, so that what is torn can be cut off: the number of its last
/// file and the length of what is sound in it.
pub open spec fn group_tail(files: Seq<LogFile>, place: (u64, u64)) -> Option<(u64, u64)> {
    if files.len() == 0 {
        None
    } else if files.last().idx < place.0 {
        Some((max64(place.0, 1), place.1))
    } else {
        Some((files.last().idx, files.last().valid_len))
    }
}

fn find_tail(files: &Vec<LogFile>, place: (u64, u64)) -> (r: Option<(u64, u64)>)
    ensures
        r == group_tail(files@, place),
{
    let n: usize = files.len();
    if n == 0 {
        None
    } else if files[n - 1].idx < place.0 {
        Some((larger(place.0, 1), place.1))
    } else {
        Some((files[n - 1].idx, files[n - 1].valid_len))
    }
}

fn take_frames(frames: Vec<LogFrame>, start: u64, out: &mut Vec<WalRecord>)
    ensures
        final(out)@ == old(out)@ + frames_after(frames@, start),
{
    let ghost all = frames@;
    let ghost before = out@;
    let mut rest = reversed(frames);
    let ghost mut i: int = 0;
    assert(all.take(0) =~= Seq::<LogFrame>::empty());
    assert(out@ =~= before + frames_after(all.take(0), start));
    while rest.len() > 0
        invariant
            0 <= i <= all.len(),
            rest@.len() == all.len() - i,
            forall|j: int| 0 <= j < rest@.len() ==> #[trigger] rest@[j] == all[all.len() - 1 - j],
            out@ == before + frames_after(all.take(i), start),
        decreases rest@.len(),
    {
        match rest.pop() {
            Some(f) => {
                proof {
                    assert(f == all[i]);
                    assert(all.take(i + 1).drop_last() =~= all.take(i));
                    assert(all.take(i + 1).last() == f);
                }
                if f.end > start {
                    out.push(f.record);
                }
                assert(out@ =~= before + frames_after(all.take(i + 1), start));
                proof {
                    i = i + 1;
                }
            },
            None => {},
        }
    }
    assert(all.take(i) =~= all);
}

fn take_group(files: Vec<LogFile>, place: (u64, u64)) -> (r: Vec<WalRecord>)
    ensures
        r@ == group_frames(files@, place),
{
    let ghost all = files@;
    let mut out: Vec<WalRecord> = Vec::new();
    let mut rest = reversed(files);
    let ghost mut i: int = 0;
    assert(all.take(0) =~= Seq::<LogFile>::empty());
    while rest.len() > 0
        invariant
            0 <= i <= all.len(),
            rest@.len() == all.len() - i,
            forall|j: int| 0 <= j < rest@.len() ==> #[trigger] rest@[j] == all[all.len() - 1 - j],
            out@ == group_frames(all.take(i), place),
        decreases rest@.len(),
    {
        match rest.pop() {
            Some(f) => {
                proof {
                    assert(f == all[i]);
                    assert(all.take(i + 1).drop_last() =~= all.take(i));
                    assert(all.take(i + 1).last() == f);
                }
                match start_offset(f.idx, place.0, place.1) {
                    Some(start) => {
                        take_frames(f.frames, start, &mut out);
                    },
                    None => {},
                }
                proof {
                    i = i + 1;
                }
            },
            None => {},
        }
    }
    assert(all.take(i) =~= all);
    out
}

/// The frames of a group with their places.
pub open spec fn placed(frames: Seq<WalRecord>, group: usize) -> Seq<SplitFrame> {
    Seq::new(frames.len(), |j: int| (group, j as usize, frames[j]))
}

/// The frames of all groups with their places, one group after the other.
pub open spec fn all_placed(parts: Seq<Seq<WalRecord>>) -> Seq<SplitFrame>
    decreases parts.len(),
{
    if parts.len() == 0 {
        Seq::empty()
    } else {
        all_placed(parts.drop_last()) + placed(parts.last(), (parts.len() - 1) as usize)
    }
}

/// A list of frames speaks of a topic.
pub open spec fn speaks_of(frames: Seq<WalRecord>, id: u64) -> bool {
    exists|j: int| 0 <= j < frames.len() && (#[trigger] frames[j]).topic() == id
}

/// A topic has frames in more than one group. `0` stands for no topic.
pub open spec fn is_divided(parts: Seq<Seq<WalRecord>>, id: u64) -> bool {
    id != 0 && exists|i: int, j: int|
        0 <= i < j < parts.len() && speaks_of(#[trigger] parts[i], id) && speaks_of(
            #[trigger] parts[j],
            id,
        )
}

/// The frames of topics that are not divided, in the order of the groups.
pub open spec fn in_stream(frames: Seq<SplitFrame>, divided: Seq<u64>) -> Seq<WalRecord>
    decreases frames.len(),
{
    if frames.len() == 0 {
        Seq::empty()
    } else {
        let earlier = in_stream(frames.drop_last(), divided);
        if divided.contains(frames.last().2.topic()) {
            earlier
        } else {
            earlier.push(frames.last().2)
        }
    }
}

/// The frames of a topic.
pub open spec fn of_topic(frames: Seq<SplitFrame>, id: u64) -> Seq<SplitFrame>
    decreases frames.len(),
{
    if frames.len() == 0 {
        Seq::empty()
    } else {
        let earlier = of_topic(frames.drop_last(), id);
        if frames.last().2.topic() == id {
            earlier.push(frames.last())
        } else {
            earlier
        }
    }
}

/// Lists one after the other.
pub open spec fn joined(lists: Seq<Seq<WalRecord>>) -> Seq<WalRecord>
    decreases lists.len(),
{
    if lists.len() == 0 {
        Seq::empty()
    } else {
        joined(lists.drop_last()) + lists.last()
    }
}

/// The frames of divided topics, one topic after the other, those of each in the
/// order in which they were logged.
pub open spec fn is_reordered(
    frames: Seq<SplitFrame>,
    divided: Seq<u64>,
    runs: Seq<Seq<WalRecord>>,
) -> bool {
    &&& runs.len() == divided.len()
    &&& forall|i: int|
        0 <= i < runs.len() ==> is_logged_order(of_topic(frames, divided[i]), #[trigger] runs[i])
}

/// The order in which the frames of the groups are replayed: those of topics that
/// are not divided come first, in the order of the groups.
pub open spec fn is_replay_plan(parts: Seq<Seq<WalRecord>>, plan: Seq<WalRecord>) -> bool {
    exists|divided: Seq<u64>, runs: Seq<Seq<WalRecord>>|
        #![trigger is_reordered(all_placed(parts), divided, runs)]
        {
            &&& rising(divided)
            &&& forall|id: u64| #[trigger] divided.contains(id) <==> is_divided(parts, id)
            &&& is_reordered(all_placed(parts), divided, runs)
            &&& plan == in_stream(all_placed(parts), divided) + joined(runs)
        }
}

/// The keys by which groups are ordered: those where the log is no longer written
/// come first.
pub open spec fn group_keys(groups: Seq<LogGroup>) -> Seq<(u64, u64)> {
    Seq::new(
        groups.len(),
        |i: int|
            (
                if groups[i].current {
                    1u64
                } else {
                    0u64
                },
                groups[i].shard,
            ),
    )
}

/// The frames of groups that are replayed.
pub open spec fn parts_of(groups: Seq<LogGroup>, ckpt: Option<Checkpoint>) -> Seq<Seq<WalRecord>> {
    Seq::new(
        groups.len(),
        |i: int| group_frames(groups[i].files@, place_of(ckpt, groups[i].key@)),
    )
}

/// Where groups end, by their keys.
pub open spec fn are_tails(
    groups: Seq<LogGroup>,
    ckpt: Option<Checkpoint>,
    tails: Seq<(String, (u64, u64))>,
) -> bool
    decreases groups.len(),
{
    if groups.len() == 0 {
        tails.len() == 0
    } else {
        let g = groups.last();
        match group_tail(g.files@, place_of(ckpt, g.key@)) {
            Some(t) => {
                &&& tails.len() > 0
                &&& tails.last().0@ == g.key@
                &&& tails.last().1 == t
                &&& are_tails(groups.drop_last(), ckpt, tails.drop_last())
            },
            None => are_tails(groups.drop_last(), ckpt, tails),
        }
    }
}

/// What is replayed after a restart.
#[derive(Debug)]
pub struct ReplayPlan {
    pub frames: Vec<WalRecord>,
    /// Where each group with files ends.
    pub tails: Vec<(String, (u64, u64))>,
}

impl ReplayPlan {
    /// The plan for groups of files and a checkpoint.
    pub open spec fn plans(self, groups: Seq<LogGroup>, ckpt: Option<Checkpoint>) -> bool {
        exists|order: Seq<usize>| #[trigger]
            is_order_by(group_keys(groups), order) && {
                let ordered = arranged(groups, order);
                &&& is_replay_plan(parts_of(ordered, ckpt), self.frames@)
                &&& are_tails(ordered, ckpt, self.tails@)
            }
    }
}

fn is_in(ids: &Vec<u64>, id: u64) -> (r: bool)
    ensures
        r == ids@.contains(id),
{
    let mut i: usize = 0;
    while i < ids.len()
        invariant
            i <= ids@.len(),
            forall|j: int| 0 <= j < i ==> ids@[j] != id,
        decreases ids@.len() - i,
    {
        if ids[i] == id {
            assert(ids@[i as int] == id);
            return true;
        }
        i += 1;
    }
    false
}

/// The frames that are not of a topic.
pub open spec fn not_of_topic(frames: Seq<SplitFrame>, id: u64) -> Seq<SplitFrame>
    decreases frames.len(),
{
    if frames.len() == 0 {
        Seq::empty()
    } else {
        let earlier = not_of_topic(frames.drop_last(), id);
        if frames.last().2.topic() == id {
            earlier
        } else {
            earlier.push(frames.last())
        }
    }
}

/// Leaving a topic out changes nothing for another.
proof fn other_topic_stays(frames: Seq<SplitFrame>, gone: u64, id: u64)
    requires
        gone != id,
    ensures
        of_topic(not_of_topic(frames, gone), id) == of_topic(frames, id),
    decreases frames.len(),
{
    if frames.len() > 0 {
        other_topic_stays(frames.drop_last(), gone, id);
        let earlier = not_of_topic(frames.drop_last(), gone);
        if frames.last().2.topic() != gone {
            assert(earlier.push(frames.last()).drop_last() =~= earlier);
        }
    }
}

/// Parts the frames of a topic from the others.
fn part_topic(frames: Vec<SplitFrame>, id: u64) -> (r: (Vec<SplitFrame>, Vec<SplitFrame>))
    ensures
        r.0@ == of_topic(frames@, id),
        r.1@ == not_of_topic(frames@, id),
{
    let ghost all = frames@;
    let mut rest = reversed(frames);
    let mut mine: Vec<SplitFrame> = Vec::new();
    let mut others: Vec<SplitFrame> = Vec::new();
    let ghost mut i: int = 0;
    assert(all.take(0) =~= Seq::<SplitFrame>::empty());
    while rest.len() > 0
        invariant
            0 <= i <= all.len(),
            rest@.len() == all.len() - i,
            forall|j: int| 0 <= j < rest@.len() ==> #[trigger] rest@[j] == all[all.len() - 1 - j],
            mine@ == of_topic(all.take(i), id),
            others@ == not_of_topic(all.take(i), id),
        decreases rest@.len(),
    {
        match rest.pop() {
            Some(f) => {
                proof {
                    assert(f == all[i]);
                    assert(all.take(i + 1).drop_last() =~= all.take(i));
                    assert(all.take(i + 1).last() == f);
                    i = i + 1;
                }
                if f.2.topic_id() == id {
                    mine.push(f);
                } else {
                    others.push(f);
                }
            },
            None => {},
        }
    }
    assert(all.take(i) =~= all);
    (mine, others)
}

/// Parts what is replayed in stream from what is put into order first. Of the latter
/// the frames of each divided topic are kept.
fn part_stream(frames: Vec<SplitFrame>, divided: &Vec<u64>) -> (r: (Vec<WalRecord>, Vec<SplitFrame>))
    ensures
        r.0@ == in_stream(frames@, divided@),
        forall|id: u64|
            divided@.contains(id) ==> #[trigger] of_topic(r.1@, id) == of_topic(frames@, id),
{
    let ghost all = frames@;
    let mut rest = reversed(frames);
    let mut stream: Vec<WalRecord> = Vec::new();
    let mut later: Vec<SplitFrame> = Vec::new();
    let ghost mut i: int = 0;
    assert(all.take(0) =~= Seq::<SplitFrame>::empty());
    while rest.len() > 0
        invariant
            0 <= i <= all.len(),
            rest@.len() == all.len() - i,
            forall|j: int| 0 <= j < rest@.len() ==> #[trigger] rest@[j] == all[all.len() - 1 - j],
            stream@ == in_stream(all.take(i), divided@),
            forall|id: u64|
                divided@.contains(id) ==> #[trigger] of_topic(later@, id) == of_topic(
                    all.take(i),
                    id,
                ),
        decreases rest@.len(),
    {
        let ghost l0 = later@;
        match rest.pop() {
            Some(f) => {
                proof {
                    assert(f == all[i]);
                    assert(all.take(i + 1).drop_last() =~= all.take(i));
                    assert(all.take(i + 1).last() == f);
                }
                if is_in(divided, f.2.topic_id()) {
                    later.push(f);
                    proof {
                        assert(later@.drop_last() =~= l0);
                        assert forall|id: u64| divided@.contains(id) implies #[trigger] of_topic(
                            later@,
                            id,
                        ) == of_topic(all.take(i + 1), id) by {
                            assert(of_topic(l0, id) == of_topic(all.take(i), id));
                        }
                    }
                } else {
                    stream.push(f.2);
                    proof {
                        assert forall|id: u64| divided@.contains(id) implies #[trigger] of_topic(
                            later@,
                            id,
                        ) == of_topic(all.take(i + 1), id) by {
                            assert(of_topic(l0, id) == of_topic(all.take(i), id));
                        }
                    }
                }
                proof {
                    i = i + 1;
                }
            },
            None => {},
        }
    }
    assert(all.take(i) =~= all);
    (stream, later)
}

/// The topics that frames belong to.
fn topics_of(frames: &Vec<WalRecord>) -> (r: Vec<u64>)
    ensures
        forall|id: u64| #[trigger] r@.contains(id) <==> speaks_of(frames@, id),
{
    let mut out: Vec<u64> = Vec::new();
    let mut i: usize = 0;
    while i < frames.len()
        invariant
            i <= frames@.len(),
            out@.len() == i,
            forall|j: int| 0 <= j < i ==> #[trigger] out@[j] == frames@[j].topic(),
        decreases frames@.len() - i,
    {
        out.push(frames[i].topic_id());
        i += 1;
    }
    proof {
        assert forall|id: u64| #[trigger] out@.contains(id) <==> speaks_of(frames@, id) by {
            if out@.contains(id) {
                let j = choose|j: int| 0 <= j < out@.len() && out@[j] == id;
                assert(frames@[j].topic() == id);
            }
            if speaks_of(frames@, id) {
                let j = choose|j: int| 0 <= j < frames@.len() && (#[trigger] frames@[j]).topic() == id;
                assert(out@[j] == id);
            }
        }
    }
    out
}

/// Puts the frames of divided topics into the order in which they were logged.
fn reorder(frames: Vec<SplitFrame>, divided: &Vec<u64>, out: &mut Vec<WalRecord>) -> (r: Ghost<
    Seq<Seq<WalRecord>>,
>)
    requires
        rising(divided@),
    ensures
        is_reordered(frames@, divided@, r@),
        final(out)@ == old(out)@ + joined(r@),
{
    let ghost all = frames@;
    let ghost before = out@;
    let ghost mut runs: Seq<Seq<WalRecord>> = Seq::empty();
    let mut rest = frames;
    let mut i: usize = 0;
    assert(out@ =~= before + joined(runs));
    while i < divided.len()
        invariant
            i <= divided@.len(),
            rising(divided@),
            runs.len() == i,
            forall|j: int|
                i <= j < divided@.len() ==> of_topic(rest@, #[trigger] divided@[j]) == of_topic(
                    all,
                    divided@[j],
                ),
            forall|j: int|
                0 <= j < i ==> is_logged_order(of_topic(all, divided@[j]), #[trigger] runs[j]),
            out@ == before + joined(runs),
        decreases divided@.len() - i,
    {
        let ghost r0 = rest@;
        let id: u64 = divided[i];
        let (mine, others) = part_topic(rest, id);
        rest = others;
        let ordered = order_frames(mine);
        let ghost o = ordered@;
        let mut turned = reversed(ordered);
        let ghost b = out@;
        while turned.len() > 0
            invariant
                turned@.len() <= o.len(),
                forall|j: int| 0 <= j < turned@.len() ==> #[trigger] turned@[j] == o[o.len() - 1 - j],
                out@ == b + o.take(o.len() - turned@.len()),
            decreases turned@.len(),
        {
            let ghost k = o.len() - turned@.len();
            match turned.pop() {
                Some(f) => {
                    out.push(f);
                    assert(out@ =~= b + o.take(k + 1));
                },
                None => {},
            }
        }
        proof {
            assert(o.take(o.len() as int) =~= o);
            let runs0 = runs;
            runs = runs.push(o);
            assert(runs.drop_last() =~= runs0);
            assert(out@ =~= before + joined(runs));
            assert(divided@[i as int] == id);
            assert forall|j: int| i + 1 <= j < divided@.len() implies of_topic(
                rest@,
                #[trigger] divided@[j],
            ) == of_topic(all, divided@[j]) by {
                assert(divided@[i as int] < divided@[j]);
                other_topic_stays(r0, id, divided@[j]);
            }
            assert forall|j: int| 0 <= j < i + 1 implies is_logged_order(
                of_topic(all, divided@[j]),
                #[trigger] runs[j],
            ) by {
                if j < i {
                    assert(runs[j] == runs0[j]);
                }
            }
        }
        i += 1;
    }
    Ghost(runs)
}

/// Gives the frames of a group their places.
fn place_frames(frames: Vec<WalRecord>, group: usize, out: &mut Vec<SplitFrame>)
    ensures
        final(out)@ == old(out)@ + placed(frames@, group),
{
    let ghost all = frames@;
    let ghost before = out@;
    let n: usize = frames.len();
    let mut rest = reversed(frames);
    assert(out@ =~= before + placed(all, group).take(0));
    while rest.len() > 0
        invariant
            n == all.len(),
            rest@.len() <= n,
            forall|j: int| 0 <= j < rest@.len() ==> #[trigger] rest@[j] == all[all.len() - 1 - j],
            out@ == before + placed(all, group).take(n - rest@.len()),
        decreases rest@.len(),
    {
        let k: usize = n - rest.len();
        match rest.pop() {
            Some(f) => {
                out.push((group, k, f));
                assert(out@ =~= before + placed(all, group).take(k + 1));
            },
            None => {},
        }
    }
    assert(placed(all, group).take(n as int) =~= placed(all, group));
}

/// Plans what is replayed after a restart. The order of the groups on disk does not
/// matter for a topic whose frames lie in more than one of them, as they do once the
/// number of shards has changed.
pub fn plan_replay(groups: Vec<LogGroup>, ckpt: &Option<Checkpoint>) -> (r: ReplayPlan)
    ensures
        r.plans(groups@, *ckpt),
{
    let ghost all = groups@;
    let mut keys: Vec<(u64, u64)> = Vec::new();
    let mut k: usize = 0;
    while k < groups.len()
        invariant
            k <= groups@.len(),
            keys@ == group_keys(groups@).take(k as int),
        decreases groups@.len() - k,
    {
        let c: u64 = if groups[k].current {
            1
        } else {
            0
        };
        keys.push((c, groups[k].shard));
        assert(keys@ =~= group_keys(groups@).take(k + 1));
        k += 1;
    }
    assert(keys@ =~= group_keys(all));
    let order = order_by(&keys);
    let sorted = rearranged(groups, &order);
    let ghost ordered = sorted@;
    let ghost parts = parts_of(ordered, *ckpt);
    let n: usize = sorted.len();
    let mut rest = reversed(sorted);
    let mut ids: Vec<Vec<u64>> = Vec::new();
    let mut frames: Vec<SplitFrame> = Vec::new();
    let mut tails: Vec<(String, (u64, u64))> = Vec::new();
    let mut i: usize = 0;
    assert(parts.take(0) =~= Seq::<Seq<WalRecord>>::empty());
    assert(ordered.take(0) =~= Seq::<LogGroup>::empty());
    while i < n
        invariant
            i <= n,
            n == ordered.len(),
            parts == parts_of(ordered, *ckpt),
            rest@.len() == n - i,
            forall|j: int|
                0 <= j < rest@.len() ==> #[trigger] rest@[j] == ordered[ordered.len() - 1 - j],
            ids@.len() == i,
            forall|j: int, id: u64|
                0 <= j < i ==> (#[trigger] ids@[j]@.contains(id) <==> speaks_of(parts[j], id)),
            frames@ == all_placed(parts.take(i as int)),
            are_tails(ordered.take(i as int), *ckpt, tails@),
        decreases n - i,
    {
        match rest.pop() {
            Some(g) => {
                assert(g == ordered[i as int]);
                let place = find_place(ckpt, g.key.as_str());
                let ghost t0 = tails@;
                let ghost ids0 = ids@;
                match find_tail(&g.files, place) {
                    Some(t) => {
                        tails.push((g.key, t));
                        assert(tails@.drop_last() =~= t0);
                    },
                    None => {},
                }
                let part = take_group(g.files, place);
                assert(part@ == parts[i as int]);
                let topics = topics_of(&part);
                ids.push(topics);
                place_frames(part, i, &mut frames);
                proof {
                    assert(parts.take(i + 1).drop_last() =~= parts.take(i as int));
                    assert(parts.take(i + 1).last() == parts[i as int]);
                    assert(ordered.take(i + 1).drop_last() =~= ordered.take(i as int));
                    assert(ordered.take(i + 1).last() == ordered[i as int]);
                    assert forall|j: int, id: u64| 0 <= j < i + 1 implies (#[trigger] ids@[j]@.contains(
                        id,
                    ) <==> speaks_of(parts[j], id)) by {
                        if j < i {
                            assert(ids@[j] == ids0[j]);
                        }
                    }
                }
            },
            None => {},
        }
        i += 1;
    }
    assert(parts.take(i as int) =~= parts);
    assert(ordered.take(i as int) =~= ordered);
    let divided = find_split_topics(&ids);
    proof {
        assert forall|id: u64| #[trigger] divided@.contains(id) <==> is_divided(parts, id) by {
            split_is_divided(ids@, parts, id);
        }
    }
    let (stream, later) = part_stream(frames, &divided);
    let ghost l = later@;
    let mut plan = stream;
    let Ghost(runs) = reorder(later, &divided, &mut plan);
    proof {
        let f = all_placed(parts);
        assert forall|j: int| 0 <= j < runs.len() implies is_logged_order(
            of_topic(f, divided@[j]),
            #[trigger] runs[j],
        ) by {
            assert(divided@.contains(divided@[j]));
            assert(of_topic(l, divided@[j]) == of_topic(f, divided@[j]));
        }
        assert(is_reordered(f, divided@, runs));
        assert(is_replay_plan(parts, plan@));
    }
    ReplayPlan { frames: plan, tails }
}

proof fn split_is_divided(ids: Seq<Vec<u64>>, parts: Seq<Seq<WalRecord>>, id: u64)
    requires
        ids.len() == parts.len(),
        forall|j: int, id: u64|
            0 <= j < ids.len() ==> (#[trigger] ids[j]@.contains(id) <==> speaks_of(parts[j], id)),
    ensures
        is_split(ids, id) <==> is_divided(parts, id),
{
    if is_split(ids, id) {
        let (i, j) = choose|i: int, j: int|
            0 <= i < j < ids.len() && (#[trigger] ids[i])@.contains(id) && (
            #[trigger] ids[j])@.contains(id);
        assert(speaks_of(parts[i], id) && speaks_of(parts[j], id));
    }
    if is_divided(parts, id) {
        let (i, j) = choose|i: int, j: int|
            0 <= i < j < parts.len() && speaks_of(#[trigger] parts[i], id) && speaks_of(
                #[trigger] parts[j],
                id,
            );
        assert(ids[i]@.contains(id) && ids[j]@.contains(id));
    }
}

/// The frames of a topic in a list.
pub open spec fn records_for(frames: Seq<WalRecord>, id: u64) -> Seq<WalRecord>
    decreases frames.len(),
{
    if frames.len() == 0 {
        Seq::empty()
    } else {
        let earlier = records_for(frames.drop_last(), id);
        if frames.last().topic() == id {
            earlier.push(frames.last())
        } else {
            earlier
        }
    }
}

proof fn records_for_sum(a: Seq<WalRecord>, b: Seq<WalRecord>, id: u64)
    ensures
        records_for(a + b, id) == records_for(a, id) + records_for(b, id),
    decreases b.len(),
{
    if b.len() == 0 {
        assert(a + b =~= a);
        assert(records_for(a, id) + records_for(b, id) =~= records_for(a, id));
    } else {
        records_for_sum(a, b.drop_last(), id);
        assert((a + b).drop_last() =~= a + b.drop_last());
        assert((a + b).last() == b.last());
        assert(records_for(a + b, id) =~= records_for(a, id) + records_for(b, id));
    }
}

/// A list of one topic.
spec fn is_of_one(frames: Seq<WalRecord>, topic: u64) -> bool {
    forall|j: int| 0 <= j < frames.len() ==> (#[trigger] frames[j]).topic() == topic
}

proof fn records_for_one(frames: Seq<WalRecord>, topic: u64, id: u64)
    requires
        is_of_one(frames, topic),
    ensures
        records_for(frames, id) == if id == topic {
            frames
        } else {
            Seq::<WalRecord>::empty()
        },
    decreases frames.len(),
{
    if frames.len() > 0 {
        let r = frames.drop_last();
        assert forall|j: int| 0 <= j < r.len() implies (#[trigger] r[j]).topic() == topic by {
            assert(r[j] == frames[j]);
        }
        records_for_one(r, topic, id);
        assert(frames.last() == frames[frames.len() - 1]);
        assert(r.push(frames.last()) =~= frames);
    }
}

proof fn stream_of_topic(frames: Seq<SplitFrame>, divided: Seq<u64>, id: u64)
    ensures
        records_for(in_stream(frames, divided), id) == if divided.contains(id) {
            Seq::<WalRecord>::empty()
        } else {
            records_of(of_topic(frames, id))
        },
    decreases frames.len(),
{
    if frames.len() == 0 {
        assert(records_of(of_topic(frames, id)) =~= Seq::<WalRecord>::empty());
    } else {
        let f = frames.drop_last();
        let x = frames.last();
        stream_of_topic(f, divided, id);
        let earlier = in_stream(f, divided);
        if !divided.contains(x.2.topic()) {
            assert(earlier.push(x.2).drop_last() =~= earlier);
        }
        if x.2.topic() == id {
            assert(records_of(of_topic(f, id).push(x)) =~= records_of(of_topic(f, id)).push(x.2));
        }
    }
}

proof fn of_topic_is_of_topic(frames: Seq<SplitFrame>, id: u64, i: int)
    requires
        0 <= i < of_topic(frames, id).len(),
    ensures
        of_topic(frames, id)[i].2.topic() == id,
        frames.contains(of_topic(frames, id)[i]),
    decreases frames.len(),
{
    if frames.len() > 0 {
        let f = frames.drop_last();
        let earlier = of_topic(f, id);
        if i < earlier.len() {
            of_topic_is_of_topic(f, id, i);
            let x = earlier[i];
            let k = choose|k: int| 0 <= k < f.len() && f[k] == x;
            assert(frames[k] == x);
        } else {
            assert(frames[frames.len() - 1] == frames.last());
        }
    }
}

proof fn logged_order_is_of_one(frames: Seq<SplitFrame>, id: u64, run: Seq<WalRecord>)
    requires
        is_logged_order(of_topic(frames, id), run),
    ensures
        is_of_one(run, id),
{
    let mine = of_topic(frames, id);
    let order = choose|order: Seq<usize>| #[trigger]
        is_replay_order(mine, order) && run == records_of(arranged(mine, order));
    assert forall|j: int| 0 <= j < run.len() implies (#[trigger] run[j]).topic() == id by {
        let k = order[j];
        of_topic_is_of_topic(frames, id, k as int);
    }
}

proof fn joined_for_topic(frames: Seq<SplitFrame>, divided: Seq<u64>, runs: Seq<Seq<WalRecord>>, id: u64)
    requires
        rising(divided),
        is_reordered(frames, divided, runs),
    ensures
        divided.contains(id) ==> is_logged_order(
            of_topic(frames, id),
            records_for(joined(runs), id),
        ),
        !divided.contains(id) ==> records_for(joined(runs), id) == Seq::<WalRecord>::empty(),
    decreases runs.len(),
{
    if runs.len() > 0 {
        let d = divided.drop_last();
        let r = runs.drop_last();
        assert(rising(d));
        assert forall|i: int| 0 <= i < r.len() implies is_logged_order(
            of_topic(frames, d[i]),
            #[trigger] r[i],
        ) by {
            assert(r[i] == runs[i]);
        }
        joined_for_topic(frames, d, r, id);
        let last = divided.last();
        assert(runs.last() == runs[runs.len() - 1]);
        logged_order_is_of_one(frames, last, runs.last());
        records_for_one(runs.last(), last, id);
        records_for_sum(joined(r), runs.last(), id);
        if id == last {
            assert(!d.contains(id)) by {
                if d.contains(id) {
                    let i = choose|i: int| 0 <= i < d.len() && d[i] == id;
                    assert(divided[i] < divided[divided.len() - 1]);
                }
            }
            assert(divided[divided.len() - 1] == id);
            assert(records_for(joined(runs), id) =~= runs.last());
        } else {
            assert(d.contains(id) <==> divided.contains(id)) by {
                if divided.contains(id) {
                    let i = choose|i: int| 0 <= i < divided.len() && divided[i] == id;
                    assert(d[i] == id);
                }
                if d.contains(id) {
                    let i = choose|i: int| 0 <= i < d.len() && d[i] == id;
                    assert(divided[i] == id);
                }
            }
            assert(records_for(joined(runs), id) =~= records_for(joined(r), id));
        }
    } else {
        assert(!divided.contains(id));
    }
}

/// Each topic is replayed as it was logged: every one of its frames once, and in
/// order, whether they lie in one group or, because the number of shards has
/// changed, in several.
pub proof fn topic_is_replayed_as_logged(parts: Seq<Seq<WalRecord>>, plan: Seq<WalRecord>, id: u64)
    requires
        is_replay_plan(parts, plan),
    ensures
        !is_divided(parts, id) ==> records_for(plan, id) == records_of(
            of_topic(all_placed(parts), id),
        ),
        is_divided(parts, id) ==> is_logged_order(
            of_topic(all_placed(parts), id),
            records_for(plan, id),
        ),
{
    let frames = all_placed(parts);
    let (divided, runs) = choose|divided: Seq<u64>, runs: Seq<Seq<WalRecord>>|
        #![trigger is_reordered(all_placed(parts), divided, runs)]
        {
            &&& rising(divided)
            &&& forall|id: u64| #[trigger] divided.contains(id) <==> is_divided(parts, id)
            &&& is_reordered(all_placed(parts), divided, runs)
            &&& plan == in_stream(all_placed(parts), divided) + joined(runs)
        };
    stream_of_topic(frames, divided, id);
    joined_for_topic(frames, divided, runs, id);
    records_for_sum(in_stream(frames, divided), joined(runs), id);
    assert(divided.contains(id) <==> is_divided(parts, id));
    if divided.contains(id) {
        assert(records_for(plan, id) =~= records_for(joined(runs), id));
    } else {
        assert(records_for(plan, id) =~= records_of(of_topic(frames, id)));
    }
}

/// A frame of a list is among those of its topic.
proof fn is_among_its_own(frames: Seq<WalRecord>, j: int)
    requires
        0 <= j < frames.len(),
    ensures
        records_for(frames, frames[j].topic()).len() > 0,
    decreases frames.len(),
{
    if j < frames.len() - 1 {
        is_among_its_own(frames.drop_last(), j);
        assert(frames.drop_last()[j] == frames[j]);
    }
}

/// A frame with a place comes from a group.
proof fn placed_comes_from_group(parts: Seq<Seq<WalRecord>>, x: SplitFrame)
    requires
        all_placed(parts).contains(x),
    ensures
        exists|i: int| 0 <= i < parts.len() && (#[trigger] parts[i]).contains(x.2),
    decreases parts.len(),
{
    if parts.len() > 0 {
        let p = parts.drop_last();
        let a = all_placed(p);
        let b = placed(parts.last(), (parts.len() - 1) as usize);
        let k = choose|k: int| 0 <= k < (a + b).len() && (a + b)[k] == x;
        if k < a.len() {
            assert(a[k] == x);
            assert(a.contains(x));
            placed_comes_from_group(p, x);
            let i = choose|i: int| 0 <= i < p.len() && (#[trigger] p[i]).contains(x.2);
            assert(parts[i] == p[i]);
        } else {
            assert(b[k - a.len()] == x);
            assert(parts.last()[k - a.len()] == x.2);
            assert(parts[parts.len() - 1].contains(x.2));
        }
    }
}

/// The topics of what is replayed are topics of the groups.
proof fn planned_topic_is_logged(parts: Seq<Seq<WalRecord>>, plan: Seq<WalRecord>, j: int)
    requires
        is_replay_plan(parts, plan),
        0 <= j < plan.len(),
    ensures
        exists|i: int| 0 <= i < parts.len() && speaks_of(#[trigger] parts[i], plan[j].topic()),
{
    let id = plan[j].topic();
    let frames = all_placed(parts);
    let mine = of_topic(frames, id);
    is_among_its_own(plan, j);
    topic_is_replayed_as_logged(parts, plan, id);
    assert(mine.len() > 0) by {
        if is_divided(parts, id) {
            let order = choose|order: Seq<usize>| #[trigger]
                is_replay_order(mine, order) && records_for(plan, id) == records_of(
                    arranged(mine, order),
                );
            assert(order.len() == mine.len());
        }
    }
    of_topic_is_of_topic(frames, id, 0);
    placed_comes_from_group(parts, mine[0]);
    let i = choose|i: int| 0 <= i < parts.len() && (#[trigger] parts[i]).contains(mine[0].2);
    let k = choose|k: int| 0 <= k < parts[i].len() && parts[i][k] == mine[0].2;
    assert(parts[i][k].topic() == id);
    assert(speaks_of(parts[i], id));
}

/// The topics of a list of files lie below the last number.
pub open spec fn topics_fit(files: Seq<LogFile>) -> bool {
    forall|i: int, j: int|
        0 <= i < files.len() && 0 <= j < files[i].frames@.len() ==> (
        #[trigger] files[i].frames@[j]).record.topic() < u64::MAX - 1
}

proof fn frames_after_fit(frames: Seq<LogFrame>, start: u64, k: int)
    requires
        forall|j: int| 0 <= j < frames.len() ==> (#[trigger] frames[j]).record.topic() < u64::MAX
            - 1,
        0 <= k < frames_after(frames, start).len(),
    ensures
        frames_after(frames, start)[k].topic() < u64::MAX - 1,
    decreases frames.len(),
{
    if frames.len() > 0 {
        let f = frames.drop_last();
        assert forall|j: int| 0 <= j < f.len() implies (#[trigger] f[j]).record.topic() < u64::MAX
            - 1 by {
            assert(f[j] == frames[j]);
        }
        assert(frames.last() == frames[frames.len() - 1]);
        if k < frames_after(f, start).len() {
            frames_after_fit(f, start, k);
        }
    }
}

proof fn group_frames_fit(files: Seq<LogFile>, place: (u64, u64), k: int)
    requires
        topics_fit(files),
        0 <= k < group_frames(files, place).len(),
    ensures
        group_frames(files, place)[k].topic() < u64::MAX - 1,
    decreases files.len(),
{
    if files.len() > 0 {
        let f = files.drop_last();
        let earlier = group_frames(f, place);
        assert(topics_fit(f)) by {
            assert forall|i: int, j: int| 0 <= i < f.len() && 0 <= j < f[i].frames@.len() implies (
            #[trigger] f[i].frames@[j]).record.topic() < u64::MAX - 1 by {
                assert(files[i].frames@[j] == f[i].frames@[j]);
            }
        }
        if k < earlier.len() {
            group_frames_fit(f, place, k);
        } else {
            let l = files.last().frames@;
            let n = files.len() - 1;
            assert forall|j: int| 0 <= j < l.len() implies (#[trigger] l[j]).record.topic()
                < u64::MAX - 1 by {
                assert(files[n].frames@[j] == l[j]);
            }
            match replay_from(files.last().idx, place.0, place.1) {
                Some(start) => {
                    frames_after_fit(l, start, k - earlier.len());
                },
                None => {},
            }
        }
    }
}

/// What is replayed fits where the log does.
proof fn plan_fits(plan: ReplayPlan, groups: Seq<LogGroup>, ckpt: Option<Checkpoint>)
    requires
        plan.plans(groups, ckpt),
        forall|i: int| 0 <= i < groups.len() ==> topics_fit((#[trigger] groups[i]).files@),
    ensures
        forall|j: int|
            0 <= j < plan.frames@.len() ==> (#[trigger] plan.frames@[j]).topic() < u64::MAX - 1,
{
    let order = choose|order: Seq<usize>| #[trigger]
        is_order_by(group_keys(groups), order) && {
            let ordered = arranged(groups, order);
            &&& is_replay_plan(parts_of(ordered, ckpt), plan.frames@)
            &&& are_tails(ordered, ckpt, plan.tails@)
        };
    let ordered = arranged(groups, order);
    let parts = parts_of(ordered, ckpt);
    assert forall|j: int| 0 <= j < plan.frames@.len() implies (#[trigger] plan.frames@[j]).topic()
        < u64::MAX - 1 by {
        let id = plan.frames@[j].topic();
        planned_topic_is_logged(parts, plan.frames@, j);
        let i = choose|i: int| 0 <= i < parts.len() && speaks_of(#[trigger] parts[i], id);
        let k = choose|k: int| 0 <= k < parts[i].len() && (#[trigger] parts[i][k]).topic() == id;
        let g = groups[order[i] as int];
        assert(ordered[i] == g);
        group_frames_fit(g.files@, place_of(ckpt, g.key@), k);
    }
}

/// Whether a topic of a snapshot can be read back.
pub fn can_restore(s: &SnapshotTopic) -> (r: bool)
    ensures
        r == sound(*s),
{
    if s.head_seq == u64::MAX || s.delete_below.saturating_sub(1) > s.delete_floor {
        return false;
    }
    let mut i: usize = 0;
    while i < s.records.len()
        invariant
            i <= s.records@.len(),
            forall|k: int|
                0 <= k < i ==> s.base_seq <= (#[trigger] s.records@[k]).seq <= s.head_seq,
            forall|j: int, k: int|
                0 <= j < k < i ==> (#[trigger] s.records@[j]).seq < (
                #[trigger] s.records@[k]).seq,
        decreases s.records@.len() - i,
    {
        let seq: u64 = s.records[i].seq;
        if seq < s.base_seq || seq > s.head_seq || (i > 0 && s.records[i - 1].seq >= seq) {
            proof {
                assert(s.records@[i as int].seq == seq);
                if i > 0 {
                    assert(s.records@[i - 1].seq >= seq || seq < s.base_seq || seq > s.head_seq);
                }
            }
            return false;
        }
        i += 1;
    }
    true
}

/// Whether a snapshot can be read back.
pub fn can_read(s: &Snapshot) -> (r: bool)
    ensures
        r == is_readable(*s),
{
    if s.next_topic_id == u64::MAX {
        return false;
    }
    let mut i: usize = 0;
    while i < s.topics.len()
        invariant
            i <= s.topics@.len(),
            forall|k: int|
                0 <= k < i ==> sound(#[trigger] s.topics@[k]),
        decreases s.topics@.len() - i,
    {
        if !can_restore(&s.topics[i]) {
            return false;
        }
        i += 1;
    }
    true
}

/// Whether the topics of a list of files lie below the last number.
pub fn can_replay(files: &Vec<LogFile>) -> (r: bool)
    ensures
        r == topics_fit(files@),
{
    let mut i: usize = 0;
    while i < files.len()
        invariant
            i <= files@.len(),
            forall|k: int, j: int|
                0 <= k < i && 0 <= j < files@[k].frames@.len() ==> (
                #[trigger] files@[k].frames@[j]).record.topic() < u64::MAX - 1,
        decreases files@.len() - i,
    {
        let f = &files[i];
        let mut j: usize = 0;
        while j < f.frames.len()
            invariant
                i < files@.len(),
                *f == files@[i as int],
                j <= f.frames@.len(),
                forall|k: int|
                    0 <= k < j ==> (#[trigger] f.frames@[k]).record.topic() < u64::MAX - 1,
            decreases f.frames@.len() - j,
        {
            if f.frames[j].record.topic_id() >= u64::MAX - 1 {
                assert(files@[i as int].frames@[j as int].record.topic() >= u64::MAX - 1);
                return false;
            }
            j += 1;
        }
        i += 1;
    }
    true
}

proof fn restoring_keeps_the_number(v: EngineView, topics: Seq<SnapshotTopic>)
    ensures
        v.with_restored_topics(topics).next_topic_id == v.next_topic_id,
    decreases topics.len(),
{
    if topics.len() > 0 {
        restoring_keeps_the_number(v, topics.drop_last());
    }
}

proof fn routers_change_no_topic(v: EngineView, routers: Seq<SnapshotRouter>)
    ensures
        v.with_restored_routers(routers).topics == v.topics,
        v.with_restored_routers(routers).next_topic_id == v.next_topic_id,
    decreases routers.len(),
{
    if routers.len() > 0 {
        routers_change_no_topic(v, routers.drop_last());
    }
}

impl EngineView {
    /// The engine with a snapshot read back, if there is one.
    pub open spec fn with_snapshot(self, s: Option<Snapshot>) -> EngineView {
        match s {
            Some(s) => (EngineView {
                next_topic_id: s.next_topic_id,
                ..self
            }).with_restored_topics(s.topics@).with_restored_routers(s.routers@),
            None => self,
        }
    }

    /// The engine after a restart: the snapshot is read back, what the log holds
    /// beyond it is replayed, and every head goes up to what is reserved.
    pub open spec fn recovers(
        self,
        s: Option<Snapshot>,
        groups: Seq<LogGroup>,
        now: i64,
        plan: ReplayPlan,
        v: EngineView,
    ) -> bool {
        &&& plan.plans(
            groups,
            match s {
                Some(s) => Some(s.checkpoint),
                None => None,
            },
        )
        &&& self.with_snapshot(s).replays_all(plan.frames@, now, v)
    }
}

impl Engine {
    /// Reads the state back after a restart, from the snapshot and the groups of
    /// files of the log. Returns how many frames were replayed, and where each
    /// group ends.
    pub fn recover(&mut self, snapshot: Option<Snapshot>, groups: Vec<LogGroup>, now: i64) -> (r: (
        usize,
        Vec<(String, (u64, u64))>,
    ))
        requires
            old(self).wf(),
            old(self)@.next_topic_id < u64::MAX,
            snapshot is Some ==> is_readable(snapshot->0),
            forall|i: int| 0 <= i < groups@.len() ==> topics_fit((#[trigger] groups@[i]).files@),
        ensures
            final(self).wf(),
            exists|plan: ReplayPlan, v: EngineView| #[trigger]
                old(self)@.recovers(snapshot, groups@, now, plan, v) && final(self)@
                    == v.with_heads_reserved() && r.0 == plan.frames@.len() && r.1 == plan.tails,
    {
        let ghost v0 = self@;
        let ghost s0 = snapshot;
        let ghost all = groups@;
        let ckpt = match snapshot {
            Some(s) => {
                proof {
                    let w = EngineView { next_topic_id: s.next_topic_id, ..v0 };
                    restoring_keeps_the_number(w, s.topics@);
                    routers_change_no_topic(w.with_restored_topics(s.topics@), s.routers@);
                }
                Some(self.restore(s))
            },
            None => None,
        };
        let plan = plan_replay(groups, &ckpt);
        let ghost p = plan;
        proof {
            plan_fits(plan, all, ckpt);
        }
        let n: usize = plan.frames.len();
        let tails = plan.tails;
        self.replay_all(plan.frames, now);
        let ghost v = self@;
        self.apply_head_watermarks();
        assert(v0.recovers(s0, all, now, p, v));
        (n, tails)
    }
}

} // verus!
