//! What the log and the snapshots are for: what is written down comes back.
use crate::checkpoint::{has_key, highest_head, is_checkpoint, is_time, payloads_for, with_leftovers,
    Checkpoint, SnapshotMark, SnapshotPolicy};
use crate::engine::EngineView;
use crate::jobs::Fetched;
use crate::lists::{comes_before, is_order_by};
use crate::payload::{after_key, base64_text, decimal, empty_object, json_with_member, opened, token};
use crate::recovery::{logged_record, time_of, unknown_name, with_head_reserved};
use crate::replay::{are_tails, frames_after, group_frames, group_keys, group_tail, parts_of,
    place_of, LogFile, LogFrame, LogGroup};
use crate::snapshot::SnapshotTopic;
use crate::text::texts;
use crate::topic_index::StoredRecord;
use crate::types::{Filter, MatchSel, Router, RouterGuarantee};
use crate::wal::{logged_router, router_of, selection, selector, stamp, WalRecord};
use crate::walfiles::{digits_number, digits_value, file_of, frames_beyond, frames_replayed,
    is_absorbed, is_digit, is_orphan, is_split, number_of, position_of, replay_from, shard_of};
use vstd::prelude::*;

verus! {

/// A time comes back from the log.
pub proof fn a_time_comes_back(now: i64)
    requires
        now >= 0,
    ensures
        stamp(now) == now,
        time_of(stamp(now)) == now,
{
}

/// A filter comes back from the log: it selects in the same way the same value.
pub proof fn a_filter_comes_back(f: Filter, m: MatchSel)
    ensures
        selector(selection(f)).op == f.op,
        selector(selection(f)).value == f.value,
        selection(selector(m)) == m,
{
}

/// A router comes back from the log, with everything that was asked for.
pub proof fn a_router_comes_back(r: Router)
    requires
        r.guarantee == RouterGuarantee::AtLeastOnce,
    ensures
        ({
            let b = router_of(logged_router(r));
            &&& b.name == r.name
            &&& b.source == r.source
            &&& b.dest == r.dest
            &&& b.preserve_node == r.preserve_node
            &&& b.preserve_tag == r.preserve_tag
            &&& b.create_dest == r.create_dest
            &&& b.filter == r.filter
            &&& b.allow_cycle == r.allow_cycle
            &&& b.guarantee == r.guarantee
        }),
{
}

/// The topic a frame belongs to is the one it names; what concerns routers, or the log
/// itself, belongs to none.
pub proof fn which_topic_a_frame_belongs_to(f: WalRecord)
    ensures
        f is Append ==> f.topic() == f->Append_topic_id,
        f is Delete ==> f.topic() == f->Delete_topic_id,
        f is TopicConfig ==> f.topic() == f->TopicConfig_topic_id,
        f is EvictWatermark ==> f.topic() == f->EvictWatermark_topic_id,
        f is Lease ==> f.topic() == f->Lease_topic_id,
        f is HeadWatermark ==> f.topic() == f->HeadWatermark_topic_id,
        f is RouterCreate || f is RouterDelete || f is CheckpointMark ==> f.topic() == 0,
{
}

/// Of a file, the frames that end beyond the place are replayed, in order, and no others.
pub proof fn frames_beyond_the_place_are_replayed(
    frames: Seq<LogFrame>,
    f: LogFrame,
    start: u64,
)
    ensures
        frames_after(Seq::<LogFrame>::empty(), start).len() == 0,
        f.end > start ==> frames_after(frames.push(f), start) == frames_after(frames, start).push(
            f.record,
        ),
        f.end <= start ==> frames_after(frames.push(f), start) == frames_after(frames, start),
{
    assert(frames.push(f).drop_last() =~= frames);
}

/// Of a group, the files before that of the checkpoint are left out, that of the checkpoint
/// is replayed from its place on, and those behind it as a whole, in order.
pub proof fn files_behind_the_checkpoint_are_replayed(
    files: Seq<LogFile>,
    f: LogFile,
    place: (u64, u64),
)
    ensures
        group_frames(Seq::<LogFile>::empty(), place).len() == 0,
        f.idx < place.0 ==> group_frames(files.push(f), place) == group_frames(files, place),
        f.idx == place.0 ==> group_frames(files.push(f), place) == group_frames(files, place)
            + frames_after(f.frames@, place.1),
        f.idx > place.0 ==> group_frames(files.push(f), place) == group_frames(files, place)
            + frames_after(f.frames@, 0),
{
    assert(files.push(f).drop_last() =~= files);
}

/// What is counted to be replayed is what is replayed.
pub proof fn what_is_counted_is_replayed(
    files: Seq<LogFile>,
    ends: Seq<(u64, Vec<u64>)>,
    place: (u64, u64),
)
    requires
        files.len() == ends.len(),
        forall|i: int|
            0 <= i < files.len() ==> (#[trigger] files[i]).idx == ends[i].0 && ends[i].1@
                == files[i].frames@.map_values(|f: LogFrame| f.end),
    ensures
        frames_replayed(ends, place.0, place.1) == group_frames(files, place).len(),
    decreases files.len(),
{
    if files.len() > 0 {
        let (g, e) = (files.drop_last(), ends.drop_last());
        assert forall|i: int| 0 <= i < g.len() implies (#[trigger] g[i]).idx == e[i].0 && e[i].1@
            == g[i].frames@.map_values(|f: LogFrame| f.end) by {
            assert(files[i] == g[i] && ends[i] == e[i]);
        }
        what_is_counted_is_replayed(g, e, place);
        let n = files.len() - 1;
        assert(files[n].idx == ends[n].0);
        match replay_from(files[n].idx, place.0, place.1) {
            Some(s) => {
                beyond_is_after(files[n].frames@, s);
            },
            None => {},
        }
    }
}

proof fn beyond_is_after(frames: Seq<LogFrame>, start: u64)
    ensures
        frames_beyond(frames.map_values(|f: LogFrame| f.end), start) == frames_after(
            frames,
            start,
        ).len(),
    decreases frames.len(),
{
    let ends = frames.map_values(|f: LogFrame| f.end);
    if frames.len() > 0 {
        beyond_is_after(frames.drop_last(), start);
        assert(ends.drop_last() =~= frames.drop_last().map_values(|f: LogFrame| f.end));
    }
}

/// A group is replayed from the place its checkpoint has for it, and a group that the
/// checkpoint does not know from the start.
pub proof fn a_group_goes_on_from_its_place(
    c: Checkpoint,
    keyed: Seq<(String, (u64, u64))>,
    last: u64,
    key: Seq<char>,
)
    requires
        is_checkpoint(c, keyed, last),
    ensures
        (forall|i: int| 0 <= i < keyed.len() ==> (#[trigger] keyed[i]).0@ != key) ==> place_of(
            Some(c),
            key,
        ) == (0u64, 0u64),
        forall|i: int|
            0 <= i < keyed.len() && (#[trigger] keyed[i]).0@ == key && (forall|j: int|
                0 <= j < i ==> (#[trigger] keyed[j]).0@ != key) ==> place_of(Some(c), key)
                == keyed[i].1,
        place_of(None, key) == (0u64, 0u64),
        c.last_checkpoint_seq == last,
{
    let keys = c.shard_keys@;
    assert(texts(keys).len() == keyed.len());
    assert forall|i: int| 0 <= i < keyed.len() implies (#[trigger] keys[i])@ == keyed[i].0@ by {
        assert(texts(keys)[i] == keys[i]@);
    }
    assert forall|i: int| 0 <= i < keyed.len() implies #[trigger] c.shards@[i] == keyed[i].1 by {}
    first_under_key(keys, c.shards@, key, 0);
    if forall|i: int| 0 <= i < keyed.len() ==> (#[trigger] keyed[i]).0@ != key {
        assert forall|i: int| 0 <= i < keys.len() implies (#[trigger] keys[i])@ != key by {
            assert(keyed[i].0@ != key);
        }
    }
    assert forall|i: int|
        0 <= i < keyed.len() && (#[trigger] keyed[i]).0@ == key && (forall|j: int|
            0 <= j < i ==> (#[trigger] keyed[j]).0@ != key) implies place_of(Some(c), key)
        == keyed[i].1 by {
        assert(keys[i]@ == key);
        assert forall|j: int| 0 <= j < i implies (#[trigger] keys[j])@ != key by {
            assert(keyed[j].0@ != key);
        }
        assert(c.shards@[i] == keyed[i].1);
    }
}

proof fn first_under_key(keys: Seq<String>, positions: Seq<(u64, u64)>, key: Seq<char>, n: int)
    requires
        0 <= n <= keys.len(),
        keys.len() == positions.len(),
    ensures
        (forall|i: int| n <= i < keys.len() ==> (#[trigger] keys[i])@ != key) ==> position_of(
            keys,
            positions,
            key,
            n,
        ) is None,
        forall|i: int|
            n <= i < keys.len() && (#[trigger] keys[i])@ == key && (forall|j: int|
                n <= j < i ==> (#[trigger] keys[j])@ != key) ==> position_of(
                keys,
                positions,
                key,
                n,
            ) == Some(positions[i]),
    decreases keys.len() - n,
{
    if n < keys.len() {
        first_under_key(keys, positions, key, n + 1);
        if keys[n]@ == key {
            assert forall|i: int|
                n <= i < keys.len() && (#[trigger] keys[i])@ == key && (forall|j: int|
                    n <= j < i ==> (#[trigger] keys[j])@ != key) implies position_of(
                keys,
                positions,
                key,
                n,
            ) == Some(positions[i]) by {
                if i > n {
                    assert(keys[n]@ != key);
                }
            }
        }
    }
}

/// The groups of a checkpoint are those that are written to, in their order, and those that
/// were found and are not.
pub proof fn no_group_is_left_out(
    keyed: Seq<(String, (u64, u64))>,
    found: Seq<(String, (u64, u64))>,
    key: Seq<char>,
)
    ensures
        has_key(with_leftovers(keyed, found), key) <==> has_key(keyed, key) || has_key(found, key),
        with_leftovers(keyed, found).len() >= keyed.len(),
        with_leftovers(keyed, found).take(keyed.len() as int) == keyed,
    decreases found.len(),
{
    let all = with_leftovers(keyed, found);
    if found.len() == 0 {
        assert(keyed.take(keyed.len() as int) =~= keyed);
        assert(!has_key(found, key));
    } else {
        let f = found.drop_last();
        let last = found.last();
        no_group_is_left_out(keyed, f, key);
        let e = with_leftovers(keyed, f);
        if has_key(found, key) {
            let i = choose|i: int| 0 <= i < found.len() && (#[trigger] found[i]).0@ == key;
            if i < f.len() {
                assert(f[i].0@ == key);
                assert(has_key(f, key));
            }
        }
        if has_key(f, key) {
            let i = choose|i: int| 0 <= i < f.len() && (#[trigger] f[i]).0@ == key;
            assert(found[i].0@ == key);
        }
        assert(found[found.len() - 1] == last);
        if !has_key(keyed, last.0@) {
            assert(all.take(keyed.len() as int) =~= e.take(keyed.len() as int));
            assert(all[e.len() as int] == last);
            if has_key(e, key) {
                let i = choose|i: int| 0 <= i < e.len() && (#[trigger] e[i]).0@ == key;
                assert(all[i].0@ == key);
            }
            if has_key(all, key) {
                let i = choose|i: int| 0 <= i < all.len() && (#[trigger] all[i]).0@ == key;
                if i < e.len() {
                    assert(e[i].0@ == key);
                }
            }
            if last.0@ == key {
                assert(all[e.len() as int].0@ == key);
            }
        }
    }
}

/// A file of the log goes by `wal-`, its number and `.log`, the directory of a shard by
/// `shard-` and its number.
pub proof fn how_files_and_directories_are_named(digits: Seq<char>)
    requires
        digits.len() > 0,
        forall|i: int| 0 <= i < digits.len() ==> '0' <= #[trigger] digits[i] <= '9',
        digits_value(digits) <= u64::MAX,
    ensures
        file_of("wal-"@ + digits + ".log"@) == Some(digits_value(digits) as u64),
        shard_of("shard-"@ + digits) == Some(digits_value(digits) as u64),
{
    reveal_strlit("wal-");
    reveal_strlit(".log");
    reveal_strlit("shard-");
    assert forall|i: int| 0 <= i < digits.len() implies is_digit(#[trigger] digits[i]) by {}
    assert(digits_number(digits) == Some(digits_value(digits) as u64));
    assert(digits[0] != '+');
    assert(number_of(digits) == Some(digits_value(digits) as u64));
    let name = "wal-"@ + digits + ".log"@;
    assert("wal-"@.is_prefix_of(name));
    let rest = name.skip(4);
    assert(rest =~= digits + ".log"@);
    assert(rest.skip(rest.len() - 4) =~= ".log"@);
    assert(rest.take(rest.len() - 4) =~= digits);
    let dir = "shard-"@ + digits;
    assert("shard-"@.is_prefix_of(dir));
    assert(dir.skip(6) =~= digits);
}

/// Digits spell their number.
pub proof fn digits_spell_a_number(s: Seq<char>, c: char)
    requires
        '0' <= c <= '9',
    ensures
        digits_value(Seq::<char>::empty()) == 0,
        digits_value(s.push(c)) == 10 * digits_value(s) + (c as u32 - 48),
{
    assert(s.push(c).drop_last() =~= s);
}

/// A file can go once the checkpoint of its shard lies in a later one; of a directory that
/// no shard uses, with one shard or with as many as come before it, every file can.
pub proof fn which_files_can_go(
    files: Seq<Vec<u64>>,
    positions: Seq<(u64, u64)>,
    dirs: Seq<(u64, Vec<u64>)>,
    shards: u64,
    k: int,
    idx: u64,
)
    ensures
        0 <= k < files.len() && files[k]@.contains(idx) ==> (is_absorbed(files, positions, k, idx)
            <==> k < positions.len() && idx < positions[k].0),
        0 <= k < dirs.len() && dirs[k].1@.contains(idx) ==> (is_orphan(dirs, shards, k, idx)
            <==> shards <= 1 || dirs[k].0 >= shards),
{
}

/// A watermark that is replayed raises the floors it names, where they are lower, and
/// changes nothing else.
pub proof fn a_watermark_raises_the_floors(
    v: EngineView,
    id: u64,
    evict: u64,
    expiry: u64,
    name: Seq<char>,
)
    requires
        v.name_of(id) == Some(name),
        v.topics.contains_key(name),
        v.topics[name].name == name,
    ensures
        ({
            let t = v.topics[name];
            let u = v.with_watermark(id, evict, expiry).topics[name];
            &&& u.floors.evict_floor == (if evict > t.floors.evict_floor {
                evict
            } else {
                t.floors.evict_floor
            })
            &&& u.floors.expiry_floor == (if expiry > t.floors.expiry_floor {
                expiry
            } else {
                t.floors.expiry_floor
            })
            &&& u.floors.delete_floor == t.floors.delete_floor
            &&& u.recs == t.recs
            &&& u.head == t.head
            &&& u.config == t.config
        }),
{
}

/// Numbers that were reserved are not given out again: the head goes up to the highest of
/// them, with nothing to be read in between.
pub proof fn a_reservation_moves_the_head(
    v: EngineView,
    id: u64,
    reserved: u64,
    name: Seq<char>,
    seq: u64,
)
    requires
        v.name_of(id) == Some(name),
        v.topics.contains_key(name),
        v.topics[name].name == name,
        v.topics[name].ok(),
        reserved < u64::MAX,
        v.topics[name].reserved < u64::MAX,
    ensures
        ({
            let t = v.topics[name];
            let most = if reserved > t.reserved {
                reserved
            } else {
                t.reserved
            };
            let u = with_head_reserved(v.with_reservation(id, reserved).topics[name]);
            &&& u.head == (if most > t.head {
                most
            } else {
                t.head
            })
            &&& u.reserved >= most
            &&& u.tail() > u.head
            &&& u.has_live(seq) <==> t.has_live(seq)
            &&& u.has_live(seq) ==> u.rec(seq) == t.rec(seq)
            &&& u.live == t.live
            &&& u.bytes == t.bytes
        }),
{
}

/// A topic of which the log has nothing but records gets a name from its number, and is
/// empty.
pub proof fn an_unknown_topic_gets_a_name(v: EngineView, id: u64)
    requires
        id < u64::MAX,
    ensures
        unknown_name(id) == "topic-"@ + crate::payload::decimal(id as nat),
        v.name_of(id) is Some ==> v.with_unknown(id) == v,
        v.name_of(id) is None && !v.topics.contains_key(unknown_name(id)) ==> {
            let u = v.with_unknown(id);
            &&& u.topics.contains_key(unknown_name(id))
            &&& u.topics[unknown_name(id)].topic_id == id
            &&& u.topics[unknown_name(id)].recs.len() == 0
            &&& u.topics[unknown_name(id)].head == 0
            &&& u.next_topic_id > id
        },
{
}

/// It is time for a snapshot once so much was logged, or so much time has passed, since the
/// last; and never without a log or without a topic.
pub proof fn when_it_is_time_for_a_snapshot(
    topics: nat,
    log_bytes: Option<u64>,
    last: SnapshotMark,
    policy: SnapshotPolicy,
    now: i64,
)
    requires
        now >= 0,
    ensures
        log_bytes is None || topics == 0 ==> !is_time(topics, log_bytes, last, policy, now),
        log_bytes is Some && topics > 0 && log_bytes->0 >= last.log_bytes && now >= last.ms ==> (
        is_time(topics, log_bytes, last, policy, now) <==> log_bytes->0 - last.log_bytes
            >= policy.bytes_threshold || now - last.ms >= policy.interval_ms),
{
}

/// A checkpoint notes the highest head there is.
pub proof fn the_highest_head_is_noted(v: EngineView, names: Seq<Seq<char>>)
    ensures
        forall|i: int|
            0 <= i < names.len() ==> v.topics[#[trigger] names[i]].head <= highest_head(v, names),
        names.len() > 0 ==> exists|i: int|
            0 <= i < names.len() && v.topics[#[trigger] names[i]].head == highest_head(v, names),
    decreases names.len(),
{
    if names.len() > 0 {
        let p = names.drop_last();
        the_highest_head_is_noted(v, p);
        assert forall|i: int| 0 <= i < names.len() implies v.topics[#[trigger] names[i]].head
            <= highest_head(v, names) by {
            if i < p.len() {
                assert(p[i] == names[i]);
            }
        }
        if v.topics[names.last()].head == highest_head(v, names) {
            assert(names[names.len() - 1] == names.last());
        } else {
            let i = choose|i: int|
                0 <= i < p.len() && v.topics[#[trigger] p[i]].head == highest_head(v, p);
            assert(names[i] == p[i]);
        }
    }
}

/// The payloads fetched for a topic are those of the first entry with its number.
pub proof fn whose_payloads_they_are(all: Seq<(u64, Vec<Fetched>)>, id: u64, i: int)
    requires
        0 <= i < all.len(),
        all[i].0 == id,
        forall|j: int| 0 <= j < i ==> (#[trigger] all[j]).0 != id,
    ensures
        payloads_for(all, id) == all[i].1@,
    decreases all.len(),
{
    if i > 0 {
        let rest = all.drop_first();
        assert(all[0].0 != id);
        assert forall|j: int| 0 <= j < i - 1 implies (#[trigger] rest[j]).0 != id by {
            assert(rest[j] == all[j + 1]);
        }
        assert(rest[i - 1] == all[i]);
        whose_payloads_they_are(rest, id, i - 1);
    }
}

/// A topic is spread over several groups where two of them hold frames of it; frames that
/// belong to no topic are never taken for one.
pub proof fn when_a_topic_is_spread(groups: Seq<Vec<u64>>, id: u64, i: int, j: int)
    ensures
        !is_split(groups, 0),
        id != 0 && 0 <= i < j < groups.len() && groups[i]@.contains(id) && groups[j]@.contains(id)
            ==> is_split(groups, id),
        (forall|k: int| 0 <= k < groups.len() && k != i ==> !(#[trigger] groups[k])@.contains(id))
            ==> !is_split(groups, id),
{
}

/// What is read back from a snapshot counts against the quota, topic by topic.
pub proof fn what_is_read_back_counts(
    v: EngineView,
    topics: Seq<SnapshotTopic>,
    s: SnapshotTopic,
)
    requires
        v.with_restored_topics(topics).total + s.bytes_retained <= u64::MAX,
    ensures
        v.with_restored_topics(Seq::empty()) == v,
        v.with_restored_topics(topics.push(s)).total == v.with_restored_topics(topics).total
            + s.bytes_retained,
        v.with_restored_topics(topics.push(s)).topics.contains_key(s.name@),
        v.with_restored_topics(topics.push(s)).topics[s.name@].head == s.head_seq,
{
    assert(topics.push(s).drop_last() =~= topics);
}

/// The digits of a number spell it.
pub proof fn the_digits_of_a_number_spell_it(n: nat)
    ensures
        digits_value(decimal(n)) == n,
        decimal(n).len() > 0,
        forall|i: int| 0 <= i < decimal(n).len() ==> is_digit(#[trigger] decimal(n)[i]),
        n <= u64::MAX ==> digits_number(decimal(n)) == Some(n as u64),
    decreases n,
{
    if n < 10 {
        assert(decimal(n).drop_last() =~= Seq::<char>::empty());
        assert(digits_value(Seq::<char>::empty()) == 0);
        assert(decimal(n).last() as u32 == 48 + n);
    } else {
        let rest = decimal(n / 10);
        the_digits_of_a_number_spell_it(n / 10);
        assert(decimal(n).drop_last() =~= rest);
        assert(decimal(n).last() as u32 == 48 + n % 10);
        assert forall|i: int| 0 <= i < decimal(n).len() implies is_digit(
            #[trigger] decimal(n)[i],
        ) by {
            if i < rest.len() {
                assert(decimal(n)[i] == rest[i]);
            }
        }
    }
}

/// A group ends with what is sound in its last file; where all its files lie before the
/// checkpoint, it ends there; and where it has no file it has no end.
pub proof fn where_a_group_ends(files: Seq<LogFile>, place: (u64, u64))
    ensures
        files.len() == 0 ==> group_tail(files, place) is None,
        files.len() > 0 && files.last().idx >= place.0 ==> group_tail(files, place) == Some(
            (files.last().idx, files.last().valid_len),
        ),
        files.len() > 0 && files.last().idx < place.0 ==> group_tail(files, place) == Some(place),
{
}

/// Every group that has files has its end among those of the plan, under its key; and there
/// is no other.
pub proof fn every_group_has_its_end(
    groups: Seq<LogGroup>,
    ckpt: Option<Checkpoint>,
    tails: Seq<(String, (u64, u64))>,
)
    requires
        are_tails(groups, ckpt, tails),
    ensures
        tails.len() <= groups.len(),
        forall|i: int|
            0 <= i < groups.len() && (#[trigger] groups[i]).files@.len() > 0 ==> ends_with(
                groups[i],
                ckpt,
                tails,
            ),
        (forall|i: int| 0 <= i < groups.len() ==> (#[trigger] groups[i]).files@.len() > 0)
            ==> tails.len() == groups.len(),
    decreases groups.len(),
{
    if groups.len() > 0 {
        let rest = groups.drop_last();
        let g = groups.last();
        let place = place_of(ckpt, g.key@);
        where_a_group_ends(g.files@, place);
        let before = if g.files@.len() > 0 {
            tails.drop_last()
        } else {
            tails
        };
        every_group_has_its_end(rest, ckpt, before);
        assert forall|i: int|
            0 <= i < groups.len() && (#[trigger] groups[i]).files@.len() > 0 implies ends_with(
            groups[i],
            ckpt,
            tails,
        ) by {
            if i < rest.len() {
                assert(rest[i] == groups[i]);
                let k = choose|k: int|
                    0 <= k < before.len() && (#[trigger] before[k]).0@ == groups[i].key@
                        && group_tail(groups[i].files@, place_of(ckpt, groups[i].key@)) == Some(
                        before[k].1,
                    );
                assert(tails[k] == before[k]);
            } else {
                assert(tails[tails.len() - 1] == tails.last());
            }
        }
        if forall|i: int| 0 <= i < groups.len() ==> (#[trigger] groups[i]).files@.len() > 0 {
            assert(groups[groups.len() - 1].files@.len() > 0);
            assert forall|i: int| 0 <= i < rest.len() implies (
            #[trigger] rest[i]).files@.len() > 0 by {
                assert(rest[i] == groups[i]);
            }
        }
    }
}

/// The end of a group is among the ends of a plan.
pub open spec fn ends_with(
    g: LogGroup,
    ckpt: Option<Checkpoint>,
    tails: Seq<(String, (u64, u64))>,
) -> bool {
    exists|k: int|
        0 <= k < tails.len() && (#[trigger] tails[k]).0@ == g.key@ && group_tail(
            g.files@,
            place_of(ckpt, g.key@),
        ) == Some(tails[k].1)
}

/// Groups that are no longer written to come before those that are; of either kind the lower
/// shard comes first.
pub proof fn which_group_comes_first(groups: Seq<LogGroup>, order: Seq<usize>, i: int, j: int)
    requires
        is_order_by(group_keys(groups), order),
        0 <= i < j < order.len(),
    ensures
        ({
            let a = groups[order[i] as int];
            let b = groups[order[j] as int];
            &&& !(a.current && !b.current)
            &&& a.current == b.current ==> a.shard <= b.shard
        }),
{
    assert(comes_before(group_keys(groups), order[i], order[j]));
}

/// A group is replayed from its place in the checkpoint on.
pub proof fn a_group_is_replayed_from_its_place(
    groups: Seq<LogGroup>,
    c: Checkpoint,
    keyed: Seq<(String, (u64, u64))>,
    last: u64,
    i: int,
    k: int,
)
    requires
        is_checkpoint(c, keyed, last),
        0 <= i < groups.len(),
        0 <= k < keyed.len(),
        keyed[k].0@ == groups[i].key@,
        forall|j: int| 0 <= j < k ==> (#[trigger] keyed[j]).0@ != groups[i].key@,
    ensures
        parts_of(groups, Some(c)).len() == groups.len(),
        parts_of(groups, Some(c))[i] == group_frames(groups[i].files@, keyed[k].1),
        parts_of(groups, None)[i] == group_frames(groups[i].files@, (0, 0)),
{
    a_group_goes_on_from_its_place(c, keyed, last, groups[i].key@);
}

/// A record comes back from its frame with its time, its node and its tag, at hand and not
/// deleted, and with the size of its payload; where its text holds no data, with `null`.
pub proof fn what_comes_back_of_a_frame(rec: StoredRecord, f: WalRecord)
    requires
        f is Append,
        logged_record(
            rec,
            f->Append_ts,
            f->Append_node,
            f->Append_tag,
            f->Append_data,
        ),
        f->Append_ts <= i64::MAX,
    ensures
        rec.ts == f->Append_ts,
        rec.node == f->Append_node,
        rec.tag == f->Append_tag,
        rec.data is Some,
        !rec.deleted,
        rec.payload_resident,
        opened(f->Append_data@).0 is Some ==> rec.data->0.text@ == opened(f->Append_data@).0->Some_0.0,
        opened(f->Append_data@).0 is None ==> rec.data->0.text@ == seq!['n', 'u', 'l', 'l'],
        opened(f->Append_data@).1 is Some <==> rec.meta is Some,
        rec.meta is Some ==> rec.meta->0.text@ == opened(f->Append_data@).1->Some_0.0,
        rec.meta is None && rec.data->0.size() <= u64::MAX ==> rec.bytes == rec.data->0.size(),
{
}

/// The token for the place after a name is an object with that name under `after`, as base64.
pub proof fn what_a_token_holds(name: Seq<char>)
    ensures
        token(name) == base64_text(
            vstd::utf8::encode_utf8(json_with_member("{}"@, "after"@, name).0),
        ),
{
    reveal_strlit("{}");
    reveal_strlit("after");
    assert(empty_object() =~= "{}"@);
    assert(after_key() =~= "after"@);
}

/// A checkpoint has a place for every group, under its key, in their order; that of the first
/// is also its own.
pub proof fn what_a_checkpoint_holds(
    c: Checkpoint,
    keyed: Seq<(String, (u64, u64))>,
    last: u64,
    i: int,
)
    requires
        is_checkpoint(c, keyed, last),
        0 <= i < keyed.len(),
    ensures
        c.shards@.len() == keyed.len(),
        c.shard_keys@.len() == keyed.len(),
        c.shard_keys@[i]@ == keyed[i].0@,
        c.shards@[i] == keyed[i].1,
        (c.wal_idx, c.wal_offset) == keyed[0].1,
{
    assert(texts(c.shard_keys@).len() == keyed.len());
    assert(texts(c.shard_keys@)[i] == keyed[i].0@);
}

} // verus!
