//! The files of the log: their names, what of them is replayed and in which order,
//! and which can go.
use crate::lists::{arranged, is_arrangement, rearranged, reversed};
use crate::seqs::{rising, SeqSet};
use crate::text::{starts_with, text_eq};
use crate::wal::WalRecord;
use vstd::prelude::*;

verus! {

/// A decimal digit.
pub open spec fn is_digit(c: char) -> bool {
    '0' <= c <= '9'
}

/// The number that decimal digits spell.
pub open spec fn digits_value(s: Seq<char>) -> nat
    decreases s.len(),
{
    if s.len() == 0 {
        0
    } else {
        digits_value(s.drop_last()) * 10 + (s.last() as u32 - '0' as u32) as nat
    }
}

/// The number that a list of digits spells, if it is one and the number fits.
pub open spec fn digits_number(s: Seq<char>) -> Option<u64> {
    if s.len() > 0 && (forall|i: int| 0 <= i < s.len() ==> is_digit(#[trigger] s[i]))
        && digits_value(s) <= u64::MAX {
        Some(digits_value(s) as u64)
    } else {
        None
    }
}

/// The number that a text spells: digits, perhaps with a plus before them, that fit.
pub open spec fn number_of(s: Seq<char>) -> Option<u64> {
    if s.len() > 0 && s[0] == '+' {
        digits_number(s.drop_first())
    } else {
        digits_number(s)
    }
}

/// The number grows with each digit.
proof fn digits_grow(s: Seq<char>, n: int)
    requires
        0 <= n <= s.len(),
    ensures
        digits_value(s.take(n)) <= digits_value(s),
    decreases s.len() - n,
{
    if n == s.len() {
        assert(s.take(n) =~= s);
    } else {
        digits_grow(s, n + 1);
        assert(s.take(n + 1).drop_last() =~= s.take(n));
    }
}

/// Reads a number.
pub fn parse_number(s: &str) -> (r: Option<u64>)
    ensures
        r == number_of(s@),
{
    let n: usize = s.unicode_len();
    let start: usize = if n > 0 && s.get_char(0) == '+' {
        1
    } else {
        0
    };
    let ghost body = if s@.len() > 0 && s@[0] == '+' {
        s@.drop_first()
    } else {
        s@
    };
    assert(body =~= s@.skip(start as int));
    if start >= n {
        return None;
    }
    let mut v: u64 = 0;
    let mut i: usize = start;
    assert(body.take(0) =~= Seq::<char>::empty());
    while i < n
        invariant
            start <= i <= n,
            n == s@.len(),
            body == s@.skip(start as int),
            v == digits_value(body.take(i - start)),
            forall|j: int| 0 <= j < i - start ==> is_digit(#[trigger] body[j]),
            number_of(s@) == digits_number(body),
        decreases n - i,
    {
        let c = s.get_char(i);
        assert(body[i - start] == c);
        if !('0' <= c && c <= '9') {
            assert(!is_digit(body[i - start]));
            return None;
        }
        let d: u64 = (c as u32 - '0' as u32) as u64;
        proof {
            assert(body.take(i - start + 1).drop_last() =~= body.take(i - start));
            assert(body.take(i - start + 1).last() == c);
            digits_grow(body, i - start + 1);
        }
        if v > u64::MAX / 10 || (v * 10) > u64::MAX - d {
            return None;
        }
        v = v * 10 + d;
        i += 1;
    }
    assert(body.take(i - start) =~= body);
    Some(v)
}

/// The number of a shard, from the name of its directory: `shard-` and the number.
pub open spec fn shard_of(name: Seq<char>) -> Option<u64> {
    if "shard-"@.is_prefix_of(name) {
        number_of(name.skip("shard-"@.len() as int))
    } else {
        None
    }
}

/// Reads the number of a shard from the name of its directory.
pub fn parse_shard_dir(name: &str) -> (r: Option<u64>)
    ensures
        r == shard_of(name@),
{
    let p = "shard-";
    if !starts_with(name, p) {
        return None;
    }
    let k: usize = p.unicode_len();
    let n: usize = name.unicode_len();
    let rest = name.substring_char(k, n);
    assert(rest@ =~= name@.skip(k as int));
    parse_number(rest)
}

/// The number of a file of the log, from its name: `wal-`, the number and `.log`.
pub open spec fn file_of(name: Seq<char>) -> Option<u64> {
    let rest = name.skip("wal-"@.len() as int);
    if "wal-"@.is_prefix_of(name) && rest.len() >= ".log"@.len() && rest.skip(
        rest.len() - ".log"@.len(),
    ) == ".log"@ {
        number_of(rest.take(rest.len() - ".log"@.len()))
    } else {
        None
    }
}

/// Reads the number of a file of the log from its name.
pub fn parse_wal_file(name: &str) -> (r: Option<u64>)
    ensures
        r == file_of(name@),
{
    let p = "wal-";
    let e = ".log";
    if !starts_with(name, p) {
        return None;
    }
    let k: usize = p.unicode_len();
    let m: usize = e.unicode_len();
    let n: usize = name.unicode_len();
    let ghost rest = name@.skip(k as int);
    if n - k < m {
        return None;
    }
    let end = name.substring_char(n - m, n);
    assert(end@ =~= rest.skip(rest.len() - m));
    if !text_eq(end, e) {
        return None;
    }
    let mid = name.substring_char(k, n - m);
    assert(mid@ =~= rest.take(rest.len() - m));
    parse_number(mid)
}

/// Numbers with places, in ascending order; equal numbers in the order of their
/// places.
pub open spec fn numbered_in_order(s: Seq<(u64, usize)>) -> bool {
    forall|i: int, j: int|
        0 <= i < j < s.len() ==> (#[trigger] s[i]).0 < (#[trigger] s[j]).0 || s[i].0 == s[j].0
            && s[i].1 < s[j].1
}

/// The place for a number behind all that are not above it.
fn insert_numbered(list: &mut Vec<(u64, usize)>, n: u64, place: usize)
    requires
        numbered_in_order(old(list)@),
        forall|i: int| 0 <= i < old(list)@.len() ==> (#[trigger] old(list)@[i]).1 < place,
    ensures
        numbered_in_order(final(list)@),
        forall|x: (u64, usize)| #[trigger]
            final(list)@.contains(x) <==> old(list)@.contains(x) || x == (n, place),
{
    let ghost o = list@;
    let mut p: usize = 0;
    while p < list.len() && list[p].0 <= n
        invariant
            p <= list@.len(),
            list@ == o,
            forall|j: int| 0 <= j < p ==> (#[trigger] o[j]).0 <= n,
        decreases list@.len() - p,
    {
        p += 1;
    }
    list.insert(p, (n, place));
    proof {
        let u = list@;
        assert(u =~= o.insert(p as int, (n, place)));
        assert forall|i: int, j: int| 0 <= i < j < u.len() implies (#[trigger] u[i]).0 < (
        #[trigger] u[j]).0 || u[i].0 == u[j].0 && u[i].1 < u[j].1 by {
            let x = if i < p {
                i
            } else {
                i - 1
            };
            let y = if j < p {
                j
            } else {
                j - 1
            };
            if i == p {
                assert(u[j] == o[y]);
                if y > p {
                    assert(o[p as int].0 <= o[y].0);
                }
            } else if j == p {
                assert(u[i] == o[x]);
            } else {
                assert(u[i] == o[x] && u[j] == o[y]);
            }
        }
        assert forall|x: (u64, usize)| #[trigger] u.contains(x) <==> o.contains(x) || x == (
            n,
            place,
        ) by {
            if u.contains(x) {
                let k = choose|k: int| 0 <= k < u.len() && u[k] == x;
                if k < p {
                    assert(o[k] == x);
                } else if k > p {
                    assert(o[k - 1] == x);
                }
            }
            if o.contains(x) {
                let k = choose|k: int| 0 <= k < o.len() && o[k] == x;
                if k < p {
                    assert(u[k] == x);
                } else {
                    assert(u[k + 1] == x);
                }
            }
            assert(u[p as int] == (n, place));
        }
    }
}

/// Finds the files of the log among the names in a directory: their numbers, in
/// ascending order, and their places in the list of names.
pub fn list_wal_files(names: &Vec<String>) -> (r: Vec<(u64, usize)>)
    ensures
        numbered_in_order(r@),
        forall|n: u64, k: usize| #[trigger]
            r@.contains((n, k)) <==> k < names@.len() && file_of(names@[k as int]@) == Some(n),
{
    let mut out: Vec<(u64, usize)> = Vec::new();
    let mut i: usize = 0;
    while i < names.len()
        invariant
            i <= names@.len(),
            numbered_in_order(out@),
            forall|j: int| 0 <= j < out@.len() ==> (#[trigger] out@[j]).1 < i,
            forall|n: u64, k: usize| #[trigger]
                out@.contains((n, k)) <==> k < i && file_of(names@[k as int]@) == Some(n),
        decreases names@.len() - i,
    {
        match parse_wal_file(names[i].as_str()) {
            Some(n) => {
                insert_numbered(&mut out, n, i);
            },
            None => {},
        }
        proof {
            assert forall|j: int| 0 <= j < out@.len() implies (#[trigger] out@[j]).1 < i + 1 by {
                assert(out@.contains((out@[j].0, out@[j].1)));
            }
        }
        i += 1;
    }
    out
}

/// Finds the directories of shards among the names in a directory: their numbers, in
/// ascending order, and their places in the list of names.
pub fn list_shard_dirs(names: &Vec<String>) -> (r: Vec<(u64, usize)>)
    ensures
        numbered_in_order(r@),
        forall|n: u64, k: usize| #[trigger]
            r@.contains((n, k)) <==> k < names@.len() && shard_of(names@[k as int]@) == Some(n),
{
    let mut out: Vec<(u64, usize)> = Vec::new();
    let mut i: usize = 0;
    while i < names.len()
        invariant
            i <= names@.len(),
            numbered_in_order(out@),
            forall|j: int| 0 <= j < out@.len() ==> (#[trigger] out@[j]).1 < i,
            forall|n: u64, k: usize| #[trigger]
                out@.contains((n, k)) <==> k < i && shard_of(names@[k as int]@) == Some(n),
        decreases names@.len() - i,
    {
        match parse_shard_dir(names[i].as_str()) {
            Some(n) => {
                insert_numbered(&mut out, n, i);
            },
            None => {},
        }
        proof {
            assert forall|j: int| 0 <= j < out@.len() implies (#[trigger] out@[j]).1 < i + 1 by {
                assert(out@.contains((out@[j].0, out@[j].1)));
            }
        }
        i += 1;
    }
    out
}

/// From where a file is replayed, given the file and the place of a checkpoint.
/// Earlier files are not replayed at all.
pub open spec fn replay_from(idx: u64, ckpt_idx: u64, ckpt_offset: u64) -> Option<u64> {
    if idx < ckpt_idx {
        None
    } else if idx == ckpt_idx {
        Some(ckpt_offset)
    } else {
        Some(0)
    }
}

/// From where a file is replayed.
pub fn start_offset(idx: u64, ckpt_idx: u64, ckpt_offset: u64) -> (r: Option<u64>)
    ensures
        r == replay_from(idx, ckpt_idx, ckpt_offset),
{
    if idx < ckpt_idx {
        None
    } else if idx == ckpt_idx {
        Some(ckpt_offset)
    } else {
        Some(0)
    }
}

/// How many frames end beyond a place.
pub open spec fn frames_beyond(ends: Seq<u64>, start: u64) -> nat
    decreases ends.len(),
{
    if ends.len() == 0 {
        0
    } else {
        frames_beyond(ends.drop_last(), start) + if ends.last() > start {
            1nat
        } else {
            0
        }
    }
}

/// How many frames of a list of files are replayed.
pub open spec fn frames_replayed(
    files: Seq<(u64, Vec<u64>)>,
    ckpt_idx: u64,
    ckpt_offset: u64,
) -> nat
    decreases files.len(),
{
    if files.len() == 0 {
        0
    } else {
        frames_replayed(files.drop_last(), ckpt_idx, ckpt_offset) + match replay_from(
            files.last().0,
            ckpt_idx,
            ckpt_offset,
        ) {
            Some(s) => frames_beyond(files.last().1@, s),
            None => 0,
        }
    }
}

/// Counts the frames that are replayed. A file is its number and the places where
/// its frames end.
pub fn count_replay_frames(files: &Vec<(u64, Vec<u64>)>, ckpt_idx: u64, ckpt_offset: u64) -> (r: u64)
    ensures
        r == crate::topic_state::cap64(frames_replayed(files@, ckpt_idx, ckpt_offset)),
{
    let mut n: u64 = 0;
    let mut i: usize = 0;
    assert(files@.take(0) =~= Seq::<(u64, Vec<u64>)>::empty());
    while i < files.len()
        invariant
            i <= files@.len(),
            n == crate::topic_state::cap64(
                frames_replayed(files@.take(i as int), ckpt_idx, ckpt_offset),
            ),
        decreases files@.len() - i,
    {
        let f = &files[i];
        let ghost before = frames_replayed(files@.take(i as int), ckpt_idx, ckpt_offset);
        proof {
            assert(files@.take(i + 1).drop_last() =~= files@.take(i as int));
            assert(files@.take(i + 1).last() == *f);
        }
        match start_offset(f.0, ckpt_idx, ckpt_offset) {
            Some(s) => {
                let mut j: usize = 0;
                assert(f.1@.take(0) =~= Seq::<u64>::empty());
                while j < f.1.len()
                    invariant
                        j <= f.1@.len(),
                        n == crate::topic_state::cap64(
                            before + frames_beyond(f.1@.take(j as int), s),
                        ),
                    decreases f.1@.len() - j,
                {
                    proof {
                        assert(f.1@.take(j + 1).drop_last() =~= f.1@.take(j as int));
                        assert(f.1@.take(j + 1).last() == f.1@[j as int]);
                    }
                    if f.1[j] > s {
                        n = n.saturating_add(1);
                    }
                    j += 1;
                }
                assert(f.1@.take(j as int) =~= f.1@);
            },
            None => {},
        }
        i += 1;
    }
    assert(files@.take(i as int) =~= files@);
    n
}

/// A topic has frames in two groups of files.
pub open spec fn is_split(groups: Seq<Vec<u64>>, id: u64) -> bool {
    id != 0 && exists|i: int, j: int|
        0 <= i < j < groups.len() && (#[trigger] groups[i])@.contains(id) && (
        #[trigger] groups[j])@.contains(id)
}

/// The topics of the groups before a place.
spec fn seen_before(groups: Seq<Vec<u64>>, n: int, id: u64) -> bool {
    exists|i: int| 0 <= i < n && (#[trigger] groups[i])@.contains(id)
}

/// Finds the topics that have frames in more than one group of files. A group is
/// the topics of its frames; `0` stands for none.
pub fn find_split_topics(groups: &Vec<Vec<u64>>) -> (r: Vec<u64>)
    ensures
        rising(r@),
        forall|id: u64| #[trigger] r@.contains(id) <==> is_split(groups@, id),
{
    let mut split = SeqSet::new();
    let mut g: usize = 0;
    while g < groups.len()
        invariant
            g <= groups@.len(),
            split.wf(),
            forall|id: u64| #[trigger]
                split@.contains(id) <==> id != 0 && exists|i: int, j: int|
                    0 <= i < j < g && (#[trigger] groups@[i])@.contains(id) && (
                    #[trigger] groups@[j])@.contains(id),
        decreases groups@.len() - g,
    {
        let ids = &groups[g];
        let ghost split0 = split@;
        let mut k: usize = 0;
        while k < ids.len()
            invariant
                k <= ids@.len(),
                g < groups@.len(),
                *ids == groups@[g as int],
                split.wf(),
                forall|id: u64| #[trigger]
                    split@.contains(id) <==> split0.contains(id) || (id != 0 && seen_before(
                        groups@,
                        g as int,
                        id,
                    ) && ids@.take(k as int).contains(id)),
            decreases ids@.len() - k,
        {
            let id: u64 = ids[k];
            proof {
                let a = ids@.take(k as int);
                let b = ids@.take(k + 1);
                assert forall|x: u64| b.contains(x) <==> a.contains(x) || x == id by {
                    if a.contains(x) {
                        let m = choose|m: int| 0 <= m < a.len() && a[m] == x;
                        assert(b[m] == x);
                    }
                    if b.contains(x) {
                        let m = choose|m: int| 0 <= m < b.len() && b[m] == x;
                        if m < k {
                            assert(a[m] == x);
                        }
                    }
                    assert(b[k as int] == id);
                }
            }
            if id != 0 && group_has(groups, g, id) {
                let _ = split.insert(id);
            }
            k += 1;
        }
        proof {
            assert(ids@.take(k as int) =~= ids@);
            assert forall|id: u64| #[trigger] split@.contains(id) <==> id != 0 && exists|
                i: int,
                j: int,
            |
                0 <= i < j < g + 1 && (#[trigger] groups@[i])@.contains(id) && (
                #[trigger] groups@[j])@.contains(id) by {
                if split@.contains(id) {
                    if split0.contains(id) {
                        let (i, j) = choose|i: int, j: int|
                            0 <= i < j < g && (#[trigger] groups@[i])@.contains(id) && (
                            #[trigger] groups@[j])@.contains(id);
                        assert(groups@[i]@.contains(id) && groups@[j]@.contains(id));
                    } else {
                        let i = choose|i: int| 0 <= i < g && (#[trigger] groups@[i])@.contains(id);
                        assert(groups@[i]@.contains(id) && groups@[g as int]@.contains(id));
                    }
                }
                if id != 0 && exists|i: int, j: int|
                    0 <= i < j < g + 1 && (#[trigger] groups@[i])@.contains(id) && (
                    #[trigger] groups@[j])@.contains(id) {
                    let (i, j) = choose|i: int, j: int|
                        0 <= i < j < g + 1 && (#[trigger] groups@[i])@.contains(id) && (
                        #[trigger] groups@[j])@.contains(id);
                    if j == g {
                        assert(seen_before(groups@, g as int, id));
                    } else {
                        assert(split0.contains(id));
                    }
                }
            }
        }
        g += 1;
    }
    let r = split.into_list();
    proof {
        assert forall|id: u64| #[trigger] r@.contains(id) <==> is_split(groups@, id) by {
            assert(r@.contains(id) <==> r@.to_set().contains(id));
        }
    }
    r
}

/// Whether a topic has frames in one of the groups before a place.
fn group_has(groups: &Vec<Vec<u64>>, n: usize, id: u64) -> (r: bool)
    requires
        n <= groups@.len(),
    ensures
        r == seen_before(groups@, n as int, id),
{
    let mut i: usize = 0;
    while i < n
        invariant
            i <= n <= groups@.len(),
            !seen_before(groups@, i as int, id),
        decreases n - i,
    {
        let g = &groups[i];
        let mut k: usize = 0;
        while k < g.len()
            invariant
                k <= g@.len(),
                *g == groups@[i as int],
                i < n <= groups@.len(),
                forall|j: int| 0 <= j < k ==> #[trigger] g@[j] != id,
            decreases g@.len() - k,
        {
            if g[k] == id {
                assert(groups@[i as int]@.contains(id));
                return true;
            }
            k += 1;
        }
        proof {
            if seen_before(groups@, i + 1, id) {
                let m = choose|m: int| 0 <= m < i + 1 && (#[trigger] groups@[m])@.contains(id);
                if m < i {
                    assert(seen_before(groups@, i as int, id));
                }
            }
        }
        i += 1;
    }
    false
}

/// A frame of a split topic: the place of its group, its place in the group, and
/// the frame.
pub type SplitFrame = (usize, usize, WalRecord);

/// The lowest sequence number that a group holds of a topic, if it holds records.
pub open spec fn lowest(frames: Seq<SplitFrame>, group: usize) -> Option<u64>
    decreases frames.len(),
{
    if frames.len() == 0 {
        None
    } else {
        let earlier = lowest(frames.drop_last(), group);
        let f = frames.last();
        if f.0 == group && f.2 is Append {
            match earlier {
                Some(s) => Some(crate::eviction::min64(s, f.2->Append_seq)),
                None => Some(f.2->Append_seq),
            }
        } else {
            earlier
        }
    }
}

/// When a frame is replayed: groups with records come first, by their lowest
/// sequence number; within a group the order stays.
pub open spec fn replay_key(frames: Seq<SplitFrame>, f: SplitFrame) -> (bool, u64, usize, usize) {
    let low = lowest(frames, f.0);
    (
        low is None,
        match low {
            Some(s) => s,
            None => 0,
        },
        f.0,
        f.1,
    )
}

/// A key is not after another.
pub open spec fn key_le(a: (bool, u64, usize, usize), b: (bool, u64, usize, usize)) -> bool {
    if a.0 != b.0 {
        !a.0
    } else if a.1 != b.1 {
        a.1 < b.1
    } else if a.2 != b.2 {
        a.2 < b.2
    } else {
        a.3 <= b.3
    }
}

fn lowest_seq(frames: &Vec<SplitFrame>, group: usize) -> (r: Option<u64>)
    ensures
        r == lowest(frames@, group),
{
    let mut low: Option<u64> = None;
    let mut i: usize = 0;
    assert(frames@.take(0) =~= Seq::<SplitFrame>::empty());
    while i < frames.len()
        invariant
            i <= frames@.len(),
            low == lowest(frames@.take(i as int), group),
        decreases frames@.len() - i,
    {
        let f = &frames[i];
        proof {
            assert(frames@.take(i + 1).drop_last() =~= frames@.take(i as int));
            assert(frames@.take(i + 1).last() == *f);
        }
        if f.0 == group {
            match &f.2 {
                WalRecord::Append { seq, .. } => {
                    low = match low {
                        Some(s) => Some(crate::eviction::smaller(s, *seq)),
                        None => Some(*seq),
                    };
                },
                _ => {},
            }
        }
        i += 1;
    }
    assert(frames@.take(i as int) =~= frames@);
    low
}

fn key_not_after(a: (bool, u64, usize, usize), b: (bool, u64, usize, usize)) -> (r: bool)
    ensures
        r == key_le(a, b),
{
    if a.0 != b.0 {
        !a.0
    } else if a.1 != b.1 {
        a.1 < b.1
    } else if a.2 != b.2 {
        a.2 < b.2
    } else {
        a.3 <= b.3
    }
}

/// Puts the frames of a split topic into the order in which they were logged, as
/// places into the list given.
pub fn split_order(frames: &Vec<SplitFrame>) -> (r: Vec<usize>)
    ensures
        is_replay_order(frames@, r@),
{
    let n: usize = frames.len();
    let mut keys: Vec<(bool, u64, usize, usize)> = Vec::new();
    let mut i: usize = 0;
    while i < n
        invariant
            i <= n,
            n == frames@.len(),
            keys@.len() == i,
            forall|j: int| 0 <= j < i ==> #[trigger] keys@[j] == replay_key(frames@, frames@[j]),
        decreases n - i,
    {
        let low = lowest_seq(frames, frames[i].0);
        let k = match low {
            Some(s) => (false, s, frames[i].0, frames[i].1),
            None => (true, 0, frames[i].0, frames[i].1),
        };
        keys.push(k);
        i += 1;
    }
    let mut out: Vec<usize> = Vec::new();
    let mut k: usize = 0;
    while k < n
        invariant
            k <= n,
            n == frames@.len(),
            keys@.len() == n,
            forall|j: int| 0 <= j < n ==> #[trigger] keys@[j] == replay_key(frames@, frames@[j]),
            out@.len() == k,
            forall|j: int| 0 <= j < out@.len() ==> (#[trigger] out@[j]) < k,
            out@.no_duplicates(),
            forall|a: int, b: int|
                0 <= a < b < out@.len() ==> key_le(
                    keys@[#[trigger] out@[a] as int],
                    keys@[#[trigger] out@[b] as int],
                ),
        decreases n - k,
    {
        let ghost o = out@;
        let mut p: usize = 0;
        while p < out.len() && key_not_after(keys[out[p]], keys[k])
            invariant
                k < n,
                keys@.len() == n,
                p <= out@.len(),
                out@ == o,
                forall|j: int| 0 <= j < o.len() ==> (#[trigger] o[j]) < k,
                forall|j: int| 0 <= j < p ==> key_le(keys@[#[trigger] o[j] as int], keys@[k as int]),
            decreases out@.len() - p,
        {
            p += 1;
        }
        out.insert(p, k);
        proof {
            let u = out@;
            assert(u =~= o.insert(p as int, k));
            assert forall|a: int, b: int| 0 <= a < b < u.len() implies key_le(
                keys@[#[trigger] u[a] as int],
                keys@[#[trigger] u[b] as int],
            ) by {
                let x = if a < p {
                    a
                } else {
                    a - 1
                };
                let y = if b < p {
                    b
                } else {
                    b - 1
                };
                if a == p {
                    assert(u[b] == o[y]);
                    if y > p {
                        assert(key_le(keys@[o[p as int] as int], keys@[o[y] as int]));
                    }
                } else if b == p {
                    assert(u[a] == o[x]);
                } else {
                    assert(u[a] == o[x] && u[b] == o[y]);
                    assert(key_le(keys@[o[x] as int], keys@[o[y] as int]));
                }
            }
            assert forall|a: int, b: int| 0 <= a < u.len() && 0 <= b < u.len() && a != b implies u[a]
                != u[b] by {
                let x = if a < p {
                    a
                } else {
                    a - 1
                };
                let y = if b < p {
                    b
                } else {
                    b - 1
                };
                if a == p {
                    assert(u[b] == o[y]);
                } else if b == p {
                    assert(u[a] == o[x]);
                } else {
                    assert(u[a] == o[x] && u[b] == o[y]);
                }
            }
        }
        k += 1;
    }
    out
}

/// A file of a shard can go: it lies before the checkpoint of the shard.
pub open spec fn is_absorbed(
    files: Seq<Vec<u64>>,
    positions: Seq<(u64, u64)>,
    shard: int,
    idx: u64,
) -> bool {
    &&& 0 <= shard < files.len()
    &&& files[shard]@.contains(idx)
    &&& shard < positions.len() && idx < positions[shard].0
}

/// Names the files of one group, those before `keep` or all of them.
fn name_files(out: &mut Vec<(usize, u64)>, s: usize, list: &Vec<u64>, keep: Option<u64>)
    ensures
        forall|x: usize, idx: u64| #[trigger]
            final(out)@.contains((x, idx)) <==> old(out)@.contains((x, idx)) || (x == s
                && list@.contains(idx) && (keep is Some ==> idx < keep->0)),
{
    let ghost o0 = out@;
    let mut i: usize = 0;
    while i < list.len()
        invariant
            i <= list@.len(),
            o0 == old(out)@,
            forall|x: usize, idx: u64| #[trigger]
                out@.contains((x, idx)) <==> o0.contains((x, idx)) || (x == s && (keep is Some
                    ==> idx < keep->0) && list@.take(i as int).contains(idx)),
        decreases list@.len() - i,
    {
        let idx: u64 = list[i];
        let ghost o = out@;
        let gone = match keep {
            Some(k) => idx < k,
            None => true,
        };
        if gone {
            out.push((s, idx));
        }
        proof {
            let a = list@.take(i as int);
            let b = list@.take(i + 1);
            assert forall|x: u64| b.contains(x) <==> a.contains(x) || x == idx by {
                if a.contains(x) {
                    let m = choose|m: int| 0 <= m < a.len() && a[m] == x;
                    assert(b[m] == x);
                }
                if b.contains(x) {
                    let m = choose|m: int| 0 <= m < b.len() && b[m] == x;
                    if m < i {
                        assert(a[m] == x);
                    }
                }
                assert(b[i as int] == idx);
            }
            assert forall|x: usize, y: u64| #[trigger]
                out@.contains((x, y)) <==> o.contains((x, y)) || (gone && (x, y) == (s, idx)) by {
                if o.contains((x, y)) {
                    let m = choose|m: int| 0 <= m < o.len() && o[m] == (x, y);
                    assert(out@[m] == (x, y));
                }
                if gone {
                    assert(out@[o.len() as int] == (s, idx));
                }
            }
        }
        i += 1;
    }
    assert(list@.take(i as int) =~= list@);
}

/// Names the files that a snapshot has absorbed: of each shard, those before its
/// checkpoint. A shard without a checkpoint keeps all its files.
pub fn drop_absorbed_wal_files(files: &Vec<Vec<u64>>, positions: &Vec<(u64, u64)>) -> (r: Vec<
    (usize, u64),
>)
    ensures
        forall|s: usize, idx: u64| #[trigger]
            r@.contains((s, idx)) <==> is_absorbed(files@, positions@, s as int, idx),
{
    let mut out: Vec<(usize, u64)> = Vec::new();
    let mut s: usize = 0;
    while s < files.len()
        invariant
            s <= files@.len(),
            forall|x: usize, idx: u64| #[trigger]
                out@.contains((x, idx)) <==> x < s && is_absorbed(
                    files@,
                    positions@,
                    x as int,
                    idx,
                ),
        decreases files@.len() - s,
    {
        let keep: u64 = if s < positions.len() {
            positions[s].0
        } else {
            0
        };
        name_files(&mut out, s, &files[s], Some(keep));
        s += 1;
    }
    out
}

/// A file of a directory that no shard uses.
pub open spec fn is_orphan(
    dirs: Seq<(u64, Vec<u64>)>,
    shard_count: u64,
    dir: int,
    idx: u64,
) -> bool {
    &&& 0 <= dir < dirs.len()
    &&& dirs[dir].1@.contains(idx)
    &&& !shard_in_use(dirs[dir].0, shard_count)
}

/// Names the files that an earlier number of shards has left behind: of each
/// directory, given by the number of its shard and its files, either all, where no
/// shard uses it now, or none.
pub fn orphan_wal_files(dirs: &Vec<(u64, Vec<u64>)>, shard_count: u64) -> (r: Vec<(usize, u64)>)
    ensures
        forall|d: usize, idx: u64| #[trigger]
            r@.contains((d, idx)) <==> is_orphan(dirs@, shard_count, d as int, idx),
{
    let mut out: Vec<(usize, u64)> = Vec::new();
    let mut d: usize = 0;
    while d < dirs.len()
        invariant
            d <= dirs@.len(),
            forall|x: usize, idx: u64| #[trigger]
                out@.contains((x, idx)) <==> x < d && is_orphan(
                    dirs@,
                    shard_count,
                    x as int,
                    idx,
                ),
        decreases dirs@.len() - d,
    {
        if !is_shard_in_use(dirs[d].0, shard_count) {
            name_files(&mut out, d, &dirs[d].1, None);
        }
        d += 1;
    }
    out
}

/// The directory of a shard is in use: there is more than one shard, and it is one
/// of them.
pub open spec fn shard_in_use(idx: u64, shard_count: u64) -> bool {
    shard_count > 1 && idx < shard_count
}

/// Whether the directory of a shard is in use.
pub fn is_shard_in_use(idx: u64, shard_count: u64) -> (r: bool)
    ensures
        r == shard_in_use(idx, shard_count),
{
    shard_count > 1 && idx < shard_count
}

/// The place a checkpoint has for a group of files: the first under its key.
pub open spec fn position_of(
    keys: Seq<String>,
    positions: Seq<(u64, u64)>,
    key: Seq<char>,
    n: int,
) -> Option<(u64, u64)>
    decreases keys.len() - n,
{
    if n < 0 || n >= keys.len() || n >= positions.len() {
        None
    } else if keys[n]@ == key {
        Some(positions[n])
    } else {
        position_of(keys, positions, key, n + 1)
    }
}

/// The place a checkpoint has for a group of files.
pub fn position_for_key(keys: &Vec<String>, positions: &Vec<(u64, u64)>, key: &str) -> (r: Option<
    (u64, u64),
>)
    ensures
        r == position_of(keys@, positions@, key@, 0),
{
    let mut i: usize = 0;
    while i < keys.len() && i < positions.len()
        invariant
            i <= keys@.len(),
            i <= positions@.len(),
            position_of(keys@, positions@, key@, 0) == position_of(
                keys@,
                positions@,
                key@,
                i as int,
            ),
        decreases keys@.len() - i,
    {
        if text_eq(keys[i].as_str(), key) {
            return Some(positions[i]);
        }
        i += 1;
    }
    None
}

/// An order of frames as places into a list: every frame once, none after one that
/// was logged later.
pub open spec fn is_replay_order(frames: Seq<SplitFrame>, order: Seq<usize>) -> bool {
    &&& is_arrangement(order, frames.len())
    &&& forall|i: int, j: int|
        0 <= i < j < order.len() ==> key_le(
            replay_key(frames, frames[#[trigger] order[i] as int]),
            replay_key(frames, frames[#[trigger] order[j] as int]),
        )
}

/// The frames of a list.
pub open spec fn records_of(frames: Seq<SplitFrame>) -> Seq<WalRecord> {
    Seq::new(frames.len(), |i: int| frames[i].2)
}

/// The frames of a split topic in the order in which they were logged.
pub open spec fn is_logged_order(frames: Seq<SplitFrame>, r: Seq<WalRecord>) -> bool {
    exists|order: Seq<usize>| #[trigger]
        is_replay_order(frames, order) && r == records_of(arranged(frames, order))
}

/// The frames of a split topic in the order in which they were logged.
pub fn order_frames(frames: Vec<SplitFrame>) -> (r: Vec<WalRecord>)
    ensures
        is_logged_order(frames@, r@),
{
    let order = split_order(&frames);
    let ghost all = frames@;
    let sorted = rearranged(frames, &order);
    let ghost s = sorted@;
    let mut rest = reversed(sorted);
    let mut out: Vec<WalRecord> = Vec::new();
    while rest.len() > 0
        invariant
            rest@.len() + out@.len() == s.len(),
            forall|j: int| 0 <= j < rest@.len() ==> #[trigger] rest@[j] == s[s.len() - 1 - j],
            forall|j: int| 0 <= j < out@.len() ==> #[trigger] out@[j] == s[j].2,
        decreases rest@.len(),
    {
        match rest.pop() {
            Some(x) => {
                out.push(x.2);
            },
            None => {},
        }
    }
    assert(out@ =~= records_of(arranged(all, order@)));
    out
}

} // verus!
