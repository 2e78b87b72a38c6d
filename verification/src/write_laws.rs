//! What a write is for: what is stored, what is refused, and what is answered.
use crate::engine::EngineView;
use crate::engine_laws::written_record_is_readable;
use crate::topic_index::{bytes_in, StoredRecord};
use crate::topic_laws::retention_keeps;
use crate::topic_state::{DedupeView, TopicView};
use crate::types::{Discard, Durability, ErrorCode, ErrorDetail, NodeFilter, TopicConfig};
use crate::write::{answers, answers_again, answers_write, batch, batch_refusal,
    request_refusal, Begun, PendingWrite, RecordIn, WriteRequest, WriteResponse};
use vstd::prelude::*;

verus! {

/// The bytes of a text.
pub open spec fn utf8_len(s: Seq<char>) -> nat {
    vstd::utf8::encode_utf8(s).len()
}

/// A record is stored as it was given: with the time of the write; with its own node,
/// or, where it names none, that of the request; with its tag, its data and its meta,
/// at hand and not deleted.
pub proof fn each_record_is_stored_as_given(req: WriteRequest, now: i64, i: int)
    requires
        0 <= i < req.records@.len(),
    ensures
        batch(req.records@, req.node, now).len() == req.records@.len(),
        ({
            let rec = req.records@[i];
            let s = batch(req.records@, req.node, now)[i];
            &&& s.ts == now
            &&& rec.node is Some ==> s.node == rec.node
            &&& rec.node is None ==> s.node == req.node
            &&& s.tag == rec.tag
            &&& s.data == Some(rec.data)
            &&& s.meta == rec.meta
            &&& !s.deleted
            &&& s.payload_resident
            &&& s.hops == 0
        }),
{
}

/// The size of a record that is taken is that of its data and its meta as text.
pub proof fn a_record_counts_its_payload(req: WriteRequest, now: i64, i: int)
    requires
        0 <= i < req.records@.len(),
        request_refusal(req) is None,
    ensures
        batch(req.records@, req.node, now)[i].bytes == utf8_len(req.records@[i].data.text@) + (
        match req.records@[i].meta {
            Some(m) => utf8_len(m.text@),
            None => 0,
        }),
{
    batch_is_taken(req.records@, req.node);
    assert(taken(req.records@[i], req.node));
}

/// The node a record goes by.
pub open spec fn goes_by(rec: RecordIn, node: Option<String>) -> Option<String> {
    match rec.node {
        Some(n) => Some(n),
        None => node,
    }
}

/// A record keeps within the limits: the tag within 256 bytes, the node within 128,
/// the meta within 16384 bytes and, as an object, within 64 keys, and data and meta
/// together within a mebibyte.
pub open spec fn taken(rec: RecordIn, node: Option<String>) -> bool {
    &&& rec.tag is Some ==> utf8_len(rec.tag->0@) <= 256
    &&& goes_by(rec, node) is Some ==> utf8_len(goes_by(rec, node)->0@) <= 128
    &&& rec.meta is Some ==> utf8_len(rec.meta->0.text@) <= 16384
    &&& rec.meta is Some && rec.meta->0.keys is Some ==> rec.meta->0.keys->0 <= 64
    &&& utf8_len(rec.data.text@) + (match rec.meta {
        Some(m) => utf8_len(m.text@),
        None => 0,
    }) <= 1048576
}

/// All but the size of the payload is within the limits.
pub open spec fn well_formed(rec: RecordIn, node: Option<String>) -> bool {
    &&& rec.tag is Some ==> utf8_len(rec.tag->0@) <= 256
    &&& goes_by(rec, node) is Some ==> utf8_len(goes_by(rec, node)->0@) <= 128
    &&& rec.meta is Some ==> utf8_len(rec.meta->0.text@) <= 16384
    &&& rec.meta is Some && rec.meta->0.keys is Some ==> rec.meta->0.keys->0 <= 64
}

proof fn batch_is_taken(recs: Seq<RecordIn>, node: Option<String>)
    ensures
        batch_refusal(recs, node) is None <==> forall|i: int|
            0 <= i < recs.len() ==> taken(#[trigger] recs[i], node),
        batch_refusal(recs, node) is Some ==> exists|i: int|
            {
                &&& 0 <= i < recs.len()
                &&& !taken(#[trigger] recs[i], node)
                &&& forall|j: int| 0 <= j < i ==> taken(#[trigger] recs[j], node)
                &&& batch_refusal(recs, node) == Some(
                    if well_formed(recs[i], node) {
                        ErrorCode::RecordTooLarge
                    } else {
                        ErrorCode::InvalidRequest
                    },
                )
            },
    decreases recs.len(),
{
    if recs.len() > 0 {
        let r = recs.drop_last();
        let n = recs.len() - 1;
        batch_is_taken(r, node);
        assert forall|i: int| 0 <= i < n implies #[trigger] r[i] == recs[i] by {}
        if batch_refusal(r, node) is Some {
            let i = choose|i: int|
                {
                    &&& 0 <= i < r.len()
                    &&& !taken(#[trigger] r[i], node)
                    &&& forall|j: int| 0 <= j < i ==> taken(#[trigger] r[j], node)
                    &&& batch_refusal(r, node) == Some(
                        if well_formed(r[i], node) {
                            ErrorCode::RecordTooLarge
                        } else {
                            ErrorCode::InvalidRequest
                        },
                    )
                };
            assert(!taken(recs[i], node));
            assert forall|j: int| 0 <= j < i implies taken(#[trigger] recs[j], node) by {
                assert(r[j] == recs[j]);
            }
        } else {
            assert forall|j: int| 0 <= j < n implies taken(#[trigger] recs[j], node) by {
                assert(r[j] == recs[j]);
            }
            assert(taken(recs[n], node) <==> batch_refusal(recs, node) is None);
        }
    }
}

/// A request is refused where it holds no record, or more than a thousand, or a key of
/// more than 256 bytes; else for its first record that is not within the limits, as too
/// large where only its payload is, and as invalid in any other case; and it is taken
/// where there is no such record.
pub proof fn requests_are_refused_for_their_limits(req: WriteRequest)
    ensures
        ({
            let n = req.records@.len();
            let key = match req.idempotency_key {
                Some(k) => utf8_len(k@),
                None => 0,
            };
            if n == 0 {
                request_refusal(req) == Some(ErrorCode::InvalidRequest)
            } else if n > 1000 {
                request_refusal(req) == Some(ErrorCode::BatchTooLarge)
            } else if key > 256 {
                request_refusal(req) == Some(ErrorCode::InvalidRequest)
            } else {
                &&& request_refusal(req) is None <==> forall|i: int|
                    0 <= i < n ==> taken(#[trigger] req.records@[i], req.node)
                &&& request_refusal(req) is Some ==> exists|i: int|
                    {
                        &&& 0 <= i < n
                        &&& !taken(#[trigger] req.records@[i], req.node)
                        &&& forall|j: int|
                            0 <= j < i ==> taken(#[trigger] req.records@[j], req.node)
                        &&& request_refusal(req) == Some(
                            if well_formed(req.records@[i], req.node) {
                                ErrorCode::RecordTooLarge
                            } else {
                                ErrorCode::InvalidRequest
                            },
                        )
                    }
            }
        }),
{
    batch_is_taken(req.records@, req.node);
}

/// What was written is there to be read: under the sequence numbers that follow on the
/// head, at the time of the write, with the node of the record or else of the request,
/// and with its tag, data and meta; unless retention has dropped it since.
pub proof fn what_was_written_is_there(
    v: EngineView,
    name: Seq<char>,
    req: WriteRequest,
    now: i64,
    i: int,
)
    requires
        v.ok(),
        v.quiet(),
        v.begin(name, req, now).0 is Staged,
        v.topics.contains_key(name) ==> v.topics[name].room(
            req.records@.len(),
            bytes_in(batch(req.records@, req.node, now)),
        ),
        0 <= i < req.records@.len(),
    ensures
        ({
            let t = v.written(name, req, now).topics[name];
            let seq = (v.write_topic(name, req, now).head + 1 + i) as u64;
            let rec = req.records@[i];
            let s = t.rec(seq);
            ||| seq < t.earliest() && !t.keeps_all()
            ||| {
                &&& t.has_live(seq)
                &&& seq <= t.head
                &&& s.ts == now
                &&& s.data == Some(rec.data)
                &&& s.meta == rec.meta
                &&& s.tag == rec.tag
                &&& rec.node is Some ==> s.node == rec.node
                &&& rec.node is None ==> s.node == req.node
            }
        }),
{
    written_record_is_readable(v, name, req, now, i);
    each_record_is_stored_as_given(req, now, i);
}

/// A reader that stands for the node of a request gets none of its records that name no
/// node of their own, nor those that name this node, where the topic keeps a node's own
/// records from it; a reader that stands for another node alone is not kept from them.
pub proof fn a_node_does_not_get_its_own_writes(
    req: WriteRequest,
    t: TopicView,
    now: i64,
    i: int,
    seq: u64,
    reader: String,
    later: i64,
)
    requires
        0 <= i < req.records@.len(),
        t.has(seq),
        t.rec(seq) == batch(req.records@, req.node, now)[i],
        t.config.dedupe_node,
        t.config.ttl_ms == 0,
    ensures
        ({
            let own = match req.records@[i].node {
                Some(n) => n@ == reader@,
                None => req.node is Some && req.node->0@ == reader@,
            };
            t.delivers(Some(NodeFilter::One(reader)), later, seq) <==> !own
        }),
{
    each_record_is_stored_as_given(req, now, i);
}

/// A keyed write is recognised as long as its window is open, and no longer.
pub proof fn keys_are_remembered_for_the_window(t: TopicView, key: Seq<char>, now: i64)
    ensures
        t.pruned(now).dedupe.contains_key(key) <==> t.dedupe.contains_key(key) && now
            - t.dedupe[key].created_ms <= t.config.idempotency_window_ms,
        t.pruned(now).dedupe.contains_key(key) ==> t.pruned(now).dedupe[key] == t.dedupe[key],
        t.pruned(now) == (TopicView { dedupe: t.pruned(now).dedupe, ..t }),
{
}

/// Before a write is admitted, retention takes what it may of its topic, and a keyed write has
/// the keys forgotten that are too old; one without a key forgets nothing.
pub proof fn what_a_write_finds(
    v: EngineView,
    name: Seq<char>,
    req: WriteRequest,
    now: i64,
    key: Seq<char>,
)
    requires
        v.topics.contains_key(name),
        v.topics[name].name == name,
        v.topics[name].ok(),
    ensures
        ({
            let t = v.topics[name];
            let u = v.write_topic(name, req, now);
            &&& u == (TopicView { dedupe: u.dedupe, ..t.retained(now) })
            &&& req.idempotency_key is None ==> u.dedupe == t.dedupe
            &&& req.idempotency_key is Some ==> (u.dedupe.contains_key(key)
                <==> t.dedupe.contains_key(key) && now - t.dedupe[key].created_ms
                <= t.config.idempotency_window_ms)
        }),
{
}

/// The answer to a write names the sequence numbers that follow on the last slot, one
/// for each record, and says whether the topic is new.
pub proof fn the_answer_names_the_numbers(
    v: EngineView,
    name: Seq<char>,
    req: WriteRequest,
    now: i64,
    p: PendingWrite,
    return_seqs: bool,
    r: WriteResponse,
)
    requires
        p.from(v, name, req, now),
        answers(r, p, return_seqs),
        req.records@.len() > 0,
        v.write_topic(name, req, now).tail() + req.records@.len() <= u64::MAX,
    ensures
        ({
            let tail = v.write_topic(name, req, now).tail();
            let n = req.records@.len();
            &&& r.first_seq == tail
            &&& r.last_seq == tail + n - 1
            &&& r.head_seq == tail + n - 1
            &&& r.count == n
            &&& r.created <==> !v.topics.contains_key(name)
            &&& !r.deduped
            &&& r.seqs is Some <==> return_seqs
            &&& return_seqs ==> r.seqs->0@.len() == n && forall|k: int|
                0 <= k < n ==> #[trigger] r.seqs->0@[k] == tail + k
        }),
{
}

/// The answer to a write that was made before is that of the first, but that nothing was
/// created.
pub proof fn a_retry_is_answered_like_the_first(
    t: TopicView,
    recs: Seq<StoredRecord>,
    key: String,
    now: i64,
    return_seqs: bool,
    r: WriteResponse,
)
    requires
        recs.len() > 0,
        t.head + recs.len() <= u64::MAX,
        answers_again(r, t.wrote(recs, Some(key), now).dedupe[key@], return_seqs),
    ensures
        t.wrote(recs, Some(key), now).dedupe.contains_key(key@),
        t.wrote(recs, Some(key), now).dedupe[key@].created_ms == now,
        r.first_seq == t.head + 1,
        r.last_seq == t.head + recs.len(),
        r.head_seq == t.head + recs.len(),
        r.count == recs.len(),
        !r.created,
        r.deduped,
        r.seqs is Some <==> return_seqs,
        return_seqs ==> r.seqs->0@.len() == recs.len() && forall|k: int|
            0 <= k < recs.len() ==> #[trigger] r.seqs->0@[k] == t.head + 1 + k,
{
}

/// A topic that drops old records takes every write; one that refuses takes a write
/// exactly where its records and bytes stay within both caps, refuses as too large what
/// could never fit, and as full what does not fit now.
pub proof fn a_full_topic_refuses(t: TopicView, n: nat, bytes: u64)
    requires
        t.live + n < u64::MAX,
        t.bytes + bytes < u64::MAX,
    ensures
        t.config.discard == Discard::Old ==> t.admission_refusal(n, bytes) is None,
        t.config.discard == Discard::Reject ==> {
            let c = t.config;
            let never = (c.cap_bytes > 0 && bytes > c.cap_bytes) || (c.cap_records > 0 && n
                > c.cap_records);
            let fits = (c.cap_records == 0 || t.live + n <= c.cap_records) && (c.cap_bytes == 0
                || t.bytes + bytes <= c.cap_bytes);
            &&& t.admission_refusal(n, bytes) is None <==> fits
            &&& never ==> t.admission_refusal(n, bytes) == Some(ErrorCode::RecordTooLarge)
            &&& !never && !fits ==> t.admission_refusal(n, bytes) == Some(ErrorCode::TopicFull)
        },
{
}

/// A write to a topic that is not there creates it, with the settings given or else the
/// default ones, unless the request, or where it says nothing the settings, forbid it.
pub proof fn a_write_creates_its_topic(v: EngineView, name: Seq<char>, req: WriteRequest, now: i64)
    ensures
        v.topics.contains_key(name) ==> v.create_refusal(name, req) is None && v.resolved(
            name,
            req,
            now,
        ) == v,
        !v.topics.contains_key(name) ==> {
            let allowed = match (req.create, req.config) {
                (Some(c), _) => c,
                (None, Some(c)) => c.auto_create,
                (None, None) => true,
            };
            let u = v.resolved(name, req, now);
            &&& !allowed ==> v.create_refusal(name, req) == Some(ErrorCode::TopicNotFound)
            &&& u.topics.contains_key(name)
            &&& u.topics[name].recs.len() == 0
            &&& u.topics[name].head == 0
            &&& u.topics[name].topic_id == v.next_topic_id
            &&& req.config is Some ==> u.topics[name].config.ttl_ms == req.config->0.ttl_ms
                && u.topics[name].config.cap_records == req.config->0.cap_records
                && u.topics[name].config.cap_bytes == req.config->0.cap_bytes
                && u.topics[name].config.discard == req.config->0.discard
                && u.topics[name].config.topic_type == req.config->0.topic_type
        },
{
}

/// A write is refused for the quota exactly where it would exceed it, and a write that
/// is taken counts its bytes against it.
pub proof fn a_write_counts_against_the_quota(
    v: EngineView,
    name: Seq<char>,
    req: WriteRequest,
    now: i64,
)
    requires
        v.limits.max_total_bytes != 0,
        v.total + bytes_in(batch(req.records@, req.node, now)) < u64::MAX,
        request_refusal(req) is None,
        v.create_refusal(name, req) is None,
        req.idempotency_key is None,
        v.write_topic(name, req, now).admission_refusal(
            req.records@.len(),
            bytes_in(batch(req.records@, req.node, now)) as u64,
        ) is None,
    ensures
        ({
            let bytes = bytes_in(batch(req.records@, req.node, now));
            let (b, w) = v.begin(name, req, now);
            if v.total + bytes <= v.limits.max_total_bytes {
                b is Staged && w.total == v.total + bytes
            } else {
                b == Begun::Refused(ErrorCode::Throttled) && w.total == v.total
            }
        }),
{
    assert(batch(req.records@, req.node, now).len() == req.records@.len());
}

/// Beginning a write stages its records and nothing else: what can be read stays, and a
/// refused or repeated write stages nothing.
pub proof fn beginning_shows_nothing(v: EngineView, name: Seq<char>, req: WriteRequest, now: i64)
    requires
        v.topics.contains_key(name),
        v.topics[name].name == name,
    ensures
        ({
            let t = v.write_topic(name, req, now);
            let (b, w) = v.begin(name, req, now);
            &&& t.head == v.topics[name].head
            &&& w.topics[name].head == v.topics[name].head
            &&& b is Staged ==> w.topics[name].recs == t.recs + batch(
                req.records@,
                req.node,
                now,
            ) && w.topics[name].live == t.live && w.topics[name].bytes == t.bytes
            &&& forall|n: Seq<char>|
                n != name ==> (#[trigger] w.topics.contains_key(n) <==> v.topics.contains_key(n))
                    && w.topics[n] == v.topics[n]
        }),
{
}

/// A write that was logged is readable: the head is its last record, number and size
/// grow by what was written, and the time of the write is noted; then retention is
/// enforced.
pub proof fn a_logged_write_is_made_readable(v: EngineView, p: PendingWrite, now: i64)
    requires
        v.still_there(p),
        v.can_finish(p),
        v.topics[p.name@].name == p.name@,
        v.topics[p.name@].ok(),
        v.topics[p.name@].config.ttl_ms == 0,
        v.topics[p.name@].config.cap_records == 0,
        v.topics[p.name@].config.cap_bytes == 0,
    ensures
        ({
            let t = v.topics[p.name@];
            let u = v.finished(p, true, now).topics[p.name@];
            &&& u.head == p.staged.start + p.staged.count - 1
            &&& u.recs == t.recs
            &&& u.base == t.base
            &&& u.live == t.live + p.staged.count
            &&& u.bytes == t.bytes + p.staged.added_bytes
            &&& u.last_write == now
            &&& v.finished(p, true, now).total == v.total
            &&& p.key is Some ==> u.dedupe.contains_key(p.key->0@) && u.dedupe[p.key->0@]
                == (DedupeView {
                seqs: u.dedupe[p.key->0@].seqs,
                head_seq: (p.staged.start + p.staged.count - 1) as u64,
                created_ms: now,
            }) && u.dedupe[p.key->0@].seqs.len() == p.staged.count && forall|k: int|
                0 <= k < p.staged.count ==> #[trigger] u.dedupe[p.key->0@].seqs[k]
                    == p.staged.start + k
        }),
{
}

/// Only a write to a topic of the class that reaches the disk waits for the disk, and
/// only one to a topic that lives in memory alone is not logged.
pub proof fn the_class_decides_what_is_logged(
    v: EngineView,
    name: Seq<char>,
    req: WriteRequest,
    now: i64,
    p: PendingWrite,
)
    requires
        p.from(v, name, req, now),
    ensures
        ({
            let c: TopicConfig = v.write_topic(name, req, now).config;
            let fsync = c.durability == Some(Durability::Fsync) || (c.durability is None
                && c.durable);
            let memory = c.durability == Some(Durability::Memory);
            &&& p.durable <==> fsync
            &&& p.frames@.len() == (if memory {
                0
            } else {
                req.records@.len()
            })
        }),
{
    assert(batch(req.records@, req.node, now).len() == req.records@.len());
}

/// A write to a topic at rest is answered with the numbers behind its head, one for each
/// record, the last of them its new head; and with whether the topic is new.
pub proof fn the_answer_to_a_write(
    v: EngineView,
    name: Seq<char>,
    req: WriteRequest,
    now: i64,
    return_seqs: bool,
    r: WriteResponse,
)
    requires
        v.topics.contains_key(name),
        v.topics[name].name == name,
        v.topics[name].head + req.records@.len() <= u64::MAX,
        answers_write(v, name, req, now, return_seqs, r),
    ensures
        ({
            let head = v.topics[name].head;
            let n = req.records@.len();
            &&& r.first_seq == head + 1
            &&& r.last_seq == head + n
            &&& r.head_seq == head + n
            &&& r.count == n
            &&& !r.created
            &&& !r.deduped
            &&& r.seqs is Some <==> return_seqs
            &&& return_seqs ==> r.seqs->0@.len() == n && forall|k: int|
                0 <= k < n ==> #[trigger] r.seqs->0@[k] == head + 1 + k
        }),
{
}

/// The first write to a topic that is not there is answered with the numbers from one on,
/// and says that the topic is new.
pub proof fn the_answer_to_a_first_write(
    v: EngineView,
    name: Seq<char>,
    req: WriteRequest,
    now: i64,
    return_seqs: bool,
    r: WriteResponse,
)
    requires
        !v.topics.contains_key(name),
        answers_write(v, name, req, now, return_seqs, r),
    ensures
        r.first_seq == 1,
        r.last_seq == req.records@.len(),
        r.head_seq == req.records@.len(),
        r.count == req.records@.len(),
        r.created,
        !r.deduped,
{
}

/// A write that is refused is told why: of a batch that is too large how large it is and how
/// large it may be; of a full topic its caps, its head and the first number that can be read;
/// of the limit on topics or on the bytes of all of them, the limit.
pub proof fn what_a_refused_write_is_told(
    v: EngineView,
    name: Seq<char>,
    req: WriteRequest,
    now: i64,
)
    requires
        req.records@.len() <= u64::MAX,
    ensures
        ({
            let d = v.write_detail(name, req, now);
            let t = v.write_topic(name, req, now);
            let recs = batch(req.records@, req.node, now);
            let full = t.admission_refusal(recs.len(), bytes_in(recs) as u64);
            &&& req.records@.len() > 1000 ==> d == (ErrorDetail::Batch {
                given: req.records@.len() as u64,
                max: 1000,
            })
            &&& request_refusal(req) is None && v.create_refusal(name, req) is None ==> {
                &&& full == Some(ErrorCode::TopicFull) ==> d == (ErrorDetail::Full {
                    cap_records: t.config.cap_records,
                    cap_bytes: t.config.cap_bytes,
                    head_seq: t.head,
                    earliest_seq: t.earliest(),
                })
                &&& full == Some(ErrorCode::RecordTooLarge) ==> d == ErrorDetail::Plain
                &&& full is None ==> d == ErrorDetail::Limit(v.limits.max_total_bytes)
            }
            &&& request_refusal(req) is None && v.create_refusal(name, req) == Some(
                ErrorCode::Throttled,
            ) ==> d == ErrorDetail::Limit(v.limits.max_topics)
            &&& request_refusal(req) is None && v.create_refusal(name, req) == Some(
                ErrorCode::TopicNotFound,
            ) ==> d == ErrorDetail::Plain
        }),
{
}

/// A write that waits for the log waits under the number of its topic, with its next ticket,
/// behind its last slot; it knows its key, the bytes it counted where there is a quota, and,
/// where a router reads from the topic, its records as they are to set out.
pub proof fn what_a_write_waits_with(
    v: EngineView,
    name: Seq<char>,
    req: WriteRequest,
    now: i64,
    p: PendingWrite,
)
    requires
        v.topics.contains_key(name),
        v.topics[name].name == name,
        v.topics[name].ok(),
        p.from(v, name, req, now),
        req.records@.len() > 0,
        v.topics[name].tail() + req.records@.len() <= u64::MAX,
        bytes_in(batch(req.records@, req.node, now)) <= u64::MAX,
    ensures
        ({
            let t = v.topics[name];
            let n = req.records@.len();
            let bytes = bytes_in(batch(req.records@, req.node, now));
            let read = exists|m: Seq<char>| #[trigger]
                v.routers.routers.contains_key(m) && v.routers.routers[m].source@ == name;
            &&& p.name@ == name
            &&& p.topic_id == t.topic_id
            &&& p.ticket == t.next_ticket
            &&& p.staged.start == t.tail()
            &&& p.staged.count == n
            &&& p.staged.added_bytes == bytes
            &&& p.key == req.idempotency_key
            &&& !p.created
            &&& v.limits.max_total_bytes > 0 ==> p.reserved == bytes
            &&& v.limits.max_total_bytes == 0 ==> p.reserved == 0
            &&& !read ==> p.forward@.len() == 0
            &&& read ==> p.forward@.len() == n && forall|i: int|
                0 <= i < n ==> {
                    let f = #[trigger] p.forward@[i];
                    let g = req.records@[i];
                    &&& f.data == g.data
                    &&& f.meta == g.meta
                    &&& f.tag == g.tag
                    &&& g.node is Some ==> f.node == g.node
                    &&& g.node is None ==> f.node == req.node
                }
        }),
{
    let t = v.topics[name];
    retention_keeps(t, now);
    retention_keeps(t.pruned(now), now);
    let reading = crate::router::reading(v.routers.routers, name);
    if exists|m: Seq<char>| #[trigger]
        v.routers.routers.contains_key(m) && v.routers.routers[m].source@ == name {
        let m = choose|m: Seq<char>| #[trigger]
            v.routers.routers.contains_key(m) && v.routers.routers[m].source@ == name;
        assert(reading.contains(m));
    } else {
        assert(reading =~= Set::<Seq<char>>::empty());
    }
}

} // verus!
