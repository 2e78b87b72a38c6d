//! Writing: from a request to readable records, in two steps with the log in
//! between.
use crate::config::{MAX_BATCH_RECORDS, MAX_IDEMPOTENCY_KEY_LEN, MAX_META_BYTES, MAX_META_KEYS,
    MAX_NODE_BYTES, MAX_RECORD_BYTES, MAX_TAG_BYTES};
use crate::engine::{Engine, EngineView};
use crate::engine_laws::{put_keeps_quiet, topic_keeps_quiet, unforwarded_write_rests,
    write_topic_rests};
use crate::eviction::{admission, admitted, max64, sat_add, AdmitDecision};
use crate::forward::{forwarded, setting_out, ForwardRecord};
use crate::payload::{encode_record_payload, envelope, meta_text};
use crate::router::reading;
use crate::topic_index::{bytes_in, StoredRecord};
use crate::topic_laws::retention_keeps;
use crate::topic_state::{cap64, run, DedupeEntry, DedupeView, StagedAppend, TopicState,
    TopicView};
use crate::types::{byte_len, copy_json, copy_text, default_config, Discard, Durability, Error,
    ErrorCode, ErrorDetail, Json, TopicConfig};
use crate::wal::{log_time, stamp, WalRecord};
use vstd::prelude::*;

verus! {

/// A record to be written.
#[derive(Debug)]
pub struct RecordIn {
    pub data: Json,
    pub tag: Option<String>,
    pub node: Option<String>,
    pub meta: Option<Json>,
}

/// A request to write.
#[derive(Debug)]
pub struct WriteRequest {
    pub records: Vec<RecordIn>,
    /// The node of the records that name none.
    pub node: Option<String>,
    /// Under the same key a write counts once.
    pub idempotency_key: Option<String>,
    /// Whether to create a topic that is not there. Where nothing is said, its
    /// settings decide.
    pub create: Option<bool>,
    /// The settings of a topic that is created.
    pub config: Option<TopicConfig>,
}

/// The answer to a write.
#[derive(Debug)]
pub struct WriteResponse {
    pub first_seq: u64,
    pub last_seq: u64,
    pub seqs: Option<Vec<u64>>,
    pub head_seq: u64,
    pub count: u64,
    pub created: bool,
    pub deduped: bool,
}

/// The length of an optional text in bytes.
pub open spec fn text_size(s: Option<String>) -> nat {
    match s {
        Some(t) => vstd::utf8::encode_utf8(t@).len(),
        None => 0,
    }
}

/// The size of a payload: the bytes of the JSON texts of data and meta.
pub open spec fn payload_size(data: Json, meta: Option<Json>) -> nat {
    data.size() + match meta {
        Some(m) => m.size(),
        None => 0,
    }
}

/// The size of a payload.
pub fn payload_bytes(data: &Json, meta: &Option<Json>) -> (r: u64)
    ensures
        r == cap64(payload_size(*data, *meta)),
{
    let d: u64 = data.len() as u64;
    match meta {
        Some(m) => d.saturating_add(m.len() as u64),
        None => d,
    }
}

/// What a record is refused for.
pub open spec fn record_refusal(
    data: Json,
    tag: Option<String>,
    node: Option<String>,
    meta: Option<Json>,
) -> Option<ErrorCode> {
    if text_size(tag) > MAX_TAG_BYTES || text_size(node) > MAX_NODE_BYTES {
        Some(ErrorCode::InvalidRequest)
    } else if meta is Some && (meta->0.size() > MAX_META_BYTES || (meta->0.keys is Some
        && meta->0.keys->0 > MAX_META_KEYS)) {
        Some(ErrorCode::InvalidRequest)
    } else if payload_size(data, meta) > MAX_RECORD_BYTES {
        Some(ErrorCode::RecordTooLarge)
    } else {
        None
    }
}

/// A record as it is stored.
pub open spec fn stored_record(
    data: Json,
    tag: Option<String>,
    node: Option<String>,
    meta: Option<Json>,
    now: i64,
    hops: u8,
) -> StoredRecord {
    StoredRecord {
        ts: now,
        node,
        tag,
        data: Some(data),
        meta,
        bytes: payload_size(data, meta) as u64,
        deleted: false,
        payload_resident: true,
        hops,
    }
}

/// Makes a stored record from its parts, or refuses it.
pub fn build_stored_owned(
    data: Json,
    tag: Option<String>,
    node: Option<String>,
    meta: Option<Json>,
    now: i64,
    hops: u8,
) -> (r: Result<StoredRecord, Error>)
    ensures
        match r {
            Ok(s) => {
                &&& record_refusal(data, tag, node, meta) is None
                &&& s == stored_record(data, tag, node, meta, now, hops)
            },
            Err(e) => record_refusal(data, tag, node, meta) == Some(e.code) && e.detail is Plain,
        },
{
    match &tag {
        Some(t) => {
            if byte_len(t.as_str()) > MAX_TAG_BYTES {
                return Err(Error::new(ErrorCode::InvalidRequest));
            }
        },
        None => {},
    }
    match &node {
        Some(n) => {
            if byte_len(n.as_str()) > MAX_NODE_BYTES {
                return Err(Error::new(ErrorCode::InvalidRequest));
            }
        },
        None => {},
    }
    match &meta {
        Some(m) => {
            if m.len() > MAX_META_BYTES {
                return Err(Error::new(ErrorCode::InvalidRequest));
            }
            match m.keys {
                Some(k) => {
                    if k > MAX_META_KEYS {
                        return Err(Error::new(ErrorCode::InvalidRequest));
                    }
                },
                None => {},
            }
        },
        None => {},
    }
    let bytes: u64 = payload_bytes(&data, &meta);
    if bytes > MAX_RECORD_BYTES {
        return Err(Error::new(ErrorCode::RecordTooLarge));
    }
    Ok(
        StoredRecord {
            ts: now,
            node,
            tag,
            data: Some(data),
            meta,
            bytes,
            deleted: false,
            payload_resident: true,
            hops,
        },
    )
}

/// The node of a record: its own, else that of the request.
pub open spec fn node_for(rec: RecordIn, node: Option<String>) -> Option<String> {
    if rec.node is Some {
        rec.node
    } else {
        node
    }
}

/// What the first refused record of a request is refused for.
pub open spec fn batch_refusal(recs: Seq<RecordIn>, node: Option<String>) -> Option<ErrorCode>
    decreases recs.len(),
{
    if recs.len() == 0 {
        None
    } else {
        let earlier = batch_refusal(recs.drop_last(), node);
        if earlier is Some {
            earlier
        } else {
            let r = recs.last();
            record_refusal(r.data, r.tag, node_for(r, node), r.meta)
        }
    }
}

/// The records of a request as they are stored.
pub open spec fn batch(recs: Seq<RecordIn>, node: Option<String>, now: i64) -> Seq<StoredRecord> {
    recs.map_values(|r: RecordIn| stored_record(r.data, r.tag, node_for(r, node), r.meta, now, 0))
}

/// What a request to write is refused for, whatever the state of the engine.
pub open spec fn request_refusal(req: WriteRequest) -> Option<ErrorCode> {
    if req.records@.len() == 0 {
        Some(ErrorCode::InvalidRequest)
    } else if req.records@.len() > MAX_BATCH_RECORDS {
        Some(ErrorCode::BatchTooLarge)
    } else if text_size(req.idempotency_key) > MAX_IDEMPOTENCY_KEY_LEN {
        Some(ErrorCode::InvalidRequest)
    } else {
        batch_refusal(req.records@, req.node)
    }
}

/// Makes the stored record for a record of a request, or refuses it.
pub fn build_stored(rec: &RecordIn, node: Option<String>, now: i64) -> (r: Result<
    StoredRecord,
    Error,
>)
    ensures
        match r {
            Ok(s) => {
                &&& record_refusal(rec.data, rec.tag, node, rec.meta) is None
                &&& s == stored_record(rec.data, rec.tag, node, rec.meta, now, 0)
            },
            Err(e) => record_refusal(rec.data, rec.tag, node, rec.meta) == Some(e.code) && e.detail
                is Plain,
        },
{
    build_stored_owned(rec.data.copy(), copy_text(&rec.tag), node, copy_json(&rec.meta), now, 0)
}

/// Records that are not refused are no larger than the limit, so that their sum is
/// small.
pub proof fn batch_is_small(recs: Seq<RecordIn>, node: Option<String>, now: i64)
    requires
        batch_refusal(recs, node) is None,
    ensures
        bytes_in(batch(recs, node, now)) <= recs.len() * MAX_RECORD_BYTES,
        forall|i: int|
            0 <= i < recs.len() ==> (#[trigger] batch(recs, node, now)[i]).ok() && !batch(
                recs,
                node,
                now,
            )[i].deleted,
    decreases recs.len(),
{
    let b = batch(recs, node, now);
    if recs.len() > 0 {
        let r = recs.drop_last();
        batch_is_small(r, node, now);
        assert(b.drop_last() =~= batch(r, node, now));
        assert(recs.len() * MAX_RECORD_BYTES == r.len() * MAX_RECORD_BYTES + MAX_RECORD_BYTES)
            by (nonlinear_arith)
            requires
                recs.len() == r.len() + 1,
        ;
    }
}

/// What is said of a request that was refused.
pub open spec fn request_detail(req: WriteRequest) -> ErrorDetail {
    if request_refusal(req) == Some(ErrorCode::BatchTooLarge) {
        ErrorDetail::Batch { given: req.records@.len() as u64, max: MAX_BATCH_RECORDS as u64 }
    } else {
        ErrorDetail::Plain
    }
}

/// Checks a request and makes the records to be stored, with their size.
pub fn prepare_batch(req: &WriteRequest, now: i64) -> (r: Result<(Vec<StoredRecord>, u64), Error>)
    ensures
        match r {
            Ok(p) => {
                &&& request_refusal(*req) is None
                &&& p.0@ == batch(req.records@, req.node, now)
                &&& p.1 == bytes_in(p.0@)
            },
            Err(e) => {
                &&& request_refusal(*req) == Some(e.code)
                &&& e.detail == request_detail(*req)
            },
        },
{
    let n: usize = req.records.len();
    if n == 0 {
        return Err(Error::new(ErrorCode::InvalidRequest));
    }
    if n > MAX_BATCH_RECORDS {
        return Err(
            Error::with_detail(
                ErrorCode::BatchTooLarge,
                ErrorDetail::Batch { given: n as u64, max: MAX_BATCH_RECORDS as u64 },
            ),
        );
    }
    match &req.idempotency_key {
        Some(k) => {
            if byte_len(k.as_str()) > MAX_IDEMPOTENCY_KEY_LEN {
                return Err(Error::new(ErrorCode::InvalidRequest));
            }
        },
        None => {},
    }
    let mut out: Vec<StoredRecord> = Vec::new();
    let mut bytes: u64 = 0;
    let mut i: usize = 0;
    let ghost recs = req.records@;
    assert(recs.take(0) =~= Seq::<RecordIn>::empty());
    assert(batch(recs.take(0), req.node, now) =~= Seq::<StoredRecord>::empty());
    while i < n
        invariant
            i <= n,
            n == recs.len(),
            n <= MAX_BATCH_RECORDS,
            recs == req.records@,
            request_refusal(*req) == batch_refusal(recs, req.node),
            batch_refusal(recs.take(i as int), req.node) is None,
            out@ == batch(recs.take(i as int), req.node, now),
            bytes == bytes_in(out@),
            bytes <= i * MAX_RECORD_BYTES,
        decreases n - i,
    {
        let rec = &req.records[i];
        let node = match &rec.node {
            Some(x) => Some(x.clone()),
            None => copy_text(&req.node),
        };
        let ghost a = recs.take(i as int);
        let ghost b = recs.take(i + 1);
        proof {
            assert(b.drop_last() =~= a);
            assert(b.last() == *rec);
        }
        match build_stored(rec, node, now) {
            Ok(s) => {
                proof {
                    assert(out@.push(s) =~= batch(b, req.node, now));
                    assert(out@.push(s).drop_last() =~= out@);
                    assert((i + 1) * MAX_RECORD_BYTES == i * MAX_RECORD_BYTES + MAX_RECORD_BYTES)
                        by (nonlinear_arith);
                    assert((i + 1) * MAX_RECORD_BYTES <= 1000 * MAX_RECORD_BYTES)
                        by (nonlinear_arith)
                        requires
                            i + 1 <= 1000,
                    ;
                }
                bytes = bytes + s.bytes;
                out.push(s);
            },
            Err(e) => {
                proof {
                    refusal_is_first(recs, req.node, i + 1);
                }
                return Err(e);
            },
        }
        i += 1;
    }
    assert(recs.take(i as int) =~= recs);
    Ok((out, bytes))
}

/// A request is refused for its first refused record.
proof fn refusal_is_first(recs: Seq<RecordIn>, node: Option<String>, k: int)
    requires
        0 <= k <= recs.len(),
        batch_refusal(recs.take(k), node) is Some,
    ensures
        batch_refusal(recs, node) == batch_refusal(recs.take(k), node),
    decreases recs.len() - k,
{
    if k == recs.len() {
        assert(recs.take(k) =~= recs);
    } else {
        assert(recs.take(k + 1).drop_last() =~= recs.take(k));
        refusal_is_first(recs, node, k + 1);
    }
}

impl TopicView {
    /// What a write of so many records and bytes is refused for by the topic.
    pub open spec fn admission_refusal(self, n: nat, bytes: u64) -> Option<ErrorCode> {
        let c = self.config;
        if c.discard == Discard::Reject && c.cap_bytes > 0 && bytes > c.cap_bytes {
            Some(ErrorCode::RecordTooLarge)
        } else if c.discard == Discard::Reject && c.cap_records > 0 && n > c.cap_records {
            Some(ErrorCode::RecordTooLarge)
        } else if !admitted(
            c.discard,
            c.cap_records,
            c.cap_bytes,
            self.live,
            self.bytes,
            n as u64,
            bytes,
        ) {
            Some(ErrorCode::TopicFull)
        } else {
            None
        }
    }
}

impl TopicView {
    /// What is said of a write that the topic refuses.
    pub open spec fn admission_detail(self, n: nat, bytes: u64) -> ErrorDetail {
        if self.admission_refusal(n, bytes) == Some(ErrorCode::TopicFull) {
            ErrorDetail::Full {
                cap_records: self.config.cap_records,
                cap_bytes: self.config.cap_bytes,
                head_seq: self.head,
                earliest_seq: self.earliest(),
            }
        } else {
            ErrorDetail::Plain
        }
    }
}

/// Decides whether a topic takes a write of so many records and bytes.
pub fn check_admission(t: &TopicState, n: u64, bytes: u64) -> (r: Result<(), Error>)
    ensures
        match r {
            Ok(_) => t@.admission_refusal(n as nat, bytes) is None,
            Err(e) => {
                &&& t@.admission_refusal(n as nat, bytes) == Some(e.code)
                &&& e.detail == t@.admission_detail(n as nat, bytes)
            },
        },
{
    let discard = t.config.discard;
    let cap_records: u64 = t.config.cap_records;
    let cap_bytes: u64 = t.config.cap_bytes;
    if discard == Discard::Reject && cap_bytes > 0 && bytes > cap_bytes {
        return Err(Error::new(ErrorCode::RecordTooLarge));
    }
    if discard == Discard::Reject && cap_records > 0 && n > cap_records {
        return Err(Error::new(ErrorCode::RecordTooLarge));
    }
    match admission(discard, cap_records, cap_bytes, t.count(), t.bytes(), n, bytes) {
        AdmitDecision::Admit => Ok(()),
        AdmitDecision::Reject => Err(
            Error::with_detail(
                ErrorCode::TopicFull,
                ErrorDetail::Full {
                    cap_records,
                    cap_bytes,
                    head_seq: t.head_seq(),
                    earliest_seq: t.earliest_seq(),
                },
            ),
        ),
    }
}

/// How a write begins.
pub ghost enum Begun {
    /// It is refused.
    Refused(ErrorCode),
    /// It was made before.
    Deduped(DedupeView),
    /// Its records are staged.
    Staged,
}

impl EngineView {
    /// The settings of a topic that a write creates.
    pub open spec fn write_config(req: WriteRequest) -> TopicConfig {
        match req.config {
            Some(c) => c,
            None => default_config(),
        }
    }

    /// What a write to a topic that is not there is refused for.
    pub open spec fn create_refusal(self, name: Seq<char>, req: WriteRequest) -> Option<ErrorCode> {
        let c = EngineView::write_config(req);
        let may_create = match req.create {
            Some(b) => b,
            None => c.auto_create,
        };
        if self.topics.contains_key(name) {
            None
        } else if !may_create {
            Some(ErrorCode::TopicNotFound)
        } else {
            self.put_refusal(name, c)
        }
    }

    /// The engine with the topic of a write in place.
    pub open spec fn resolved(self, name: Seq<char>, req: WriteRequest, now: i64) -> EngineView {
        if self.topics.contains_key(name) {
            self
        } else {
            self.with_put(name, EngineView::write_config(req), now)
        }
    }

    /// The topic of a write when admission is decided: a keyed write has forgotten
    /// what is too long ago, and retention has been enforced.
    pub open spec fn write_topic(self, name: Seq<char>, req: WriteRequest, now: i64) -> TopicView {
        let t = self.resolved(name, req, now).topics[name];
        if req.idempotency_key is Some {
            t.pruned(now).retained(now)
        } else {
            t.retained(now)
        }
    }

    /// What is said of a write that is refused.
    pub open spec fn write_detail(self, name: Seq<char>, req: WriteRequest, now: i64) -> ErrorDetail {
        let recs = batch(req.records@, req.node, now);
        let bytes = bytes_in(recs) as u64;
        let t = self.write_topic(name, req, now);
        if request_refusal(req) is Some {
            request_detail(req)
        } else if self.create_refusal(name, req) == Some(ErrorCode::TopicNotFound) {
            ErrorDetail::Plain
        } else if self.create_refusal(name, req) is Some {
            self.put_detail(name, EngineView::write_config(req))
        } else if t.admission_refusal(recs.len(), bytes) is Some {
            t.admission_detail(recs.len(), bytes)
        } else {
            ErrorDetail::Limit(self.limits.max_total_bytes)
        }
    }

    /// How a write begins, and the engine after that.
    pub open spec fn begin(self, name: Seq<char>, req: WriteRequest, now: i64) -> (
        Begun,
        EngineView,
    ) {
        let v = self.resolved(name, req, now);
        let recs = batch(req.records@, req.node, now);
        let bytes = bytes_in(recs) as u64;
        let t = self.write_topic(name, req, now);
        if request_refusal(req) is Some {
            (Begun::Refused(request_refusal(req)->0), self)
        } else if self.create_refusal(name, req) is Some {
            (Begun::Refused(self.create_refusal(name, req)->0), self)
        } else if req.idempotency_key is Some && v.topics[name].pruned(now).dedupe.contains_key(
            req.idempotency_key->0@,
        ) {
            (
                Begun::Deduped(v.topics[name].pruned(now).dedupe[req.idempotency_key->0@]),
                v.with_topic(v.topics[name].pruned(now)),
            )
        } else if t.admission_refusal(recs.len(), bytes) is Some {
            (Begun::Refused(t.admission_refusal(recs.len(), bytes)->0), v.with_topic(t))
        } else if v.limits.max_total_bytes != 0 && sat_add(v.total, bytes)
            > v.limits.max_total_bytes {
            (Begun::Refused(ErrorCode::Throttled), v.with_topic(t))
        } else {
            (
                Begun::Staged,
                EngineView {
                    total: if v.limits.max_total_bytes != 0 {
                        sat_add(v.total, bytes)
                    } else {
                        v.total
                    },
                    ..v.with_topic(t.staged(recs).ticketed())
                },
            )
        }
    }
}

/// A write whose records are staged and wait for the log.
#[derive(Debug)]
pub struct PendingWrite {
    pub name: String,
    pub topic_id: u64,
    pub ticket: u64,
    pub staged: StagedAppend,
    /// The frames to be logged, in order.
    pub frames: Vec<WalRecord>,
    /// Whether the log must reach the disk.
    pub durable: bool,
    /// The bytes counted against the quota.
    pub reserved: u64,
    pub key: Option<String>,
    pub created: bool,
    /// The records to be forwarded once they can be read.
    pub forward: Vec<ForwardRecord>,
}

/// A write after its first step.
#[derive(Debug)]
pub enum StartedWrite {
    /// It was made before: this is its answer.
    Done(WriteResponse),
    /// Its records are staged.
    Pending(PendingWrite),
}

/// The frame for a record at a sequence number.
pub open spec fn append_frame(f: WalRecord, topic_id: u64, seq: u64, rec: StoredRecord) -> bool {
    match f {
        WalRecord::Append { topic_id: id, seq: s, ts, node, tag, data } => {
            &&& id == topic_id
            &&& s == seq
            &&& ts == stamp(rec.ts)
            &&& node == rec.node
            &&& tag == rec.tag
            &&& rec.data is Some
            &&& data@ == envelope(rec.data->0.text@, meta_text(rec.meta))
        },
        _ => false,
    }
}

/// The frames for records from a sequence number on.
pub open spec fn append_frames(
    frames: Seq<WalRecord>,
    topic_id: u64,
    start: u64,
    recs: Seq<StoredRecord>,
) -> bool {
    &&& frames.len() == recs.len()
    &&& forall|i: int|
        0 <= i < recs.len() ==> append_frame(
            #[trigger] frames[i],
            topic_id,
            (start + i) as u64,
            recs[i],
        )
}

/// Makes the frames for records from a sequence number on.
pub fn wal_enqueue_batch(topic_id: u64, start: u64, records: &Vec<StoredRecord>) -> (r: Vec<
    WalRecord,
>)
    requires
        start + records@.len() <= u64::MAX,
        forall|i: int| 0 <= i < records@.len() ==> (#[trigger] records@[i]).data is Some,
    ensures
        append_frames(r@, topic_id, start, records@),
{
    let mut out: Vec<WalRecord> = Vec::new();
    let mut i: usize = 0;
    while i < records.len()
        invariant
            i <= records@.len(),
            start + records@.len() <= u64::MAX,
            out@.len() == i,
            forall|j: int| 0 <= j < records@.len() ==> (#[trigger] records@[j]).data is Some,
            forall|j: int|
                0 <= j < i ==> append_frame(
                    #[trigger] out@[j],
                    topic_id,
                    (start + j) as u64,
                    records@[j],
                ),
        decreases records@.len() - i,
    {
        let rec = &records[i];
        let data = match &rec.data {
            Some(d) => encode_record_payload(d, &rec.meta),
            None => String::new(),
        };
        out.push(
            WalRecord::Append {
                topic_id,
                seq: start + i as u64,
                ts: log_time(rec.ts),
                node: copy_text(&rec.node),
                tag: copy_text(&rec.tag),
                data,
            },
        );
        i += 1;
    }
    out
}

/// The answer to a write that was made before.
pub open spec fn answers_again(r: WriteResponse, e: DedupeView, return_seqs: bool) -> bool {
    &&& r.first_seq == (if e.seqs.len() > 0 {
        e.seqs[0]
    } else {
        0
    })
    &&& r.last_seq == (if e.seqs.len() > 0 {
        e.seqs.last()
    } else {
        0
    })
    &&& r.head_seq == e.head_seq
    &&& r.count == e.seqs.len()
    &&& !r.created
    &&& r.deduped
    &&& if return_seqs {
        r.seqs is Some && r.seqs->0@ == e.seqs
    } else {
        r.seqs is None
    }
}

/// An equal list.
pub fn copy_seqs(v: &Vec<u64>) -> (r: Vec<u64>)
    ensures
        r@ == v@,
{
    let mut out: Vec<u64> = Vec::new();
    let mut i: usize = 0;
    while i < v.len()
        invariant
            i <= v@.len(),
            out@ == v@.take(i as int),
        decreases v@.len() - i,
    {
        out.push(v[i]);
        assert(out@ =~= v@.take(i + 1));
        i += 1;
    }
    assert(v@.take(i as int) =~= v@);
    out
}

fn answer_again(e: &DedupeEntry, return_seqs: bool) -> (r: WriteResponse)
    ensures
        answers_again(r, e@, return_seqs),
{
    let n: usize = e.seqs.len();
    WriteResponse {
        first_seq: if n > 0 {
            e.seqs[0]
        } else {
            0
        },
        last_seq: if n > 0 {
            e.seqs[n - 1]
        } else {
            0
        },
        seqs: if return_seqs {
            Some(copy_seqs(&e.seqs))
        } else {
            None
        },
        head_seq: e.head_seq,
        count: n as u64,
        created: false,
        deduped: true,
    }
}

/// A finished write.
#[derive(Debug)]
pub struct FinishedWrite {
    pub response: WriteResponse,
    /// The frame to be logged where the write made the topic lose records.
    pub watermark: Option<WalRecord>,
    /// What goes on along the routers that read from the topic.
    pub forward: Vec<ForwardRecord>,
}

/// The answer to a write that was logged.
pub open spec fn answers(r: WriteResponse, p: PendingWrite, return_seqs: bool) -> bool {
    &&& r.first_seq == p.staged.start
    &&& r.last_seq == p.staged.start + p.staged.count - 1
    &&& r.head_seq == p.staged.start + p.staged.count - 1
    &&& r.count == p.staged.count
    &&& r.created == p.created
    &&& !r.deduped
    &&& if return_seqs {
        r.seqs is Some && r.seqs->0@ == run(p.staged.start, p.staged.count)
    } else {
        r.seqs is None
    }
}

impl TopicView {
    /// The topic with a write readable, and its key remembered.
    pub open spec fn wrote(self, recs: Seq<StoredRecord>, key: Option<String>, now: i64) -> TopicView {
        let t = self.landed(recs, now);
        match key {
            Some(k) => t.remembering(
                k@,
                DedupeView {
                    seqs: run((self.head + 1) as u64, recs.len() as u64),
                    head_seq: (self.head + recs.len()) as u64,
                    created_ms: now,
                },
            ),
            None => t,
        }
    }
}

impl EngineView {
    /// The topic a write was staged in is still there.
    pub open spec fn still_there(self, p: PendingWrite) -> bool {
        self.topics.contains_key(p.name@) && self.topics[p.name@].topic_id == p.topic_id
    }

    /// It is the turn of a write, whose run lies beyond the head; or its topic is
    /// gone.
    pub open spec fn can_finish(self, p: PendingWrite) -> bool {
        self.still_there(p) ==> {
            let t = self.topics[p.name@];
            &&& t.turn == p.ticket
            &&& p.staged.count > 0
            &&& t.head < p.staged.start
            &&& p.staged.start + p.staged.count <= t.tail()
            &&& t.bytes + p.staged.added_bytes <= u64::MAX
            &&& t.live + p.staged.count <= u64::MAX
        }
    }

    /// The topic of a logged write, with its records readable and retention
    /// enforced.
    pub open spec fn write_landed(self, p: PendingWrite, now: i64) -> TopicView {
        self.topics[p.name@].published(p.staged, now).turned().retained(now)
    }

    /// The frame to be logged where a write made its topic lose records.
    pub open spec fn watermark_after(self, p: PendingWrite, now: i64) -> Option<WalRecord> {
        let before = self.topics[p.name@].published(p.staged, now).turned().floors;
        let t = self.write_landed(p, now);
        if self.still_there(p) && max64(t.floors.evict_floor, t.floors.expiry_floor) > max64(
            before.evict_floor,
            before.expiry_floor,
        ) && t.config.class() != Durability::Memory {
            Some(
                WalRecord::EvictWatermark {
                    topic_id: t.topic_id,
                    evict_floor: t.floors.evict_floor,
                    expiry_floor: t.floors.expiry_floor,
                    ts: stamp(now),
                },
            )
        } else {
            None
        }
    }

    /// The engine after the second step of a write.
    pub open spec fn finished(self, p: PendingWrite, committed: bool, now: i64) -> EngineView {
        if !committed {
            let v = if self.still_there(p) {
                self.with_topic(self.topics[p.name@].taken_back(p.staged))
            } else {
                self
            };
            EngineView { total: crate::eviction::sat_sub(v.total, p.reserved), ..v }
        } else if !self.still_there(p) {
            self
        } else {
            let t = self.write_landed(p, now);
            self.with_topic(
                match p.key {
                    Some(k) => t.remembering(
                        k@,
                        DedupeView {
                            seqs: run(p.staged.start, p.staged.count),
                            head_seq: (p.staged.start + p.staged.count - 1) as u64,
                            created_ms: now,
                        },
                    ),
                    None => t,
                },
            )
        }
    }

    /// The engine with a write logged and readable, before anything is forwarded.
    pub open spec fn write_done(self, name: Seq<char>, req: WriteRequest, now: i64) -> EngineView {
        self.begin(name, req, now).1.with_topic(
            self.write_topic(name, req, now).wrote(
                batch(req.records@, req.node, now),
                req.idempotency_key,
                now,
            ),
        )
    }

    /// The engine after a write without a log.
    pub open spec fn written(self, name: Seq<char>, req: WriteRequest, now: i64) -> EngineView {
        let u = self.write_done(name, req, now);
        if reading(self.routers.routers, name) == Set::<Seq<char>>::empty() {
            u
        } else {
            forwarded(u, name, setting_out(batch(req.records@, req.node, now)), now, 0)
        }
    }
}

/// The answer to a write to a topic at rest, without a log.
pub open spec fn answers_write(
    v: EngineView,
    name: Seq<char>,
    req: WriteRequest,
    now: i64,
    return_seqs: bool,
    r: WriteResponse,
) -> bool {
    let t = v.write_topic(name, req, now);
    let n = req.records@.len();
    &&& r.first_seq == t.head + 1
    &&& r.last_seq == t.head + n
    &&& r.head_seq == t.head + n
    &&& r.count == n
    &&& r.created == !v.topics.contains_key(name)
    &&& !r.deduped
    &&& if return_seqs {
        r.seqs is Some && r.seqs->0@ == run((t.head + 1) as u64, n as u64)
    } else {
        r.seqs is None
    }
}

/// A write that was staged in a topic at rest can be finished at once, and then is
/// the write without a log.
pub proof fn staged_write_can_finish(
    v: EngineView,
    name: Seq<char>,
    req: WriteRequest,
    now: i64,
    p: PendingWrite,
)
    requires
        v.ok(),
        v.quiet(),
        v.topics.contains_key(name) ==> v.topics[name].room(
            req.records@.len(),
            bytes_in(batch(req.records@, req.node, now)),
        ),
        v.begin(name, req, now).0 is Staged,
        p.from(v, name, req, now),
    ensures
        p.staged.count == req.records@.len(),
        p.staged.count > 0,
        p.staged.fits(),
        p.staged.start == v.write_topic(name, req, now).head + 1,
        v.begin(name, req, now).1.can_finish(p),
        v.begin(name, req, now).1.still_there(p),
        ({
            let u = v.begin(name, req, now).1.finished(p, true, now);
            &&& u.quiet()
            &&& p.forward@.len() == 0 ==> v.written(name, req, now) == u
            &&& p.forward@.len() > 0 ==> v.written(name, req, now) == forwarded(
                u,
                name,
                p.forward@,
                now,
                0,
            )
        }),
{
    let recs = batch(req.records@, req.node, now);
    let t = v.write_topic(name, req, now);
    write_topic_rests(v, name, req, now);
    assert(recs.len() == req.records@.len());
    let v1 = v.begin(name, req, now).1;
    assert(v1.topics[name] == t.staged(recs).ticketed());
    assert(v1.still_there(p));
    assert(p.forward@.len() == 0 <==> reading(v.routers.routers, name)
        == Set::<Seq<char>>::empty());
    unforwarded_write_rests(v, name, req, now);
    assert(v1.finished(p, true, now).topics =~= v.write_done(name, req, now).topics);
}

/// Beginning a write that is refused, or was made before, leaves every topic at
/// rest.
proof fn begin_keeps_quiet(v: EngineView, name: Seq<char>, req: WriteRequest, now: i64)
    requires
        v.ok(),
        v.quiet(),
    ensures
        !(v.begin(name, req, now).0 is Staged) ==> v.begin(name, req, now).1.quiet(),
{
    if request_refusal(req) is None && v.create_refusal(name, req) is None {
        if !v.topics.contains_key(name) {
            put_keeps_quiet(v, name, EngineView::write_config(req), now);
        }
        let r0 = v.resolved(name, req, now);
        let t0 = r0.topics[name];
        assert(r0.topics.contains_key(name));
        retention_keeps(t0, now);
        retention_keeps(t0.pruned(now), now);
        topic_keeps_quiet(r0, t0.pruned(now), r0.total);
        topic_keeps_quiet(r0, v.write_topic(name, req, now), r0.total);
    }
}

/// Sets records out along the routers.
fn set_out(records: &Vec<StoredRecord>) -> (r: Vec<ForwardRecord>)
    requires
        forall|i: int| 0 <= i < records@.len() ==> (#[trigger] records@[i]).data is Some,
    ensures
        r@ == setting_out(records@),
{
    let mut out: Vec<ForwardRecord> = Vec::new();
    let mut i: usize = 0;
    assert(setting_out(records@.take(0)) =~= out@);
    while i < records.len()
        invariant
            i <= records@.len(),
            forall|j: int| 0 <= j < records@.len() ==> (#[trigger] records@[j]).data is Some,
            out@ == setting_out(records@.take(i as int)),
        decreases records@.len() - i,
    {
        let s = &records[i];
        match &s.data {
            Some(d) => {
                out.push(
                    ForwardRecord {
                        data: d.copy(),
                        tag: copy_text(&s.tag),
                        node: copy_text(&s.node),
                        meta: copy_json(&s.meta),
                    },
                );
            },
            None => {},
        }
        assert(out@ =~= setting_out(records@.take(i + 1)));
        i += 1;
    }
    assert(records@.take(i as int) =~= records@);
    out
}

impl PendingWrite {
    /// What a write to a topic is waiting with.
    pub open spec fn from(self, v: EngineView, name: Seq<char>, req: WriteRequest, now: i64) -> bool {
        let t = v.write_topic(name, req, now);
        let recs = batch(req.records@, req.node, now);
        &&& self.name@ == name
        &&& self.topic_id == t.topic_id
        &&& self.ticket == t.next_ticket
        &&& self.staged == t.staging(recs)
        &&& self.durable == (t.config.class() == Durability::Fsync)
        &&& self.reserved == (if v.limits.max_total_bytes != 0 {
            bytes_in(recs) as u64
        } else {
            0
        })
        &&& self.key == req.idempotency_key
        &&& self.created == !v.topics.contains_key(name)
        &&& self.forward@ == (if reading(v.routers.routers, name) == Set::<Seq<char>>::empty() {
            Seq::empty()
        } else {
            setting_out(recs)
        })
        &&& if t.config.class() == Durability::Memory {
            self.frames@.len() == 0
        } else {
            append_frames(self.frames@, t.topic_id, t.tail() as u64, recs)
        }
    }
}

impl Engine {
    /// Finds the topic of a write, and creates it where that is asked for.
    fn resolve_topic(&mut self, name: &str, req: &WriteRequest, now: i64) -> (r: Result<bool, Error>)
        requires
            old(self).wf(),
            old(self)@.next_topic_id < u64::MAX,
        ensures
            final(self).wf(),
            match r {
                Ok(created) => {
                    &&& old(self)@.create_refusal(name@, *req) is None
                    &&& created == !old(self)@.topics.contains_key(name@)
                    &&& final(self)@ == old(self)@.resolved(name@, *req, now)
                    &&& final(self)@.topics.contains_key(name@)
                },
                Err(e) => {
                    &&& old(self)@.create_refusal(name@, *req) == Some(e.code)
                    &&& e.detail == (if e.code == ErrorCode::TopicNotFound {
                        ErrorDetail::Plain
                    } else {
                        old(self)@.put_detail(name@, EngineView::write_config(*req))
                    })
                    &&& final(self)@ == old(self)@
                },
            },
    {
        if self.topics.contains_key(name) {
            return Ok(false);
        }
        let config = match &req.config {
            Some(c) => c.copy(),
            None => TopicConfig::default(),
        };
        let may_create = match req.create {
            Some(b) => b,
            None => config.auto_create,
        };
        if !may_create {
            return Err(Error::new(ErrorCode::TopicNotFound));
        }
        match self.put_box(name, config, now) {
            Ok(p) => Ok(p.0),
            Err(e) => Err(e),
        }
    }

    /// The first step of a write: checks it, stages its records, and says what has
    /// to be logged. A keyed write that was made before is answered as it was then.
    #[verifier::rlimit(40)]
    pub fn begin_write(
        &mut self,
        name: &str,
        req: &WriteRequest,
        return_seqs: bool,
        now: i64,
    ) -> (r: Result<StartedWrite, Error>)
        requires
            old(self).wf(),
            old(self)@.next_topic_id < u64::MAX,
            old(self)@.topics.contains_key(name@) ==> old(self)@.topics[name@].tail()
                + req.records@.len() <= u64::MAX,
        ensures
            final(self).wf(),
            final(self)@ == old(self)@.begin(name@, *req, now).1,
            match old(self)@.begin(name@, *req, now).0 {
                Begun::Refused(c) => r is Err && r->Err_0.code == c && r->Err_0.detail == old(
                    self,
                )@.write_detail(name@, *req, now),
                Begun::Deduped(e) => r is Ok && r->Ok_0 is Done && answers_again(
                    r->Ok_0->Done_0,
                    e,
                    return_seqs,
                ),
                Begun::Staged => r is Ok && r->Ok_0 is Pending && r->Ok_0->Pending_0.from(
                    old(self)@,
                    name@,
                    *req,
                    now,
                ),
            },
    {
        let (records, bytes) = match prepare_batch(req, now) {
            Ok(p) => p,
            Err(e) => {
                return Err(e);
            },
        };
        proof {
            batch_is_small(req.records@, req.node, now);
        }
        let created = match self.resolve_topic(name, req, now) {
            Ok(c) => c,
            Err(e) => {
                return Err(e);
            },
        };
        let ghost v = self@;
        let mut t = match self.take_topic(name) {
            Some(t) => t,
            None => {
                return Err(Error::new(ErrorCode::Internal));
            },
        };
        let ghost t0 = t@;
        match &req.idempotency_key {
            Some(key) => {
                t.prune_dedupe(now);
                let again = match t.recall(key.as_str()) {
                    Some(e) => Some(answer_again(e, return_seqs)),
                    None => None,
                };
                match again {
                    Some(a) => {
                        self.put_topic(t);
                        proof {
                            assert(self@.topics =~= v.topics.insert(name@, t@));
                        }
                        return Ok(StartedWrite::Done(a));
                    },
                    None => {},
                }
            },
            None => {},
        }
        proof {
            retention_keeps(t@, now);
        }
        let _ = t.enforce_retention(now);
        assert(t@ == old(self)@.write_topic(name@, *req, now));
        assert(t@.tail() == t0.tail());
        match check_admission(&t, records.len() as u64, bytes) {
            Ok(_) => {},
            Err(e) => {
                self.put_topic(t);
                proof {
                    assert(self@.topics =~= v.topics.insert(name@, t@));
                }
                return Err(e);
            },
        }
        let quota = self.limits.max_total_bytes != 0;
        if !self.try_reserve_total_bytes(bytes) {
            let max: u64 = self.limits.max_total_bytes;
            self.put_topic(t);
            proof {
                assert(self@.topics =~= v.topics.insert(name@, t@));
            }
            return Err(Error::with_detail(ErrorCode::Throttled, ErrorDetail::Limit(max)));
        }
        let class = t.config.durability_class();
        let start: u64 = t.index.base_seq + t.index.records.len() as u64;
        let frames = if class == Durability::Memory {
            Vec::new()
        } else {
            wal_enqueue_batch(t.topic_id, start, &records)
        };
        let forward = if self.routers.has_routers_for_source(name) {
            set_out(&records)
        } else {
            Vec::new()
        };
        let topic_id: u64 = t.topic_id;
        let staged = t.stage_append(records);
        let ticket: u64 = t.next_publish_ticket();
        self.put_topic(t);
        proof {
            assert(self@.topics =~= v.topics.insert(name@, t@));
        }
        Ok(
            StartedWrite::Pending(
                PendingWrite {
                    name: name.to_owned(),
                    topic_id,
                    ticket,
                    staged,
                    frames,
                    durable: class == Durability::Fsync,
                    reserved: if quota {
                        bytes
                    } else {
                        0
                    },
                    key: copy_text(&req.idempotency_key),
                    created,
                    forward,
                },
            ),
        )
    }

    /// Whether a write can be finished now: it is its turn, or its topic is gone.
    pub fn can_finish(&self, p: &PendingWrite) -> (r: bool)
        requires
            self.wf(),
        ensures
            r == self@.can_finish(*p),
    {
        match self.topics.get(p.name.as_str()) {
            Some(t) => {
                if t.topic_id != p.topic_id {
                    return true;
                }
                let tail: u64 = t.index.base_seq + t.index.records.len() as u64;
                t.is_turn(p.ticket) && p.staged.count > 0 && p.staged.count <= tail
                    && p.staged.start <= tail - p.staged.count && p.staged.start > t.head_seq()
                    && p.staged.added_bytes <= u64::MAX - t.bytes() && p.staged.count <= u64::MAX
                    - t.count()
            },
            None => true,
        }
    }

    /// The second step of a write, once the log has answered. Where the frames are
    /// logged the records become readable, and what has to be forwarded is handed
    /// back. Where they are not, nothing of the write can ever be read, and its bytes
    /// are given back. A topic that was deleted in the meantime stays deleted.
    pub fn finish_write(
        &mut self,
        p: PendingWrite,
        committed: bool,
        return_seqs: bool,
        now: i64,
    ) -> (r: Result<FinishedWrite, Error>)
        requires
            old(self).wf(),
            old(self)@.can_finish(p),
            p.staged.count > 0,
            p.staged.fits(),
        ensures
            final(self).wf(),
            final(self)@ == old(self)@.finished(p, committed, now),
            !committed ==> r is Err && r->Err_0.code == ErrorCode::Internal && r->Err_0.detail is Plain,
            committed ==> {
                &&& r is Ok
                &&& answers(r->Ok_0.response, p, return_seqs)
                &&& r->Ok_0.watermark == old(self)@.watermark_after(p, now)
                &&& r->Ok_0.forward@ == (if old(self)@.still_there(p) {
                    p.forward@
                } else {
                    Seq::empty()
                })
            },
    {
        let ghost v = self@;
        let present = match self.topics.get(p.name.as_str()) {
            Some(t) => t.topic_id == p.topic_id,
            None => false,
        };
        if !committed {
            if present {
                match self.take_topic(p.name.as_str()) {
                    Some(t) => {
                        let mut t = t;
                        t.rollback_staged_by_seqs(&p.staged);
                        t.publish_done(p.ticket);
                        self.put_topic(t);
                        proof {
                            assert(self@.topics =~= v.topics.insert(p.name@, t@));
                        }
                    },
                    None => {},
                }
            }
            self.release_total_bytes(p.reserved);
            return Err(Error::new(ErrorCode::Internal));
        }
        let seqs = p.staged.seqs();
        let head: u64 = p.staged.publish_head();
        let first: u64 = p.staged.start;
        let count: u64 = p.staged.count;
        let mut watermark: Option<WalRecord> = None;
        if present {
            match self.take_topic(p.name.as_str()) {
                Some(t) => {
                    let mut t = t;
                    let _ = t.publish_staged(p.staged, now);
                    t.publish_done(p.ticket);
                    let before: u64 = t.involuntary_floor();
                    proof {
                        retention_keeps(t@, now);
                    }
                    let _ = t.enforce_retention(now);
                    if t.involuntary_floor() > before && !t.config.is_memory() {
                        watermark = Some(
                            WalRecord::EvictWatermark {
                                topic_id: t.topic_id,
                                evict_floor: t.floors.evict_floor,
                                expiry_floor: t.floors.expiry_floor,
                                ts: log_time(now),
                            },
                        );
                    }
                    match &p.key {
                        Some(k) => {
                            t.remember(
                                k.as_str(),
                                DedupeEntry {
                                    seqs: copy_seqs(&seqs),
                                    head_seq: head,
                                    created_ms: now,
                                },
                            );
                        },
                        None => {},
                    }
                    self.put_topic(t);
                    proof {
                        assert(self@.topics =~= v.topics.insert(p.name@, t@));
                    }
                },
                None => {},
            }
        }
        Ok(
            FinishedWrite {
                response: WriteResponse {
                    first_seq: first,
                    last_seq: head,
                    seqs: if return_seqs {
                        Some(seqs)
                    } else {
                        None
                    },
                    head_seq: head,
                    count,
                    created: p.created,
                    deduped: false,
                },
                watermark,
                forward: if present {
                    p.forward
                } else {
                    Vec::new()
                },
            },
        )
    }

    /// A write without a log: both steps at once.
    pub fn write(&mut self, name: &str, req: &WriteRequest, return_seqs: bool, now: i64) -> (r: Result<
        WriteResponse,
        Error,
    >)
        requires
            old(self).wf(),
            old(self)@.quiet(),
            old(self)@.next_topic_id < u64::MAX,
            old(self)@.topics.contains_key(name@) ==> old(self)@.topics[name@].room(
                req.records@.len(),
                bytes_in(batch(req.records@, req.node, now)),
            ),
        ensures
            final(self).wf(),
            final(self)@.quiet(),
            match old(self)@.begin(name@, *req, now).0 {
                Begun::Refused(c) => {
                    &&& r is Err
                    &&& r->Err_0.code == c
                    &&& r->Err_0.detail == old(self)@.write_detail(name@, *req, now)
                    &&& final(self)@ == old(self)@.begin(name@, *req, now).1
                },
                Begun::Deduped(e) => {
                    &&& r is Ok
                    &&& answers_again(r->Ok_0, e, return_seqs)
                    &&& final(self)@ == old(self)@.begin(name@, *req, now).1
                },
                Begun::Staged => {
                    &&& r is Ok
                    &&& answers_write(old(self)@, name@, *req, now, return_seqs, r->Ok_0)
                    &&& final(self)@ == old(self)@.written(name@, *req, now)
                },
            },
    {
        let ghost v0 = self@;
        proof {
            self.wf_ok();
        }
        proof {
            begin_keeps_quiet(v0, name@, *req, now);
        }
        match self.begin_write(name, req, return_seqs, now) {
            Err(e) => Err(e),
            Ok(StartedWrite::Done(a)) => Ok(a),
            Ok(StartedWrite::Pending(p)) => {
                proof {
                    staged_write_can_finish(v0, name@, *req, now, p);
                }
                match self.finish_write(p, true, return_seqs, now) {
                    Ok(f) => {
                        if f.forward.len() > 0 {
                            self.forward_from(name, &f.forward, now, 0);
                        }
                        Ok(f.response)
                    },
                    Err(e) => Err(e),
                }
            },
        }
    }
}

} // verus!
