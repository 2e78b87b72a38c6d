use topics::config::MAX_CLAIM;
use topics::deal::Claimer;
use topics::engine::{Engine, Limits};
use topics::queue::QueueProjection;
use topics::read::DiffRequest;
use topics::types::{Discard, ErrorCode, Json, TopicConfig, TopicType};
use topics::wal::WalRecord;
use topics::write::{RecordIn, StartedWrite, WriteRequest};

const T0: i64 = 1_000_000;

const CLAIMED: u8 = 0;
const RELEASED: u8 = 1;
const EXTENDED: u8 = 2;

fn new_engine() -> Engine {
    Engine::new(Limits { max_topics: 0, max_routers: 0, max_total_bytes: 0 })
}

fn queue_cfg() -> TopicConfig {
    TopicConfig { topic_type: TopicType::Queue, lease_ms: 30_000, ..TopicConfig::default() }
}

fn job_request(n: usize) -> WriteRequest {
    let records: Vec<RecordIn> = (0..n)
        .map(|i| RecordIn {
            data: Json::parse(&format!("{{\"i\":{i}}}")).unwrap(),
            tag: None,
            node: None,
            meta: None,
        })
        .collect();
    WriteRequest { records, node: None, idempotency_key: None, create: None, config: None }
}

/// Writes `n` untagged jobs to a queue, and returns their sequence numbers.
fn produce(engine: &mut Engine, q: &str, n: usize) -> Vec<u64> {
    engine.write(q, &job_request(n), true, T0).unwrap().seqs.unwrap()
}

#[test]
fn claim_distributes_and_limits() {
    let mut engine = new_engine();
    engine.put_box("jobs", queue_cfg(), T0).unwrap();
    produce(&mut engine, "jobs", 10);

    let r = engine.claim("jobs", "w1", 4, None, T0).unwrap();
    assert_eq!(r.count, 4);
    let seqs: Vec<u64> = r.claimed.iter().map(|c| c.seq).collect();
    assert_eq!(seqs, vec![1, 2, 3, 4]);
    assert_eq!(r.ready, 6);
    assert!(r.claimed.iter().all(|c| c.deliveries == 1));

    let r2 = engine.claim("jobs", "w2", 4, None, T0).unwrap();
    assert_eq!(r2.claimed.iter().map(|c| c.seq).collect::<Vec<_>>(), vec![5, 6, 7, 8]);
    assert_eq!(r2.ready, 2);

    let r3 = engine.claim("jobs", "w3", 100, None, T0).unwrap();
    assert_eq!(r3.count, 2);
    assert_eq!(r3.ready, 0);
    let r4 = engine.claim("jobs", "w3", 100, None, T0).unwrap();
    assert_eq!(r4.count, 0);
}

#[test]
fn ready_counter_tracks_cap_eviction_of_unleased_jobs() {
    let mut engine = new_engine();
    let cfg = TopicConfig { cap_records: 5, discard: Discard::Old, ..queue_cfg() };
    engine.put_box("jobs", cfg, T0).unwrap();
    produce(&mut engine, "jobs", 5);
    let st = engine.box_state("jobs", false, T0).unwrap();
    assert_eq!(st.queue.as_ref().unwrap().ready, 5);
    assert_eq!(st.queue.as_ref().unwrap().in_flight, 0);

    let r = engine.claim("jobs", "w1", 2, None, T0).unwrap();
    assert_eq!(r.ready, 3);

    produce(&mut engine, "jobs", 3);
    let st = engine.box_state("jobs", false, T0).unwrap();
    let q = st.queue.as_ref().unwrap();
    assert_eq!(q.ready, 5);
    assert_eq!(q.in_flight, 0);
}

#[test]
fn coalescing_window_divides_evenly_across_cohort() {
    let mut engine = new_engine();
    let cfg = TopicConfig { claim_jitter_ms: 50, ..queue_cfg() };
    engine.put_box("jobs", cfg, T0).unwrap();
    produce(&mut engine, "jobs", 50);

    let claimers: Vec<Claimer> = (0..10)
        .map(|i| Claimer { node: format!("w{i}"), max: 10, work_conn: None })
        .collect();
    let (results, ready) = engine.claim_cohort("jobs", &claimers, None, T0).unwrap();
    let counts: Vec<usize> = results.jobs.iter().map(|r| r.len()).collect();
    assert_eq!(counts, vec![5; 10], "50 jobs / 10 claimers = 5 each");
    assert_eq!(ready, 0);
    let mut all: Vec<u64> = results.jobs.iter().flatten().map(|j| j.seq).collect();
    all.sort_unstable();
    assert_eq!(all, (1..=50).collect::<Vec<_>>());
}

#[test]
fn coalescing_window_respects_each_max() {
    let mut engine = new_engine();
    engine.put_box("jobs", queue_cfg(), T0).unwrap();
    produce(&mut engine, "jobs", 9);
    let claimers = vec![
        Claimer { node: "small".into(), max: 2, work_conn: None },
        Claimer { node: "big".into(), max: 100, work_conn: None },
    ];
    let (results, _ready) = engine.claim_cohort("jobs", &claimers, None, T0).unwrap();
    assert_eq!(results.jobs[0].len(), 2);
    assert_eq!(results.jobs[1].len(), 7);
}

#[test]
fn ack_removes_jobs() {
    let mut engine = new_engine();
    engine.put_box("jobs", queue_cfg(), T0).unwrap();
    produce(&mut engine, "jobs", 3);
    let r = engine.claim("jobs", "w1", 3, None, T0).unwrap();
    let seqs: Vec<u64> = r.claimed.iter().map(|c| c.seq).collect();

    let a = engine.ack("jobs", "w1", &seqs, T0).unwrap();
    assert_eq!(a.acked, 3);
    assert!(a.skipped.is_empty());
    assert_eq!(a.ready, 0);
    assert_eq!(a.in_flight, 0);
    assert_eq!(engine.box_state("jobs", false, T0).unwrap().count, 0);

    let a2 = engine.ack("jobs", "w1", &seqs, T0).unwrap();
    assert_eq!(a2.acked, 0);
    assert_eq!(a2.skipped, seqs);
}

#[test]
fn ack_nack_extend_reject_unbounded_seqs() {
    let mut engine = new_engine();
    engine.put_box("jobs", queue_cfg(), T0).unwrap();
    let over: Vec<u64> = (1..=(MAX_CLAIM as u64 + 1)).collect();

    let e = engine.ack("jobs", "w1", &over, T0).unwrap_err();
    assert_eq!(e.code, ErrorCode::BatchTooLarge);
    let e = engine.nack("jobs", "w1", &over, 0, T0).unwrap_err();
    assert_eq!(e.code, ErrorCode::BatchTooLarge);
    let e = engine.extend("jobs", "w1", &over, 30_000, T0).unwrap_err();
    assert_eq!(e.code, ErrorCode::BatchTooLarge);

    let at: Vec<u64> = (1..=(MAX_CLAIM as u64)).collect();
    assert!(engine.ack("jobs", "w1", &at, T0).is_ok());
}

#[test]
fn nack_requeues_for_immediate_reclaim() {
    let mut engine = new_engine();
    engine.put_box("jobs", queue_cfg(), T0).unwrap();
    produce(&mut engine, "jobs", 2);
    let r = engine.claim("jobs", "w1", 2, None, T0).unwrap();
    let seqs: Vec<u64> = r.claimed.iter().map(|c| c.seq).collect();

    let n = engine.nack("jobs", "w1", &seqs, 0, T0).unwrap();
    assert_eq!(n.nacked, 2);
    assert_eq!(n.in_flight, 0);
    assert_eq!(n.ready, 2);

    let r2 = engine.claim("jobs", "w2", 2, None, T0).unwrap();
    assert_eq!(r2.claimed.iter().map(|c| c.seq).collect::<Vec<_>>(), seqs);
    assert!(r2.claimed.iter().all(|c| c.deliveries == 2));
}

#[test]
fn nack_delay_holds_until_elapsed() {
    let mut engine = new_engine();
    engine.put_box("jobs", queue_cfg(), T0).unwrap();
    produce(&mut engine, "jobs", 1);
    let r = engine.claim("jobs", "w1", 1, None, T0).unwrap();
    let seq = r.claimed[0].seq;

    let n = engine.nack("jobs", "w1", &[seq], 5_000, T0).unwrap();
    assert_eq!(n.nacked, 1);
    assert_eq!(n.ready, 0);
    assert_eq!(engine.claim("jobs", "w2", 1, None, T0).unwrap().count, 0);

    let r2 = engine.claim("jobs", "w2", 1, None, T0 + 5_001).unwrap();
    assert_eq!(r2.count, 1);
    assert_eq!(r2.claimed[0].seq, seq);
}

#[test]
fn extend_pushes_deadline() {
    let mut engine = new_engine();
    engine.put_box("jobs", queue_cfg(), T0).unwrap();
    produce(&mut engine, "jobs", 1);
    let r = engine.claim("jobs", "w1", 1, Some(10_000), T0).unwrap();
    let seq = r.claimed[0].seq;
    let first_deadline = r.claimed[0].deadline;

    let now = T0 + 9_000;
    let e = engine.extend("jobs", "w1", &[seq], 10_000, now).unwrap();
    assert_eq!(e.extended, 1);
    let new_deadline = e.deadlines.iter().find(|d| d.0 == seq).unwrap().1;
    assert!(new_deadline > first_deadline);

    let now = now + 5_000;
    assert_eq!(engine.claim("jobs", "w2", 1, None, now).unwrap().count, 0);
    let st = engine.box_state("jobs", false, now).unwrap();
    assert_eq!(st.queue.as_ref().unwrap().in_flight, 1);

    let e2 = engine.extend("jobs", "w9", &[seq], 10_000, now).unwrap();
    assert_eq!(e2.extended, 0);
    assert_eq!(e2.skipped, vec![seq]);
}

/// The number of a lease, from its token.
fn parse_lease(token: &str) -> u64 {
    u64::from_str_radix(token.strip_prefix("lease_").unwrap(), 16).unwrap()
}

#[test]
fn fenced_ack_rejects_stale_lease_token() {
    let mut engine = new_engine();
    engine.put_box("jobs", queue_cfg(), T0).unwrap();
    produce(&mut engine, "jobs", 1);

    let r1 = engine.claim("jobs", "w1", 1, Some(1_000), T0).unwrap();
    let seq = r1.claimed[0].seq;
    let stale_token = parse_lease(&r1.claimed[0].lease_id);

    let now = T0 + 1_001;
    let r2 = engine.claim("jobs", "w1", 1, Some(60_000), now).unwrap();
    assert_eq!(r2.claimed[0].seq, seq);
    let fresh_token = parse_lease(&r2.claimed[0].lease_id);
    assert_ne!(stale_token, fresh_token, "redelivery gets a new lease id");

    let a = engine.ack_fenced("jobs", "w1", &[seq], &[Some(stale_token)], now).unwrap();
    assert_eq!(a.acked, 0, "stale-token ack rejected");
    assert_eq!(a.skipped, vec![seq]);
    assert_eq!(a.in_flight, 1, "the fresh lease still holds the job");
    assert_eq!(engine.box_state("jobs", false, now).unwrap().count, 1, "not deleted");

    let a2 = engine.ack_fenced("jobs", "w1", &[seq], &[Some(fresh_token)], now).unwrap();
    assert_eq!(a2.acked, 1);
    assert!(a2.skipped.is_empty());
    assert_eq!(engine.box_state("jobs", false, now).unwrap().count, 0, "deleted");
}

#[test]
fn fenced_nack_and_extend_reject_stale_token() {
    let mut engine = new_engine();
    engine.put_box("jobs", queue_cfg(), T0).unwrap();
    produce(&mut engine, "jobs", 1);

    let r1 = engine.claim("jobs", "w1", 1, Some(1_000), T0).unwrap();
    let seq = r1.claimed[0].seq;
    let stale = parse_lease(&r1.claimed[0].lease_id);

    let now = T0 + 1_001;
    let r2 = engine.claim("jobs", "w1", 1, Some(60_000), now).unwrap();
    let fresh = parse_lease(&r2.claimed[0].lease_id);
    assert_ne!(stale, fresh);

    let e = engine.extend_fenced("jobs", "w1", &[seq], 30_000, &[Some(stale)], now).unwrap();
    assert_eq!(e.extended, 0);
    assert_eq!(e.skipped, vec![seq]);

    let n = engine.nack_fenced("jobs", "w1", &[seq], 0, &[Some(stale)], now).unwrap();
    assert_eq!(n.nacked, 0);
    assert_eq!(n.skipped, vec![seq]);
    assert_eq!(n.in_flight, 1, "still held under the fresh lease");

    let n2 = engine.nack_fenced("jobs", "w1", &[seq], 0, &[Some(fresh)], now).unwrap();
    assert_eq!(n2.nacked, 1);
    assert_eq!(n2.ready, 1);

    let r3 = engine.claim("jobs", "w1", 1, None, now).unwrap();
    let s3 = r3.claimed[0].seq;
    let a = engine.ack("jobs", "w1", &[s3], now).unwrap();
    assert_eq!(a.acked, 1);
}

#[test]
fn fenced_ops_reject_mismatched_lease_ids_length() {
    let mut engine = new_engine();
    engine.put_box("jobs", queue_cfg(), T0).unwrap();
    let e = engine.ack_fenced("jobs", "w1", &[1, 2], &[Some(7)], T0).unwrap_err();
    assert_eq!(e.code, ErrorCode::InvalidRequest);
}

#[test]
fn lease_expiry_makes_seq_claimable() {
    let mut engine = new_engine();
    engine.put_box("jobs", queue_cfg(), T0).unwrap();
    produce(&mut engine, "jobs", 1);
    let r = engine.claim("jobs", "w1", 1, Some(1_000), T0).unwrap();
    let seq = r.claimed[0].seq;
    assert_eq!(r.count, 1);

    assert_eq!(engine.claim("jobs", "w2", 1, None, T0).unwrap().count, 0);

    let r2 = engine.claim("jobs", "w2", 1, None, T0 + 1_001).unwrap();
    assert_eq!(r2.count, 1);
    assert_eq!(r2.claimed[0].seq, seq);
    assert_eq!(r2.claimed[0].deliveries, 2);
}

#[test]
fn dead_letter_after_max_deliveries() {
    let mut engine = new_engine();
    engine.put_box("dlq", TopicConfig::default(), T0).unwrap();
    let cfg = TopicConfig {
        max_deliveries: 2,
        dead_letter: Some("dlq".to_string()),
        lease_ms: 1_000,
        ..queue_cfg()
    };
    engine.put_box("jobs", cfg, T0).unwrap();
    produce(&mut engine, "jobs", 1);

    let r1 = engine.claim("jobs", "w", 1, None, T0).unwrap();
    assert_eq!(r1.claimed[0].deliveries, 1);
    let now = T0 + 1_001;
    let r2 = engine.claim("jobs", "w", 1, None, now).unwrap();
    assert_eq!(r2.claimed[0].deliveries, 2);
    let now = now + 1_001;
    let r3 = engine.claim("jobs", "w", 1, None, now).unwrap();
    assert_eq!(r3.count, 0);

    assert_eq!(engine.box_state("jobs", false, now).unwrap().count, 0);
    let st = engine.box_state("jobs", false, now).unwrap();
    assert_eq!(st.queue.as_ref().unwrap().dead_lettered, 1);

    let d = engine
        .diff(
            "dlq",
            &DiffRequest { from_seq: 0, include_meta: true, ..DiffRequest::default() },
            now,
        )
        .unwrap();
    assert_eq!(d.records.len(), 1);
    let meta: serde_json::Value =
        serde_json::from_str(&d.records[0].meta.as_ref().unwrap().text).unwrap();
    assert_eq!(meta["$dead_letter_from"], serde_json::Value::from("jobs"));
    assert_eq!(meta["$dead_letter_src_seq"], serde_json::Value::from("1"));
}

#[test]
fn non_queue_topic_rejects_claim() {
    let mut engine = new_engine();
    engine.put_box("log", TopicConfig::default(), T0).unwrap();
    let err = engine.claim("log", "w", 1, None, T0).unwrap_err();
    assert_eq!(err.code, ErrorCode::NotAQueue);
    let err2 = engine.claim("nope", "w", 1, None, T0).unwrap_err();
    assert_eq!(err2.code, ErrorCode::TopicNotFound);
}

#[test]
fn type_is_immutable_on_put() {
    let mut engine = new_engine();
    engine.put_box("jobs", queue_cfg(), T0).unwrap();
    let err = engine.put_box("jobs", TopicConfig::default(), T0).unwrap_err();
    assert_eq!(err.code, ErrorCode::TopicExistsIncompatible);
    assert!(engine.put_box("jobs", queue_cfg(), T0).is_ok());
}

#[test]
fn queue_type_survives_restart_and_self_heals_leases() {
    // The log is a list of frames here: what a run appends to it, the next replays.
    let mut log: Vec<WalRecord> = Vec::new();
    {
        let mut engine = new_engine();
        let qcfg = TopicConfig {
            topic_type: TopicType::Queue,
            durable: true,
            lease_ms: 30_000,
            ..TopicConfig::default()
        };
        log.push(engine.put_box_frame("jobs", &qcfg, T0));
        engine.put_box("jobs", qcfg, T0).unwrap();
        match engine.begin_write("jobs", &job_request(3), true, T0).unwrap() {
            StartedWrite::Pending(mut p) => {
                log.append(&mut p.frames);
                engine.finish_write(p, true, true, T0).unwrap();
            }
            other => panic!("expected a pending write, got {other:?}"),
        }
        let r = engine.claim("jobs", "w1", 1, None, T0).unwrap();
        assert_eq!(r.count, 1);
        log.extend(r.frames);
        let st = engine.box_state("jobs", false, T0).unwrap();
        assert_eq!(st.queue.as_ref().unwrap().in_flight, 1);
        assert_eq!(st.queue.as_ref().unwrap().ready, 2);
    }
    {
        let mut engine = new_engine();
        engine.replay_all(log, T0);
        engine.apply_head_watermarks();
        let st = engine.box_state("jobs", false, T0).unwrap();
        assert_eq!(st.topic_type, TopicType::Queue, "queue type survives restart");
        assert!(engine.get_box("jobs").unwrap().is_queue());
        assert_eq!(st.queue.as_ref().unwrap().in_flight, 0);
        assert_eq!(st.queue.as_ref().unwrap().ready, 3, "all jobs claimable");
        assert_eq!(st.count, 3, "durable jobs log preserved all jobs");
        let r = engine.claim("jobs", "w-new", 3, None, T0).unwrap();
        assert_eq!(r.count, 3);
    }
}

#[test]
fn lease_replay_ignores_stale_lease_id() {
    let mut q = QueueProjection::new(1);
    let seq = 5u64;

    q.apply_lease_event(CLAIMED, seq, "w1".into(), 100, 1_000, 1);
    assert!(q.leases.contains_key(seq), "lease 100 active");

    q.apply_lease_event(CLAIMED, seq, "w2".into(), 200, 2_000, 2);
    assert_eq!(q.leases.get(seq).unwrap().lease_id, 200, "newer lease 200 active");

    q.apply_lease_event(RELEASED, seq, "w1".into(), 100, 0, 0);
    assert_eq!(
        q.leases.get(seq).map(|l| l.lease_id),
        Some(200),
        "stale release for lease 100 must not clear the newer lease 200"
    );

    let dl_before = q.leases.get(seq).unwrap().deadline_ms;
    q.apply_lease_event(EXTENDED, seq, "w1".into(), 100, 9_999, 0);
    assert_eq!(q.leases.get(seq).unwrap().deadline_ms, dl_before, "stale extend ignored");

    q.apply_lease_event(RELEASED, seq, "w2".into(), 200, 0, 0);
    assert!(!q.leases.contains_key(seq), "current lease's release clears it");
}
