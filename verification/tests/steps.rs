use topics::append::PendingAppend;
use topics::deal::Claimer;
use topics::delete::DeleteRequest;
use topics::engine::{Engine, Limits};
use topics::jobs::fill_jobs;
use topics::read::DiffRequest;
use topics::routing::RouterCreateRequest;
use topics::types::{Durability, ErrorCode, Json, TopicConfig, TopicType};
use topics::wal::WalRecord;
use topics::write::{PendingWrite, RecordIn, StartedWrite, WriteRequest};

const T0: i64 = 1_000_000;

fn new_engine() -> Engine {
    Engine::new(Limits { max_topics: 0, max_routers: 0, max_total_bytes: 0 })
}

fn req(data: &[&str]) -> WriteRequest {
    let records: Vec<RecordIn> = data
        .iter()
        .map(|d| RecordIn { data: Json::parse(d).unwrap(), tag: None, node: None, meta: None })
        .collect();
    WriteRequest { records, node: None, idempotency_key: None, create: None, config: None }
}

fn begin(engine: &mut Engine, name: &str, data: &[&str]) -> PendingWrite {
    match engine.begin_write(name, &req(data), true, T0).unwrap() {
        StartedWrite::Pending(p) => p,
        other => panic!("expected a pending write, got {other:?}"),
    }
}

fn route(engine: &mut Engine, name: &str, source: &str, dest: &str) {
    let r = RouterCreateRequest {
        source: source.to_string(),
        dest: dest.to_string(),
        preserve_node: true,
        preserve_tag: true,
        create_dest: true,
        filter: None,
        allow_cycle: false,
    };
    engine.put_router(name, &r, T0).unwrap();
}

fn fsync_config() -> TopicConfig {
    TopicConfig { durability: Some(Durability::Fsync), ..TopicConfig::default() }
}

fn seen(engine: &mut Engine, name: &str) -> Vec<(u64, String)> {
    let d = engine.diff(name, &DiffRequest::default(), T0).unwrap();
    d.records.iter().map(|r| (r.seq, r.data.as_ref().unwrap().text.clone())).collect()
}

fn append_seqs(a: &PendingAppend) -> Vec<u64> {
    a.frames
        .iter()
        .map(|f| match f {
            WalRecord::Append { seq, .. } => *seq,
            other => panic!("expected an append, got {other:?}"),
        })
        .collect()
}

#[test]
fn copies_are_read_once_they_are_logged() {
    let mut engine = new_engine();
    engine.put_box("a", TopicConfig::default(), T0).unwrap();
    engine.put_box("b", fsync_config(), T0).unwrap();
    route(&mut engine, "r", "a", "b");
    let p = begin(&mut engine, "a", &["1", "2"]);
    let done = engine.finish_write(p, true, true, T0).unwrap();
    assert_eq!(done.forward.len(), 2);

    let routers = engine.forward_routes("a", 0);
    assert_eq!(routers.len(), 1);
    let f = engine.begin_forward("a", &routers[0], &done.forward, T0, 0).unwrap();
    assert!(f.append.durable);
    assert_eq!(append_seqs(&f.append), vec![1, 2]);
    // Nothing can be read before the log has answered, and the router has not moved.
    assert_eq!(engine.get_box("b").unwrap().head_seq(), 0);
    assert_eq!(engine.routers.forwarded_total("r"), 0);

    assert!(engine.can_finish_forward(&f));
    let next = engine.finish_forward(f, true, T0);
    assert_eq!(next.len(), 2);
    assert_eq!(engine.routers.forwarded_total("r"), 2);
    assert_eq!(seen(&mut engine, "b"), vec![(1, "1".to_string()), (2, "2".to_string())]);
}

#[test]
fn copies_that_were_not_logged_are_taken_back() {
    let mut engine = new_engine();
    engine.put_box("a", TopicConfig::default(), T0).unwrap();
    route(&mut engine, "r", "a", "b");
    let p = begin(&mut engine, "a", &["1"]);
    let done = engine.finish_write(p, true, true, T0).unwrap();
    let routers = engine.forward_routes("a", 0);
    let f = engine.begin_forward("a", &routers[0], &done.forward, T0, 0).unwrap();
    assert!(engine.finish_forward(f, false, T0).is_empty());
    assert_eq!(engine.routers.forwarded_total("r"), 0);
    assert_eq!(engine.get_box("b").unwrap().head_seq(), 0);
    // The sequence number of the copy is not used again.
    engine.write("b", &req(&["9"]), true, T0).unwrap();
    assert_eq!(seen(&mut engine, "b"), vec![(2, "9".to_string())]);
}

#[test]
fn copies_wait_for_their_turn_behind_a_write() {
    let mut engine = new_engine();
    engine.put_box("a", TopicConfig::default(), T0).unwrap();
    route(&mut engine, "r", "a", "b");
    let first = begin(&mut engine, "b", &["\"own\""]);
    let p = begin(&mut engine, "a", &["\"copied\""]);
    let done = engine.finish_write(p, true, true, T0).unwrap();
    let routers = engine.forward_routes("a", 0);
    let f = engine.begin_forward("a", &routers[0], &done.forward, T0, 0).unwrap();
    assert!(!engine.can_finish_forward(&f));
    assert!(engine.can_finish(&first));
    engine.finish_write(first, true, true, T0).unwrap();
    assert!(engine.can_finish_forward(&f));
    engine.finish_forward(f, true, T0);
    let got = seen(&mut engine, "b");
    assert_eq!(got, vec![(1, "\"own\"".to_string()), (2, "\"copied\"".to_string())]);
}

#[test]
fn copies_for_a_topic_that_is_gone_are_dropped() {
    let mut engine = new_engine();
    engine.put_box("a", TopicConfig::default(), T0).unwrap();
    route(&mut engine, "r", "a", "b");
    let p = begin(&mut engine, "a", &["1"]);
    let done = engine.finish_write(p, true, true, T0).unwrap();
    let routers = engine.forward_routes("a", 0);
    let f = engine.begin_forward("a", &routers[0], &done.forward, T0, 0).unwrap();
    engine.delete_box("b", false, T0).unwrap();
    assert!(engine.can_finish_forward(&f));
    assert!(engine.finish_forward(f, true, T0).is_empty());
    assert!(engine.get_box("b").is_none());
}

#[test]
fn a_record_that_came_a_long_way_stops() {
    let mut engine = new_engine();
    engine.put_box("a", TopicConfig::default(), T0).unwrap();
    route(&mut engine, "r", "a", "b");
    assert_eq!(engine.forward_routes("a", 0).len(), 1);
    assert!(engine.forward_routes("a", topics::config::MAX_ROUTER_HOPS).is_empty());
}

fn worn_queue() -> (Engine, Vec<u64>) {
    let mut engine = new_engine();
    let cfg = TopicConfig {
        topic_type: TopicType::Queue,
        lease_ms: 1_000,
        max_deliveries: 1,
        dead_letter: Some("dead".to_string()),
        ..TopicConfig::default()
    };
    engine.put_box("jobs", cfg, T0).unwrap();
    engine.write("jobs", &req(&["1", "2"]), true, T0).unwrap();
    assert_eq!(engine.claim("jobs", "w", 10, None, T0).unwrap().count, 2);
    // The leases are over; the next claim finds the jobs worn out.
    let claimers = vec![Claimer { node: "w".to_string(), max: 10, work_conn: None }];
    let out = engine.begin_claim("jobs", &claimers, None, T0 + 5_000).unwrap();
    assert!(out.jobs[0].is_empty());
    let mut dead = out.dead;
    dead.sort();
    assert_eq!(dead, vec![1, 2]);
    (engine, dead)
}

#[test]
fn dead_letters_are_moved_once_they_are_logged() {
    let (mut engine, dead) = worn_queue();
    let now = T0 + 5_000;
    let p = engine.begin_dead_letter("jobs", "dead", &dead, &Vec::new(), 1, now).unwrap();
    assert_eq!(append_seqs(p.append.as_ref().unwrap()), vec![1, 2]);
    assert_eq!(engine.get_box("jobs").unwrap().count(), 2);
    assert_eq!(engine.get_box("dead").unwrap().count(), 0);
    engine.finish_dead_letter(p, true, &Vec::new(), now);
    assert_eq!(engine.get_box("jobs").unwrap().count(), 0);
    assert_eq!(seen(&mut engine, "dead"), vec![(1, "1".to_string()), (2, "2".to_string())]);
    let q = engine.box_state("jobs", false, now).unwrap().queue.unwrap();
    assert_eq!((q.ready, q.in_flight, q.dead_lettered), (0, 0, 2));
}

#[test]
fn dead_letters_that_were_not_logged_go_back_to_the_queue() {
    let (mut engine, dead) = worn_queue();
    let now = T0 + 5_000;
    let p = engine.begin_dead_letter("jobs", "dead", &dead, &Vec::new(), 1, now).unwrap();
    engine.finish_dead_letter(p, false, &Vec::new(), now);
    assert_eq!(engine.get_box("jobs").unwrap().count(), 2);
    assert!(seen(&mut engine, "dead").is_empty());
    let q = engine.box_state("jobs", false, now).unwrap().queue.unwrap();
    assert_eq!((q.ready, q.in_flight, q.dead_lettered), (2, 0, 0));
}

#[test]
fn a_dead_letter_whose_deletion_was_refused_stays_a_job() {
    let (mut engine, dead) = worn_queue();
    let now = T0 + 5_000;
    let p = engine.begin_dead_letter("jobs", "dead", &dead, &Vec::new(), 1, now).unwrap();
    engine.finish_dead_letter(p, true, &vec![2], now);
    assert_eq!(seen(&mut engine, "dead").len(), 2);
    assert_eq!(seen(&mut engine, "jobs"), vec![(2, "2".to_string())]);
    assert_eq!(engine.box_state("jobs", false, now).unwrap().queue.unwrap().ready, 1);
}

#[test]
fn a_loss_that_cannot_be_derived_again_is_logged_first() {
    let mut engine = new_engine();
    let cfg = TopicConfig { ttl_ms: 1_000, ..fsync_config() };
    engine.put_box("t", cfg, T0).unwrap();
    engine.write("t", &req(&["1", "2"]), true, T0).unwrap();
    assert!(engine.watermark_due("t", T0 + 500).is_none());
    assert!(engine.watermark_due("missing", T0).is_none());
    match engine.watermark_due("t", T0 + 5_000).unwrap() {
        WalRecord::EvictWatermark { topic_id, evict_floor, expiry_floor, ts } => {
            assert_eq!(topic_id, engine.get_box("t").unwrap().topic_id);
            assert_eq!((evict_floor, expiry_floor, ts), (0, 2, (T0 + 5_000) as u64));
        }
        other => panic!("expected a watermark, got {other:?}"),
    }
    engine.diff("t", &DiffRequest::default(), T0 + 5_000).unwrap();
    assert!(engine.watermark_due("t", T0 + 5_000).is_none());
}

#[test]
fn a_cap_on_records_needs_no_watermark() {
    let mut engine = new_engine();
    let cfg = TopicConfig { cap_records: 1, ..fsync_config() };
    engine.put_box("t", cfg, T0).unwrap();
    engine.write("t", &req(&["1"]), true, T0).unwrap();
    let p = begin(&mut engine, "t", &["2", "3"]);
    assert!(engine.can_finish(&p));
    engine.finish_write(p, true, true, T0).unwrap();
    assert!(engine.watermark_due("t", T0).is_none());
    assert_eq!(seen(&mut engine, "t"), vec![(3, "3".to_string())]);
}

/// A topic whose first two payloads live in a segment.
fn sealed_topic(engine: &mut Engine, name: &str, cfg: TopicConfig) {
    engine.put_box(name, cfg, T0).unwrap();
    engine.write(name, &req(&["\"a\"", "\"b\"", "\"c\""]), true, T0).unwrap();
    let mut t = engine.take_topic(name).unwrap();
    t.free_sealed(&vec![1, 2]);
    engine.put_topic(t);
}

#[test]
fn payloads_of_segments_are_put_in() {
    let mut engine = new_engine();
    sealed_topic(&mut engine, "t", TopicConfig::default());
    let mut d = engine.diff("t", &DiffRequest::default(), T0).unwrap();
    assert_eq!(d.sealed, vec![0, 1]);
    assert!(d.records[0].data.is_none());
    let meta = Some(Json::parse("{\"k\":1}").unwrap());
    let fetched = vec![(1, Json::parse("\"from a segment\"").unwrap(), meta)];
    d.fill_sealed(&fetched, true);
    let texts: Vec<&str> = d.records.iter().map(|r| r.data.as_ref().unwrap().text.as_str()).collect();
    assert_eq!(texts, vec!["\"from a segment\"", "null", "\"c\""]);
    assert_eq!(d.records[0].meta.as_ref().unwrap().text, "{\"k\":1}");
    assert!(d.records[1].meta.is_none());
    assert!(d.sealed.is_empty());
    assert_eq!(d.next_from_seq, 3);
}

#[test]
fn payloads_without_meta_where_none_is_asked_for() {
    let mut engine = new_engine();
    sealed_topic(&mut engine, "t", TopicConfig::default());
    let mut d = engine.diff("t", &DiffRequest::default(), T0).unwrap();
    let meta = Some(Json::parse("{\"k\":1}").unwrap());
    d.fill_sealed(&vec![(2, Json::parse("7").unwrap(), meta)], false);
    assert_eq!(d.records[1].data.as_ref().unwrap().text, "7");
    assert!(d.records[1].meta.is_none());
}

#[test]
fn payloads_of_jobs_are_put_in() {
    let mut engine = new_engine();
    let cfg = TopicConfig { topic_type: TopicType::Queue, ..TopicConfig::default() };
    sealed_topic(&mut engine, "jobs", cfg);
    let claimers = vec![Claimer { node: "w".to_string(), max: 10, work_conn: None }];
    let mut out = engine.begin_claim("jobs", &claimers, None, T0).unwrap();
    let list = out.jobs.pop().unwrap();
    assert!(list[0].data.is_none() && list[2].data.is_some());
    let fetched = vec![(2, Json::parse("\"second\"").unwrap(), None)];
    let jobs = fill_jobs(list, &fetched);
    let texts: Vec<&str> = jobs.iter().map(|j| j.data.as_ref().unwrap().text.as_str()).collect();
    assert_eq!(texts, vec!["null", "\"second\"", "\"c\""]);
    assert_eq!(jobs.iter().map(|j| j.seq).collect::<Vec<_>>(), vec![1, 2, 3]);
}

#[test]
fn a_deletion_waits_for_its_turn() {
    let mut engine = new_engine();
    engine.put_box("t", TopicConfig::default(), T0).unwrap();
    let p = begin(&mut engine, "t", &["1"]);
    let d = DeleteRequest { before_seq: Some(5), match_: None };
    let q = engine.begin_delete("t", &d, T0).unwrap();
    assert!(!engine.can_finish_delete(&q));
    engine.finish_write(p, true, true, T0).unwrap();
    assert!(engine.can_finish_delete(&q));
    // The record came after the request, so it stays.
    let (resp, gone) = engine.finish_delete(q, true, T0).unwrap();
    assert_eq!((resp.deleted, resp.count), (0, 1));
    assert!(gone.is_empty());
    let q = engine.begin_delete("t", &d, T0).unwrap();
    engine.delete_box("t", false, T0).unwrap();
    assert!(!engine.can_finish_delete(&q));
}

#[test]
fn a_later_write_waits_for_the_earlier_one() {
    for committed in [true, false] {
        let mut engine = new_engine();
        engine.put_box("t", TopicConfig::default(), T0).unwrap();
        let first = begin(&mut engine, "t", &["1", "2"]);
        let second = begin(&mut engine, "t", &["3"]);
        assert_eq!((first.staged.start, second.staged.start), (1, 3));
        assert!(engine.can_finish(&first));
        assert!(!engine.can_finish(&second));
        assert_eq!(engine.finish_write(first, committed, true, T0).is_ok(), committed);
        assert!(engine.can_finish(&second));
        engine.finish_write(second, true, true, T0).unwrap();
        let got: Vec<u64> = seen(&mut engine, "t").iter().map(|r| r.0).collect();
        assert_eq!(got, if committed { vec![1, 2, 3] } else { vec![3] });
    }
}

#[test]
fn jobs_whose_deletion_was_not_logged_come_back() {
    let mut engine = new_engine();
    let cfg = TopicConfig { topic_type: TopicType::Queue, ..TopicConfig::default() };
    engine.put_box("jobs", cfg, T0).unwrap();
    engine.write("jobs", &req(&["1", "2", "3"]), true, T0).unwrap();
    assert_eq!(engine.claim("jobs", "w", 3, None, T0).unwrap().count, 3);
    let p = engine.begin_ack("jobs", "w", &[1, 2, 3], &[], T0).unwrap();
    assert_eq!(p.done.len(), 3);
    assert_eq!(engine.finish_ack(p, 1, T0).unwrap_err().code, ErrorCode::Internal);
    // The first is done; the others can be claimed again.
    let again = engine.claim("jobs", "w", 5, None, T0).unwrap();
    assert_eq!(again.claimed.iter().map(|c| c.seq).collect::<Vec<_>>(), vec![2, 3]);
    assert_eq!(engine.ack("jobs", "w", &[2, 3], T0).unwrap().acked, 2);
    assert_eq!(engine.get_box("jobs").unwrap().count(), 0);
}
