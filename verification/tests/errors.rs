use topics::config::{
    MAX_BATCH_RECORDS, MAX_IDEMPOTENCY_KEY_LEN, MAX_META_BYTES, MAX_META_KEYS, MAX_NODE_BYTES,
    MAX_RECORD_BYTES, MAX_TAG_BYTES,
};
use topics::delete::DeleteRequest;
use topics::engine::{Engine, Limits};
use topics::read::DiffRequest;
use topics::routing::RouterCreateRequest;
use topics::types::{
    Discard, Durability, ErrorCode, ErrorDetail, Filter, Json, TopicConfig, TopicType,
};
use topics::write::{RecordIn, StartedWrite, WriteRequest};

const T0: i64 = 1_000_000;

fn engine_with(max_topics: u64, max_routers: u64, max_total_bytes: u64) -> Engine {
    Engine::new(Limits { max_topics, max_routers, max_total_bytes })
}

fn json(text: &str) -> Json {
    Json::parse(text).unwrap()
}

fn rec(data: &str) -> RecordIn {
    RecordIn { data: json(data), tag: None, node: None, meta: None }
}

fn req(records: Vec<RecordIn>) -> WriteRequest {
    WriteRequest { records, node: None, idempotency_key: None, create: None, config: None }
}

fn router_req(source: &str, dest: &str) -> RouterCreateRequest {
    RouterCreateRequest {
        source: source.to_string(),
        dest: dest.to_string(),
        preserve_node: true,
        preserve_tag: true,
        create_dest: true,
        filter: None,
        allow_cycle: false,
    }
}

fn write_error(engine: &mut Engine, r: WriteRequest) -> ErrorCode {
    engine.write("t", &r, true, T0).unwrap_err().code
}

#[test]
fn a_write_without_records_is_refused() {
    let mut engine = engine_with(0, 0, 0);
    assert_eq!(write_error(&mut engine, req(vec![])), ErrorCode::InvalidRequest);
    assert!(engine.get_box("t").is_none());
}

#[test]
fn a_batch_may_be_as_long_as_the_limit() {
    let mut engine = engine_with(0, 0, 0);
    let many: Vec<RecordIn> = (0..MAX_BATCH_RECORDS).map(|_| rec("1")).collect();
    assert_eq!(engine.write("t", &req(many), false, T0).unwrap().count, MAX_BATCH_RECORDS as u64);
    let over: Vec<RecordIn> = (0..MAX_BATCH_RECORDS + 1).map(|_| rec("1")).collect();
    assert_eq!(write_error(&mut engine, req(over)), ErrorCode::BatchTooLarge);
    assert_eq!(engine.get_box("t").unwrap().head_seq(), MAX_BATCH_RECORDS as u64);
}

#[test]
fn keys_tags_and_nodes_have_a_longest_length() {
    let mut engine = engine_with(0, 0, 0);
    let r = WriteRequest {
        idempotency_key: Some("k".repeat(MAX_IDEMPOTENCY_KEY_LEN + 1)),
        ..req(vec![rec("1")])
    };
    assert_eq!(write_error(&mut engine, r), ErrorCode::InvalidRequest);
    let tag = RecordIn { tag: Some("t".repeat(MAX_TAG_BYTES + 1)), ..rec("1") };
    assert_eq!(write_error(&mut engine, req(vec![tag])), ErrorCode::InvalidRequest);
    let node = RecordIn { node: Some("n".repeat(MAX_NODE_BYTES + 1)), ..rec("1") };
    assert_eq!(write_error(&mut engine, req(vec![node])), ErrorCode::InvalidRequest);
    // Two bytes a character: half as many characters are too many.
    let wide = RecordIn { tag: Some("\u{e9}".repeat(MAX_TAG_BYTES / 2 + 1)), ..rec("1") };
    assert_eq!(write_error(&mut engine, req(vec![wide])), ErrorCode::InvalidRequest);
    let longest = RecordIn {
        tag: Some("t".repeat(MAX_TAG_BYTES)),
        node: Some("n".repeat(MAX_NODE_BYTES)),
        ..rec("1")
    };
    assert!(engine.write("t", &req(vec![longest]), true, T0).is_ok());
}

#[test]
fn meta_has_a_largest_size_and_a_largest_number_of_keys() {
    let mut engine = engine_with(0, 0, 0);
    let big = format!("\"{}\"", "m".repeat(MAX_META_BYTES));
    let large = RecordIn { meta: Some(json(&big)), ..rec("1") };
    assert_eq!(write_error(&mut engine, req(vec![large])), ErrorCode::InvalidRequest);
    let object = |n: usize| {
        let members: Vec<String> = (0..n).map(|i| format!("\"k{i:03}\":1")).collect();
        format!("{{{}}}", members.join(","))
    };
    let many = RecordIn { meta: Some(json(&object(MAX_META_KEYS + 1))), ..rec("1") };
    assert_eq!(write_error(&mut engine, req(vec![many])), ErrorCode::InvalidRequest);
    let enough = RecordIn { meta: Some(json(&object(MAX_META_KEYS))), ..rec("1") };
    assert!(engine.write("t", &req(vec![enough]), true, T0).is_ok());
}

#[test]
fn a_record_has_a_largest_size() {
    let mut engine = engine_with(0, 0, 0);
    let quoted = |n: u64| format!("\"{}\"", "x".repeat(n as usize - 2));
    let over = rec(&quoted(MAX_RECORD_BYTES + 1));
    assert_eq!(write_error(&mut engine, req(vec![over])), ErrorCode::RecordTooLarge);
    let largest = rec(&quoted(MAX_RECORD_BYTES));
    let r = engine.write("t", &req(vec![largest]), true, T0).unwrap();
    assert_eq!(r.count, 1);
    assert_eq!(engine.get_box("t").unwrap().bytes(), MAX_RECORD_BYTES);
}

#[test]
fn names_follow_the_rules() {
    let mut engine = engine_with(0, 0, 0);
    for bad in ["", "a b", "a>b", "\u{e9}"] {
        let e = engine.put_box(bad, TopicConfig::default(), T0).unwrap_err();
        assert_eq!(e.code, ErrorCode::InvalidRequest, "{bad:?}");
    }
    let e = engine.put_router("", &router_req("a", "b"), T0).unwrap_err();
    assert_eq!(e.code, ErrorCode::InvalidRequest);
    assert_eq!(engine.box_count(), 0);
    assert_eq!(engine.router_count(), 0);
}

#[test]
fn a_router_needs_two_ends() {
    let mut engine = engine_with(0, 0, 0);
    let e = engine.put_router("r", &router_req("a", "a"), T0).unwrap_err();
    assert_eq!(e.code, ErrorCode::InvalidRequest);
    assert_eq!(engine.router_count(), 0);
    assert_eq!(engine.box_count(), 0);
}

#[test]
fn a_queue_is_not_its_own_dead_letter_topic() {
    let mut engine = engine_with(0, 0, 0);
    let cfg = TopicConfig {
        topic_type: TopicType::Queue,
        dead_letter: Some("q".to_string()),
        ..TopicConfig::default()
    };
    let e = engine.put_box("q", cfg, T0).unwrap_err();
    assert_eq!(e.code, ErrorCode::InvalidRequest);
}

#[test]
fn the_memory_boundary_is_fixed() {
    let mut engine = engine_with(0, 0, 0);
    let class = |d| TopicConfig { durability: Some(d), ..TopicConfig::default() };
    engine.put_box("t", class(Durability::Disk), T0).unwrap();
    let e = engine.put_box("t", class(Durability::Memory), T0).unwrap_err();
    assert_eq!(e.code, ErrorCode::TopicExistsIncompatible);
    match e.detail {
        ErrorDetail::Class { present, wanted } => {
            assert_eq!(present, Durability::Disk);
            assert_eq!(wanted, Durability::Memory);
        }
        other => panic!("unexpected detail {other:?}"),
    }
    assert!(engine.put_box("t", class(Durability::Fsync), T0).is_ok());
}

#[test]
fn limits_throttle() {
    let mut engine = engine_with(2, 1, 0);
    engine.put_box("a", TopicConfig::default(), T0).unwrap();
    engine.put_box("b", TopicConfig::default(), T0).unwrap();
    let e = engine.put_box("c", TopicConfig::default(), T0).unwrap_err();
    assert_eq!(e.code, ErrorCode::Throttled);
    assert!(matches!(e.detail, ErrorDetail::Limit(2)));
    // A topic that is there can still be changed.
    assert!(engine.put_box("a", TopicConfig::default(), T0).is_ok());

    engine.put_router("r1", &router_req("a", "b"), T0).unwrap();
    let e = engine.put_router("r2", &router_req("b", "a"), T0).unwrap_err();
    assert_eq!(e.code, ErrorCode::Throttled);

}

#[test]
fn a_quota_bounds_the_bytes() {
    let mut engine = engine_with(0, 0, 10);
    engine.write("a", &req(vec![rec("12345")]), true, T0).unwrap();
    assert_eq!(engine.total_bytes(), 5);
    let e = engine.write("a", &req(vec![rec("123456")]), true, T0).unwrap_err();
    assert_eq!(e.code, ErrorCode::Throttled);
    assert_eq!(engine.total_bytes(), 5);
    assert_eq!(engine.get_box("a").unwrap().head_seq(), 1);
    assert!(engine.write("a", &req(vec![rec("67890")]), true, T0).is_ok());
    assert_eq!(engine.total_bytes(), 10);
    assert!(!engine.try_reserve_total_bytes(1));
    engine.delete_box("a", false, T0).unwrap();
    assert!(engine.try_reserve_total_bytes(10));
}

#[test]
fn a_router_that_cannot_create_its_topics_is_taken_back() {
    let mut engine = engine_with(1, 0, 0);
    let e = engine.put_router("r", &router_req("a", "b"), T0).unwrap_err();
    assert_eq!(e.code, ErrorCode::Throttled);
    assert_eq!(engine.router_count(), 0);
}

#[test]
fn only_an_empty_topic_goes_if_asked() {
    let mut engine = engine_with(0, 0, 0);
    engine.write("t", &req(vec![rec("1"), rec("2")]), true, T0).unwrap();
    let e = engine.delete_box("t", true, T0).unwrap_err();
    assert_eq!(e.code, ErrorCode::TopicNotEmpty);
    assert!(matches!(e.detail, ErrorDetail::Count(2)));
    let all = DeleteRequest { before_seq: Some(3), match_: None };
    engine.delete("t", &all, T0).unwrap();
    assert!(engine.delete_box("t", true, T0).unwrap().deleted);
    assert!(!engine.delete_box("t", true, T0).unwrap().deleted);
}

#[test]
fn a_write_larger_than_a_rejecting_topic_is_too_large() {
    let mut engine = engine_with(0, 0, 0);
    let cfg = TopicConfig {
        cap_records: 2,
        cap_bytes: 4,
        discard: Discard::Reject,
        ..TopicConfig::default()
    };
    engine.put_box("t", cfg, T0).unwrap();
    let e = engine.write("t", &req(vec![rec("1"), rec("2"), rec("3")]), true, T0).unwrap_err();
    assert_eq!(e.code, ErrorCode::RecordTooLarge);
    let e = engine.write("t", &req(vec![rec("12345")]), true, T0).unwrap_err();
    assert_eq!(e.code, ErrorCode::RecordTooLarge);
    engine.write("t", &req(vec![rec("1234")]), true, T0).unwrap();
    let e = engine.write("t", &req(vec![rec("1")]), true, T0).unwrap_err();
    assert_eq!(e.code, ErrorCode::TopicFull);
    match e.detail {
        ErrorDetail::Full { cap_records, cap_bytes, head_seq, earliest_seq } => {
            assert_eq!((cap_records, cap_bytes, head_seq, earliest_seq), (2, 4, 1, 1));
        }
        other => panic!("unexpected detail {other:?}"),
    }
}

#[test]
fn a_commit_that_failed_is_an_internal_error() {
    let mut engine = engine_with(0, 0, 100);
    engine.put_box("t", TopicConfig::default(), T0).unwrap();
    let p = match engine.begin_write("t", &req(vec![rec("12345")]), true, T0).unwrap() {
        StartedWrite::Pending(p) => p,
        other => panic!("expected a pending write, got {other:?}"),
    };
    assert_eq!(engine.total_bytes_live, 5);
    assert!(engine.can_finish(&p));
    let e = engine.finish_write(p, false, true, T0).unwrap_err();
    assert_eq!(e.code, ErrorCode::Internal);
    // What was staged can never be read, and its bytes no longer count.
    assert_eq!(engine.total_bytes_live, 0);
    assert_eq!(engine.get_box("t").unwrap().head_seq(), 0);
    engine.write("t", &req(vec![rec("2")]), true, T0).unwrap();
    let d = engine.diff("t", &DiffRequest::default(), T0).unwrap();
    let seen: Vec<(u64, String)> =
        d.records.iter().map(|r| (r.seq, r.data.as_ref().unwrap().text.clone())).collect();
    assert_eq!(seen, vec![(2, "2".to_string())]);
    assert!(d.tombstone.is_none());
}

#[test]
fn a_deletion_that_was_not_logged_deletes_nothing() {
    let mut engine = engine_with(0, 0, 0);
    engine.write("t", &req(vec![rec("1"), rec("2")]), true, T0).unwrap();
    let r = DeleteRequest { before_seq: Some(2), match_: None };
    let p = engine.begin_delete("t", &r, T0).unwrap();
    let e = engine.finish_delete(p, false, T0).unwrap_err();
    assert_eq!(e.code, ErrorCode::Internal);
    assert_eq!(engine.get_box("t").unwrap().count(), 2);
    let p = engine.begin_delete("t", &r, T0).unwrap();
    let (resp, seqs) = engine.finish_delete(p, true, T0).unwrap();
    assert_eq!(resp.deleted, 1);
    assert_eq!(seqs, vec![1]);
}

#[test]
fn requests_on_missing_things_say_so() {
    let mut engine = engine_with(0, 0, 0);
    let filter = Some(Filter::from_shorthand("x"));
    let r = DeleteRequest { before_seq: None, match_: filter };
    assert_eq!(engine.delete("t", &r, T0).unwrap_err().code, ErrorCode::TopicNotFound);
    assert_eq!(engine.box_state("t", true, T0).unwrap_err().code, ErrorCode::TopicNotFound);
    assert_eq!(engine.get_router("r").unwrap_err().code, ErrorCode::RouterNotFound);
    assert_eq!(engine.ack("t", "w", &[1], T0).unwrap_err().code, ErrorCode::TopicNotFound);
    engine.put_box("t", TopicConfig::default(), T0).unwrap();
    assert_eq!(engine.nack("t", "w", &[1], 0, T0).unwrap_err().code, ErrorCode::NotAQueue);
    assert_eq!(
        engine.list_boxes(None, 10, Some("no token"), false, &[], T0).unwrap_err().code,
        ErrorCode::InvalidRequest
    );
}

#[test]
fn a_refused_router_says_why() {
    let mut engine = engine_with(2, 2, 0);
    engine.put_router("ab", &router_req("a", "b"), T0).unwrap();
    let e = engine.put_router("ba", &router_req("b", "a"), T0).unwrap_err();
    assert_eq!(e.code, ErrorCode::RouterCycle);
    match e.detail {
        ErrorDetail::Cycle(path) => assert_eq!(path, vec!["b", "a", "b"]),
        other => panic!("unexpected detail {other:?}"),
    }
    let e = engine.put_router("ac", &router_req("a", "c"), T0).unwrap_err();
    assert_eq!(e.code, ErrorCode::Throttled);
    assert!(matches!(e.detail, ErrorDetail::Limit(2)));
    let same = RouterCreateRequest { allow_cycle: true, ..router_req("b", "a") };
    engine.put_router("ba", &same, T0).unwrap();
    let e = engine.put_router("third", &router_req("a", "b"), T0).unwrap_err();
    assert_eq!(e.code, ErrorCode::Throttled);
    assert!(matches!(e.detail, ErrorDetail::Limit(2)));
}

#[test]
fn refusals_on_leases_say_how_many_were_named() {
    let mut engine = engine_with(0, 0, 0);
    let seqs: Vec<u64> = (1..=1001).collect();
    let e = engine.ack("q", "w", &seqs, T0).unwrap_err();
    assert_eq!(e.code, ErrorCode::BatchTooLarge);
    assert!(matches!(e.detail, ErrorDetail::Batch { given: 1001, max: 1000 }));
    let e = engine.nack_fenced("q", "w", &[1], 0, &[None, None], T0).unwrap_err();
    assert_eq!(e.code, ErrorCode::InvalidRequest);
    assert_eq!(engine.extend("q", "", &[1], 0, T0).unwrap_err().code, ErrorCode::InvalidRequest);
}

#[test]
fn a_destination_has_one_source() {
    let mut engine = engine_with(0, 0, 0);
    engine.put_router("a->d", &router_req("a", "d"), T0).unwrap();
    let e = engine.put_router("b->d", &router_req("b", "d"), T0).unwrap_err();
    assert_eq!(e.code, ErrorCode::TopicExistsIncompatible);
    assert!(matches!(e.detail, ErrorDetail::FanIn));
    assert_eq!(engine.get_router("b->d").unwrap_err().code, ErrorCode::RouterNotFound);
    assert!(engine.get_box("b").is_none());
    // The same source may feed it twice, and a router may change its own source.
    engine.put_router("again", &router_req("a", "d"), T0).unwrap();
    assert!(engine.delete_router("again"));
    assert!(!engine.put_router("a->d", &router_req("b", "d"), T0).unwrap().0);
}

#[test]
fn a_destination_has_several_sources_where_that_is_permitted() {
    let mut engine = engine_with(0, 0, 0);
    engine.permit_fan_in(true);
    engine.put_router("a->d", &router_req("a", "d"), T0).unwrap();
    engine.put_router("b->d", &router_req("b", "d"), T0).unwrap();
    assert_eq!(engine.router_count(), 2);
    engine.permit_fan_in(false);
    let e = engine.put_router("c->d", &router_req("c", "d"), T0).unwrap_err();
    assert!(matches!(e.detail, ErrorDetail::FanIn));
}
