use topics::config::MAX_ROUTER_HOPS;
use topics::delete::DeleteRequest;
use topics::engine::{Engine, Limits};
use topics::read::DiffRequest;
use topics::routing::RouterCreateRequest;
use topics::types::{
    BoxConfig, Discard, Durability, ErrorCode, ErrorDetail, Filter, Json, NodeFilter,
    TombstoneReason,
};
use topics::write::{RecordIn, WriteRequest};

const T0: i64 = 1_000_000;

fn new_engine() -> Engine {
    Engine::new(Limits { max_topics: 0, max_routers: 0, max_total_bytes: 0 })
}

fn json(text: &str) -> Json {
    Json::parse(text).unwrap()
}

fn rec(data: &str, tag: Option<&str>, node: Option<&str>) -> RecordIn {
    RecordIn {
        data: json(data),
        tag: tag.map(str::to_string),
        node: node.map(str::to_string),
        meta: None,
    }
}

fn write_req(records: Vec<RecordIn>) -> WriteRequest {
    WriteRequest { records, node: None, idempotency_key: None, create: None, config: None }
}

fn diff_from(from_seq: u64) -> DiffRequest {
    DiffRequest { from_seq, ..DiffRequest::default() }
}

fn delete_req(before_seq: Option<u64>, match_: Option<&str>) -> DeleteRequest {
    DeleteRequest { before_seq, match_: match_.map(Filter::from_shorthand) }
}

fn router_req(source: &str, dest: &str) -> RouterCreateRequest {
    RouterCreateRequest {
        source: source.to_string(),
        dest: dest.to_string(),
        preserve_node: true,
        preserve_tag: true,
        create_dest: true,
        filter: None,
        allow_cycle: false,
    }
}

#[test]
fn diff_byte_budget_bounds_the_batch_and_resumes() {
    let mut engine = new_engine();
    let payload = format!("\"{}\"", "a".repeat(100));
    let records: Vec<RecordIn> = (0..10).map(|_| rec(&payload, None, None)).collect();
    engine.write("logs", &write_req(records), true, T0).unwrap();

    let req = DiffRequest {
        from_seq: 0,
        limit: 1000,
        max_batch_bytes: 250,
        ..DiffRequest::default()
    };
    let d = engine.diff("logs", &req, T0).unwrap();
    assert!(
        d.records.len() < 10 && !d.records.is_empty(),
        "byte budget bounds the batch: got {} records",
        d.records.len()
    );
    assert!(!d.caught_up, "not caught up: more records remain");
    let mut total = d.records.len();
    let mut cursor = d.next_from_seq;
    for _ in 0..20 {
        if total >= 10 {
            break;
        }
        let req = DiffRequest {
            from_seq: cursor,
            limit: 1000,
            max_batch_bytes: 250,
            ..DiffRequest::default()
        };
        let d = engine.diff("logs", &req, T0).unwrap();
        assert!(!d.records.is_empty(), "forward progress every batch");
        total += d.records.len();
        cursor = d.next_from_seq;
    }
    assert_eq!(total, 10, "all records delivered across byte-bounded batches");

    let huge = format!("\"{}\"", "h".repeat(10_000));
    engine.write("big", &write_req(vec![rec(&huge, None, None)]), true, T0).unwrap();
    let req = DiffRequest {
        from_seq: 0,
        limit: 1000,
        max_batch_bytes: 100,
        ..DiffRequest::default()
    };
    let d = engine.diff("big", &req, T0).unwrap();
    assert_eq!(d.records.len(), 1, "oversized record delivered (no wedge)");
}

#[test]
fn append_then_diff_happy_path() {
    let mut engine = new_engine();
    let resp = engine
        .write(
            "jobs",
            &write_req(vec![
                rec("{\"n\":1}", Some("t1"), None),
                rec("{\"n\":2}", Some("t2"), None),
            ]),
            true,
            T0,
        )
        .unwrap();
    assert_eq!(resp.first_seq, 1);
    assert_eq!(resp.last_seq, 2);
    assert_eq!(resp.seqs, Some(vec![1, 2]));
    assert_eq!(resp.head_seq, 2);
    assert!(resp.created);
    assert!(!resp.deduped);

    let d = engine.diff("jobs", &diff_from(0), T0).unwrap();
    assert_eq!(d.records.len(), 2);
    assert_eq!(d.records[0].seq, 1);
    assert_eq!(d.records[1].seq, 2);
    assert_eq!(d.next_from_seq, 2);
    assert_eq!(d.head_seq, 2);
    assert_eq!(d.earliest_seq, 1);
    assert!(d.caught_up);
    assert!(d.tombstone.is_none());
    assert_eq!(d.lag, 0);
    assert!(d.records[0].tag.is_none());

    let d2 = engine.diff("jobs", &diff_from(2), T0).unwrap();
    assert!(d2.records.is_empty());
    assert!(d2.caught_up);
    assert_eq!(d2.next_from_seq, 2);

    let dt = engine
        .diff(
            "jobs",
            &DiffRequest { from_seq: 0, include_tags: true, ..DiffRequest::default() },
            T0,
        )
        .unwrap();
    assert_eq!(dt.records[0].tag.as_deref(), Some("t1"));
}

#[test]
fn diff_on_missing_box_is_404() {
    let mut engine = new_engine();
    let err = engine.diff("nope", &diff_from(0), T0).unwrap_err();
    assert_eq!(err.code, ErrorCode::TopicNotFound);
}

#[test]
fn cap_eviction_emits_cap_tombstone() {
    let mut engine = new_engine();
    let cfg = BoxConfig { cap_records: 3, ..BoxConfig::default() };
    engine.put_box("cap", cfg, T0).unwrap();

    for i in 1..=5 {
        let data = format!("{{\"i\":{i}}}");
        engine.write("cap", &write_req(vec![rec(&data, None, None)]), true, T0).unwrap();
    }
    let st = engine.box_state("cap", false, T0).unwrap();
    assert_eq!(st.head_seq, 5);
    assert_eq!(st.earliest_seq, 3);
    assert_eq!(st.count, 3);

    let d = engine.diff("cap", &diff_from(0), T0).unwrap();
    let tomb = d.tombstone.expect("expected a cap tombstone");
    assert_eq!(tomb.reason, TombstoneReason::Cap);
    assert_eq!(tomb.gap_from, 1);
    assert_eq!(tomb.gap_to, 2);
    assert_eq!(tomb.earliest_seq, 3);
    assert_eq!(tomb.head_seq, 5);
    assert_eq!(d.records.first().map(|r| r.seq), Some(3));
    assert_eq!(d.records.len(), 3);
    assert!(d.caught_up);
}

#[test]
fn ttl_expiry_emits_ttl_tombstone() {
    let mut engine = new_engine();
    let cfg = BoxConfig { ttl_ms: 1000, ..BoxConfig::default() };
    engine.put_box("ttl", cfg, T0).unwrap();

    for i in 1..=3 {
        let data = format!("{{\"i\":{i}}}");
        engine.write("ttl", &write_req(vec![rec(&data, None, None)]), true, T0).unwrap();
    }
    let now = T0 + 2000;
    engine.write("ttl", &write_req(vec![rec("{\"i\":4}", None, None)]), true, now).unwrap();

    let st = engine.box_state("ttl", false, now).unwrap();
    assert_eq!(st.head_seq, 4);
    assert_eq!(st.earliest_seq, 4);
    assert_eq!(st.count, 1);

    let d = engine.diff("ttl", &diff_from(0), now).unwrap();
    let tomb = d.tombstone.expect("expected a ttl tombstone");
    assert_eq!(tomb.reason, TombstoneReason::Ttl);
    assert_eq!(tomb.gap_from, 1);
    assert_eq!(tomb.gap_to, 3);
    assert_eq!(d.records.iter().map(|r| r.seq).collect::<Vec<_>>(), vec![4]);
}

#[test]
fn delete_before_seq_snapshot_is_silent() {
    let mut engine = new_engine();
    for i in 1..=5 {
        let data = format!("{{\"i\":{i}}}");
        engine.write("snap", &write_req(vec![rec(&data, None, None)]), true, T0).unwrap();
    }
    let resp = engine.delete("snap", &delete_req(Some(3), None), T0).unwrap();
    assert_eq!(resp.deleted, 2);
    assert_eq!(resp.earliest_seq, 3);
    assert_eq!(resp.count, 3);

    let d = engine.diff("snap", &diff_from(0), T0).unwrap();
    let seqs: Vec<u64> = d.records.iter().map(|r| r.seq).collect();
    assert_eq!(seqs, vec![3, 4, 5]);
    assert!(d.tombstone.is_none(), "deletion is silent");
    assert_eq!(d.earliest_seq, 3);
    assert!(d.caught_up);
}

#[test]
fn delete_match_exact_and_prefix_is_silent() {
    let mut engine = new_engine();
    engine
        .write(
            "jobs",
            &write_req(vec![
                rec("{\"i\":1}", Some("tenant42:job-1"), None),
                rec("{\"i\":2}", Some("tenant42:job-2"), None),
                rec("{\"i\":3}", Some("other:job-9"), None),
                rec("{\"i\":4}", None, None),
            ]),
            true,
            T0,
        )
        .unwrap();

    let r1 = engine.delete("jobs", &delete_req(None, Some("tenant42:job-1")), T0).unwrap();
    assert_eq!(r1.deleted, 1);
    assert_eq!(r1.count, 3);
    let d = engine.diff("jobs", &diff_from(0), T0).unwrap();
    let seqs: Vec<u64> = d.records.iter().map(|r| r.seq).collect();
    assert_eq!(seqs, vec![2, 3, 4]);
    assert!(d.tombstone.is_none(), "delete is silent");
    assert!(d.caught_up);
    assert_eq!(d.next_from_seq, 4);

    let r2 = engine.delete("jobs", &delete_req(None, Some("tenant42:*")), T0).unwrap();
    assert_eq!(r2.deleted, 1);
    assert_eq!(r2.count, 2);
    let d2 = engine.diff("jobs", &diff_from(0), T0).unwrap();
    let seqs2: Vec<u64> = d2.records.iter().map(|r| r.seq).collect();
    assert_eq!(seqs2, vec![3, 4]);
    assert!(d2.tombstone.is_none());
    assert!(d2.caught_up);
}

#[test]
fn delete_is_point_in_time() {
    let mut engine = new_engine();
    engine.write("jobs", &write_req(vec![rec("{}", Some("a:1"), None)]), true, T0).unwrap();
    let r = engine.delete("jobs", &delete_req(None, Some("a:*")), T0).unwrap();
    assert_eq!(r.deleted, 1);
    engine.write("jobs", &write_req(vec![rec("{}", Some("a:2"), None)]), true, T0).unwrap();
    let d = engine.diff("jobs", &diff_from(0), T0).unwrap();
    let seqs: Vec<u64> = d.records.iter().map(|r| r.seq).collect();
    assert_eq!(seqs, vec![2], "future matching record is not deleted");
    assert!(d.tombstone.is_none());
    assert!(d.caught_up);
    assert_eq!(d.next_from_seq, 2);
}

#[test]
fn delete_match_and_before_seq_keeps_newer() {
    let mut engine = new_engine();
    engine
        .write(
            "msgs",
            &write_req(vec![
                rec("{\"v\":1}", Some("msg-123"), None),
                rec("{\"x\":1}", Some("msg-999"), None),
                rec("{\"v\":2}", Some("msg-123"), None),
            ]),
            true,
            T0,
        )
        .unwrap();
    let r = engine
        .delete(
            "msgs",
            &DeleteRequest {
                before_seq: Some(3),
                match_: Some(Filter::from_shorthand("msg-123")),
            },
            T0,
        )
        .unwrap();
    assert_eq!(r.deleted, 1, "only the prior msg-123 (seq 1) is removed");
    let d = engine
        .diff(
            "msgs",
            &DiffRequest { from_seq: 0, include_tags: true, ..DiffRequest::default() },
            T0,
        )
        .unwrap();
    let seqs: Vec<u64> = d.records.iter().map(|r| r.seq).collect();
    assert_eq!(seqs, vec![2, 3]);
    assert!(d.tombstone.is_none());
}

#[test]
fn delete_silent_but_cap_still_tombstones() {
    let mut engine = new_engine();
    let cfg = BoxConfig { cap_records: 4, ..BoxConfig::default() };
    engine.put_box("dual", cfg, T0).unwrap();
    for i in 1..=4 {
        let data = format!("{{\"i\":{i}}}");
        engine.write("dual", &write_req(vec![rec(&data, None, None)]), true, T0).unwrap();
    }
    engine.delete("dual", &delete_req(Some(3), None), T0).unwrap();
    let d = engine.diff("dual", &diff_from(0), T0).unwrap();
    assert!(d.tombstone.is_none(), "delete gap is silent");
    assert_eq!(d.records.iter().map(|r| r.seq).collect::<Vec<_>>(), vec![3, 4]);

    for i in 5..=10 {
        let data = format!("{{\"i\":{i}}}");
        engine.write("dual", &write_req(vec![rec(&data, None, None)]), true, T0).unwrap();
    }
    let d2 = engine.diff("dual", &diff_from(0), T0).unwrap();
    let tomb = d2.tombstone.expect("cap eviction still tombstones");
    assert_eq!(tomb.reason, TombstoneReason::Cap);
}

#[test]
fn tag_index_exact_and_prefix_paths() {
    let mut engine = new_engine();
    engine
        .write(
            "tix",
            &write_req(vec![
                rec("{}", Some("chat-42:a"), None),
                rec("{}", Some("chat-42:b"), None),
                rec("{}", Some("chat-420:c"), None),
                rec("{}", Some("zzz"), None),
            ]),
            true,
            T0,
        )
        .unwrap();
    let e = engine.delete("tix", &delete_req(None, Some("chat-42:a")), T0).unwrap();
    assert_eq!(e.deleted, 1);
    let p = engine.delete("tix", &delete_req(None, Some("chat-42:*")), T0).unwrap();
    assert_eq!(p.deleted, 1, "prefix range scan must not match chat-420:c");
    let d = engine
        .diff(
            "tix",
            &DiffRequest { from_seq: 0, include_tags: true, ..DiffRequest::default() },
            T0,
        )
        .unwrap();
    let tags: Vec<&str> = d.records.iter().filter_map(|r| r.tag.as_deref()).collect();
    assert_eq!(tags, vec!["chat-420:c", "zzz"]);
}

#[test]
fn delete_requires_a_selector() {
    let mut engine = new_engine();
    engine.write("b", &write_req(vec![rec("{}", None, None)]), true, T0).unwrap();
    let err = engine.delete("b", &DeleteRequest::default(), T0).unwrap_err();
    assert_eq!(err.code, ErrorCode::InvalidRequest);
}

#[test]
fn node_loop_prevention_advances_cursor_to_caught_up() {
    let mut engine = new_engine();
    engine
        .write(
            "box",
            &write_req(vec![
                rec("{\"i\":1}", None, Some("self")),
                rec("{\"i\":2}", None, Some("self")),
                rec("{\"i\":3}", None, Some("other")),
            ]),
            true,
            T0,
        )
        .unwrap();

    let d = engine
        .diff(
            "box",
            &DiffRequest {
                from_seq: 0,
                node: Some(NodeFilter::One("self".to_string())),
                ..DiffRequest::default()
            },
            T0,
        )
        .unwrap();
    let seqs: Vec<u64> = d.records.iter().map(|r| r.seq).collect();
    assert_eq!(seqs, vec![3]);
    assert!(d.caught_up);
    assert_eq!(d.next_from_seq, 3);
    assert!(d.tombstone.is_none());

    engine
        .write(
            "selfbox",
            &write_req(vec![rec("{}", None, Some("me")), rec("{}", None, Some("me"))]),
            true,
            T0,
        )
        .unwrap();
    let d2 = engine
        .diff(
            "selfbox",
            &DiffRequest {
                from_seq: 0,
                node: Some(NodeFilter::One("me".to_string())),
                ..DiffRequest::default()
            },
            T0,
        )
        .unwrap();
    assert!(d2.records.is_empty());
    assert!(d2.caught_up);
    assert_eq!(d2.next_from_seq, 2);
}

#[test]
fn idempotency_dedupe_returns_original_seqs() {
    let mut engine = new_engine();
    let req = || WriteRequest {
        records: vec![rec("{\"job\":1}", None, None)],
        node: None,
        idempotency_key: Some("batch-7".to_string()),
        create: None,
        config: None,
    };

    let first = engine.write("q", &req(), true, T0).unwrap();
    assert_eq!(first.seqs, Some(vec![1]));
    assert!(!first.deduped);

    let second = engine.write("q", &req(), true, T0).unwrap();
    assert!(second.deduped);
    assert_eq!(second.seqs, Some(vec![1]));
    assert_eq!(second.head_seq, 1);

    assert_eq!(engine.box_state("q", false, T0).unwrap().head_seq, 1);

    let now = T0 + BoxConfig::default().idempotency_window_ms as i64 + 1;
    let third = engine.write("q", &req(), true, now).unwrap();
    assert!(!third.deduped);
    assert_eq!(third.seqs, Some(vec![2]));
}

#[test]
fn discard_reject_full_box_is_422() {
    let mut engine = new_engine();
    let cfg = BoxConfig { cap_records: 2, discard: Discard::Reject, ..BoxConfig::default() };
    engine.put_box("q", cfg, T0).unwrap();
    engine.write("q", &write_req(vec![rec("{}", None, None)]), true, T0).unwrap();
    engine.write("q", &write_req(vec![rec("{}", None, None)]), true, T0).unwrap();
    let err =
        engine.write("q", &write_req(vec![rec("{}", None, None)]), true, T0).unwrap_err();
    assert_eq!(err.code, ErrorCode::TopicFull);
    assert_eq!(engine.box_state("q", false, T0).unwrap().head_seq, 2);
}

#[test]
fn create_false_on_missing_box_is_404() {
    let mut engine = new_engine();
    let req = WriteRequest { create: Some(false), ..write_req(vec![rec("{}", None, None)]) };
    let err = engine.write("typo", &req, true, T0).unwrap_err();
    assert_eq!(err.code, ErrorCode::TopicNotFound);
}

#[test]
fn delete_recreate_emits_recreated_tombstone() {
    let mut engine = new_engine();
    for _ in 0..5 {
        engine.write("b", &write_req(vec![rec("{}", None, None)]), true, T0).unwrap();
    }
    engine.delete_box("b", false, T0).unwrap();
    engine.write("b", &write_req(vec![rec("{}", None, None)]), true, T0).unwrap();
    let d = engine.diff("b", &diff_from(5), T0).unwrap();
    let tomb = d.tombstone.expect("expected a recreated tombstone");
    assert_eq!(tomb.reason, TombstoneReason::Recreated);
    assert_eq!(d.records.iter().map(|r| r.seq).collect::<Vec<_>>(), vec![1]);
}

#[test]
fn router_fanout_forwards_and_preserves_node() {
    let mut engine = new_engine();
    let (created, resp) =
        engine.put_router("src->dst", &router_req("src", "dst"), T0).unwrap();
    assert!(created);
    assert_eq!(resp.source, "src");
    assert_eq!(resp.dest, "dst");

    engine
        .write(
            "src",
            &write_req(vec![
                rec("{\"i\":1}", Some("t1"), Some("nodeA")),
                rec("{\"i\":2}", None, Some("nodeB")),
            ]),
            true,
            T0,
        )
        .unwrap();

    let d = engine
        .diff(
            "dst",
            &DiffRequest { from_seq: 0, include_tags: true, ..DiffRequest::default() },
            T0,
        )
        .unwrap();
    assert_eq!(d.records.len(), 2);
    assert_eq!(d.records[0].data.as_ref().unwrap().text, "{\"i\":1}");
    assert_eq!(d.records[0].node.as_deref(), Some("nodeA"));
    assert_eq!(d.records[0].tag.as_deref(), Some("t1"));
    assert_eq!(d.records[1].node.as_deref(), Some("nodeB"));
    assert_eq!(d.records[0].seq, 1);
    assert_eq!(d.records[1].seq, 2);

    let g = engine.get_router("src->dst").unwrap();
    assert_eq!(g.forwarded_total, 2);

    assert!(engine.delete_router("src->dst"));
    engine.write("src", &write_req(vec![rec("{\"i\":3}", None, None)]), true, T0).unwrap();
    let d2 = engine.diff("dst", &diff_from(0), T0).unwrap();
    assert_eq!(d2.records.len(), 2);

    assert!(!engine.delete_router("src->dst"));
}

#[test]
fn router_preserve_node_false_clears_node() {
    let mut engine = new_engine();
    engine
        .put_router(
            "s->d",
            &RouterCreateRequest { preserve_node: false, ..router_req("s", "d") },
            T0,
        )
        .unwrap();
    engine.write("s", &write_req(vec![rec("{}", None, Some("origin"))]), true, T0).unwrap();
    let d = engine.diff("d", &diff_from(0), T0).unwrap();
    assert_eq!(d.records.len(), 1);
    assert!(d.records[0].node.is_none());
}

#[test]
fn router_forward_filter_drops_nonmatching() {
    let mut engine = new_engine();
    engine
        .put_router(
            "s->d",
            &RouterCreateRequest {
                filter: Some(Filter::from_shorthand("public:*")),
                ..router_req("s", "d")
            },
            T0,
        )
        .unwrap();
    engine
        .write(
            "s",
            &write_req(vec![
                rec("{\"a\":1}", Some("public:1"), None),
                rec("{\"a\":2}", Some("private:1"), None),
                rec("{\"a\":3}", None, None),
            ]),
            true,
            T0,
        )
        .unwrap();
    let d = engine.diff("d", &diff_from(0), T0).unwrap();
    let data: Vec<&str> =
        d.records.iter().map(|r| r.data.as_ref().unwrap().text.as_str()).collect();
    assert_eq!(data, vec!["{\"a\":1}"]);
}

#[test]
fn router_cycle_rejected_409() {
    let mut engine = new_engine();
    engine.put_router("a->b", &router_req("a", "b"), T0).unwrap();
    engine.put_router("b->c", &router_req("b", "c"), T0).unwrap();
    let err = engine.put_router("c->a", &router_req("c", "a"), T0).unwrap_err();
    assert_eq!(err.code, ErrorCode::RouterCycle);
    match err.detail {
        ErrorDetail::Cycle(path) => assert_eq!(path, vec!["c", "a", "b", "c"]),
        other => panic!("cycle detail, got {other:?}"),
    }

    let (created, _) = engine.put_router("a->b", &router_req("a", "b"), T0).unwrap();
    assert!(!created);
}

#[test]
fn router_allow_cycle_terminates_via_hop_cap() {
    let mut engine = new_engine();
    let edge = |s, d| RouterCreateRequest { allow_cycle: true, ..router_req(s, d) };
    engine.put_router("a->b", &edge("a", "b"), T0).unwrap();
    engine.put_router("b->a", &edge("b", "a"), T0).unwrap();

    engine.write("a", &write_req(vec![rec("{\"x\":1}", None, Some("A"))]), true, T0).unwrap();

    let a = engine.box_state("a", false, T0).unwrap();
    let b = engine.box_state("b", false, T0).unwrap();
    assert!(a.head_seq >= 1 && a.head_seq <= MAX_ROUTER_HOPS as u64 + 1);
    assert!(b.head_seq >= 1 && b.head_seq <= MAX_ROUTER_HOPS as u64 + 1);
    let d = engine.diff("b", &diff_from(0), T0).unwrap();
    assert_eq!(d.records[0].node.as_deref(), Some("A"));
}

#[test]
fn router_create_dest_false_on_missing_is_404() {
    let mut engine = new_engine();
    let err = engine
        .put_router(
            "s->d",
            &RouterCreateRequest { create_dest: false, ..router_req("s", "d") },
            T0,
        )
        .unwrap_err();
    assert_eq!(err.code, ErrorCode::TopicNotFound);
}

#[test]
fn delete_box_cascades_routers() {
    let mut engine = new_engine();
    engine.put_router("a->b", &router_req("a", "b"), T0).unwrap();
    engine.put_router("b->c", &router_req("b", "c"), T0).unwrap();
    let resp = engine.delete_box("b", false, T0).unwrap();
    assert!(resp.deleted);
    let mut removed = resp.routers_removed.clone();
    removed.sort();
    assert_eq!(removed, vec!["a->b".to_string(), "b->c".to_string()]);
    assert!(engine.get_router("a->b").is_err());
    assert!(engine.list_routers(None, None, None, 100, None, &[]).unwrap().routers.is_empty());
}

#[test]
fn router_get_missing_is_404_and_list_routers() {
    let mut engine = new_engine();
    let err = engine.get_router("nope").unwrap_err();
    assert_eq!(err.code, ErrorCode::RouterNotFound);

    engine.put_router("a->b", &router_req("a", "b"), T0).unwrap();
    engine.put_router("a->c", &router_req("a", "c"), T0).unwrap();
    let listed = engine.list_routers(None, Some("a"), None, 100, None, &[]).unwrap();
    assert_eq!(listed.routers.len(), 2);
    let by_dest = engine.list_routers(None, None, Some("c"), 100, None, &[]).unwrap();
    assert_eq!(by_dest.routers.len(), 1);
    assert_eq!(by_dest.routers[0].router, "a->c");
}

#[test]
fn durability_class_resolves_and_normalizes() {
    let mut engine = new_engine();
    let cfg = BoxConfig {
        durable: true,
        durability: Some(Durability::Disk),
        ..BoxConfig::default()
    };
    engine.put_box("a", cfg, T0).unwrap();
    let st = engine.box_state("a", false, T0).unwrap();
    assert_eq!(st.config.durability, Some(Durability::Disk), "explicit class wins");
    assert!(!st.config.durable, "durable normalized to (class==fsync)");

    engine.put_box("b", BoxConfig { durable: true, ..BoxConfig::default() }, T0).unwrap();
    assert_eq!(
        engine.box_state("b", false, T0).unwrap().config.durability,
        Some(Durability::Fsync)
    );
    engine.put_box("c", BoxConfig::default(), T0).unwrap();
    assert_eq!(
        engine.box_state("c", false, T0).unwrap().config.durability,
        Some(Durability::Disk)
    );
}

#[test]
fn memory_class_write_skips_wal_timings_and_serves_in_ram() {
    let mut engine = new_engine();
    engine
        .put_box(
            "mem",
            BoxConfig { durability: Some(Durability::Memory), ..BoxConfig::default() },
            T0,
        )
        .unwrap();
    let started = engine
        .begin_write("mem", &write_req(vec![rec("{\"x\":1}", None, None)]), true, T0)
        .unwrap();
    match started {
        topics::write::StartedWrite::Pending(p) => {
            // Nothing goes to the log, so there is nothing to append and nothing to
            // flush.
            assert!(p.frames.is_empty());
            assert!(!p.durable);
            engine.finish_write(p, true, true, T0).unwrap();
        }
        other => panic!("expected a pending write, got {other:?}"),
    }
    let d = engine.diff("mem", &diff_from(0), T0).unwrap();
    assert_eq!(d.records.len(), 1);
    assert_eq!(d.records[0].data.as_ref().unwrap().text, "{\"x\":1}");
}

#[test]
fn list_boxes_prefix_and_paging() {
    let mut engine = new_engine();
    for n in ["a1", "a2", "a3", "b1"] {
        engine.write(n, &write_req(vec![rec("{}", None, None)]), true, T0).unwrap();
    }
    let page = engine.list_boxes(Some("a"), 100, None, false, &[], T0).unwrap();
    assert_eq!(page.boxes.len(), 3);
    assert!(page.next_cursor.is_none());

    let p1 = engine.list_boxes(Some("a"), 2, None, false, &[], T0).unwrap();
    assert_eq!(p1.boxes.len(), 2);
    let cursor = p1.next_cursor.expect("more pages");
    let p2 = engine.list_boxes(Some("a"), 2, Some(&cursor), false, &[], T0).unwrap();
    assert_eq!(p2.boxes.len(), 1);
    assert!(p2.next_cursor.is_none());
}

#[test]
fn the_pages_of_a_listing_show_every_topic_once() {
    let mut engine = new_engine();
    for name in ["e", "b", "d", "a", "c", "x"] {
        engine.put_box(name, BoxConfig::default(), T0).unwrap();
    }
    let allow: Vec<String> = "abcde".chars().map(String::from).collect();
    let mut seen: Vec<String> = Vec::new();
    let mut cursor: Option<String> = None;
    loop {
        let page = engine.list_boxes(None, 2, cursor.as_deref(), false, &allow, T0).unwrap();
        assert!(page.boxes.len() <= 2);
        seen.extend(page.boxes.into_iter().map(|b| b.box_name));
        match page.next_cursor {
            Some(c) => cursor = Some(c),
            None => break,
        }
    }
    assert_eq!(seen, vec!["a", "b", "c", "d", "e"]);
}

#[test]
fn topics_are_found_by_name_whatever_was_removed() {
    let mut engine = new_engine();
    for name in ["a", "b", "c", "d"] {
        engine.put_box(name, BoxConfig::default(), T0).unwrap();
    }
    engine.delete_box("a", false, T0).unwrap();
    engine.delete_box("d", false, T0).unwrap();
    assert_eq!(engine.topics.names(), vec!["b", "c"]);
    assert_eq!(engine.box_count(), 2);
    for name in ["b", "c"] {
        assert_eq!(engine.get_box(name).unwrap().name, name);
    }
    assert!(engine.get_box("a").is_none());
    engine.put_box("a", BoxConfig::default(), T0).unwrap();
    assert_eq!(engine.topics.names(), vec!["a", "b", "c"]);
}
