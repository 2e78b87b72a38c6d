use topics::config::SEQ_BASE;
use topics::engine::{Engine, Limits};
use topics::publish::PublishPermit;
use topics::queue::QueueProjection;
use topics::replay::can_restore;
use topics::router::{default_router_name, RouterGraph};
use topics::segwriter::{
    ResolvedPayload, SealOutcome, SealedResolve, SegmentConfig, SegmentWriter, Tier,
};
use topics::snapshot::{capture_topic, restore_topic};
use topics::topic_index::StoredRecord;
use topics::topic_state::TopicState;
use topics::types::{Durability, Json, Router, RouterGuarantee, TopicConfig};
use topics::write::{RecordIn, WriteRequest};

const T0: i64 = 1_000_000;

fn topic(config: TopicConfig) -> TopicState {
    TopicState::new("t".to_string(), 1, config, SEQ_BASE, 1)
}

fn stored(text: &str, ts: i64) -> StoredRecord {
    StoredRecord {
        ts,
        node: None,
        tag: Some("x".to_string()),
        data: Some(Json::parse(text).unwrap()),
        meta: None,
        bytes: text.len() as u64,
        deleted: false,
        payload_resident: true,
        hops: 0,
    }
}

fn router(name: &str, source: &str, dest: &str) -> Router {
    Router {
        name: name.to_string(),
        source: source.to_string(),
        dest: dest.to_string(),
        preserve_node: true,
        preserve_tag: true,
        create_dest: true,
        filter: None,
        allow_cycle: false,
        guarantee: RouterGuarantee::AtLeastOnce,
    }
}

#[test]
fn staged_records_at_the_end_are_taken_back_whole() {
    let mut t = topic(TopicConfig::default());
    t.append(vec![stored("1", T0)], T0);
    let staged = t.stage_append(vec![stored("2", T0), stored("3", T0)]);
    assert_eq!((staged.start, staged.count, staged.added_bytes), (2, 2, 2));
    assert_eq!(t.index.records.len(), 3);
    t.rollback_staged(staged);
    assert_eq!(t.index.records.len(), 1);
    assert_eq!((t.head_seq(), t.count(), t.bytes()), (1, 1, 1));
}

#[test]
fn a_slot_is_looked_up_with_whether_it_is_live() {
    let mut t = topic(TopicConfig::default());
    t.append(vec![stored("1", T0), stored("2", T0), stored("3", T0)], T0);
    assert_eq!(t.delete_seqs(&[2]), 1);
    assert!(t.forward_lookup(1).unwrap().1);
    assert!(!t.forward_lookup(2).unwrap().1);
    assert!(t.forward_lookup(4).is_none());
}

#[test]
fn a_trimmed_source_leaves_a_gap_in_the_destination() {
    let mut t = topic(TopicConfig::default());
    t.append(vec![stored("1", T0)], T0);
    t.note_source_trim();
    assert_eq!((t.head_seq(), t.count()), (2, 1));
    assert_eq!(t.floors.source_trim_floor, 2);
    assert!(!t.forward_lookup(2).unwrap().1);
}

#[test]
fn a_loss_that_was_not_logged_does_not_happen() {
    let mut t = topic(TopicConfig { ttl_ms: 10, ..TopicConfig::default() });
    t.append(vec![stored("1", T0), stored("2", T0 + 100)], T0);
    assert!(t.enforce_retention_hardened(T0 + 50, false).is_none());
    assert_eq!((t.count(), t.earliest_seq()), (2, 1));
    let r = t.enforce_retention_hardened(T0 + 50, true).unwrap();
    assert!(r.floor_advanced && r.durable_advance);
    assert_eq!((r.expiry_floor, r.bytes_reclaimed), (1, 1));
    assert_eq!((t.count(), t.earliest_seq()), (1, 2));
    // A cap on records is derived again, and needs no log.
    let mut t = topic(TopicConfig { cap_records: 1, ..TopicConfig::default() });
    t.append(vec![stored("1", T0), stored("2", T0)], T0);
    let r = t.enforce_retention_hardened(T0, false).unwrap();
    assert!(r.floor_advanced && !r.durable_advance);
    assert_eq!(t.count(), 1);
}

#[test]
fn a_permit_is_held_to_the_class_of_its_topic() {
    let class = |d: Durability| TopicConfig { durability: Some(d), ..TopicConfig::default() };
    let disk = topic(class(Durability::Disk));
    assert!(!disk.permits(5, PublishPermit::wal_committed(true)));
    assert!(disk.permits(5, PublishPermit::recovery()));
    let fsync = topic(class(Durability::Fsync));
    assert!(fsync.permits(5, PublishPermit::wal_committed(true)));
    assert!(!fsync.permits(5, PublishPermit::wal_committed(false)));
    assert!(topic(class(Durability::Memory)).permits(5, PublishPermit::wal_committed(false)));
}

#[test]
fn routers_keep_their_place_and_their_run() {
    let mut g = RouterGraph::new();
    assert!(g.upsert(router("r", "a", "b")).unwrap());
    g.set_cursor("r", 7);
    assert_eq!(g.cursor("r"), 7);
    g.seed_dest_base("r", 40);
    assert_eq!(g.next_dest_seq("r"), 41);
    g.note_forwarded("r", 9, 2);
    assert_eq!((g.cursor("r"), g.next_dest_seq("r")), (9, 43));
    // Once something was forwarded, the run stays where it is.
    g.seed_dest_base("r", 90);
    assert_eq!(g.next_dest_seq("r"), 43);
}

#[test]
fn a_cycle_is_found_before_it_is_closed() {
    let mut g = RouterGraph::new();
    g.upsert(router("ab", "a", "b")).unwrap();
    g.upsert(router("bc", "b", "c")).unwrap();
    assert_eq!(g.would_create_cycle("c", "a").unwrap(), vec!["c", "a", "b", "c"]);
    assert!(g.would_create_cycle("a", "c").is_none());
    assert_eq!(default_router_name("a", "b"), "a->b");
}

#[test]
fn leases_are_numbered_in_order() {
    let mut q = QueueProjection::new(1);
    let first = q.alloc_lease_id();
    assert_eq!(q.alloc_lease_id(), first + 1);
}

#[test]
fn the_quota_is_counted_again() {
    let mut engine = Engine::new(Limits { max_topics: 0, max_routers: 0, max_total_bytes: 100 });
    let rec = RecordIn { data: Json::parse("12345").unwrap(), tag: None, node: None, meta: None };
    let req = WriteRequest {
        records: vec![rec],
        node: None,
        idempotency_key: None,
        create: None,
        config: None,
    };
    engine.write("t", &req, false, T0).unwrap();
    assert!(engine.try_reserve_total_bytes(50));
    assert_eq!(engine.total_bytes_live, 55);
    engine.reconcile_total_bytes();
    assert_eq!(engine.total_bytes_live, 5);
    assert!(!engine.try_reserve_total_bytes(96));
}

#[test]
fn payloads_from_the_cold_tier_are_kept_within_their_limit() {
    let cfg = SegmentConfig {
        max_events: 10,
        max_bytes: 0,
        max_age_ms: 0,
        hot_retain_segments: 0,
        hot_retain_bytes: 0,
    };
    let mut w = SegmentWriter::new(cfg, true);
    w.set_cache_cap(0);
    for seq in 1..=3 {
        w.append_record(seq, 0, format!("{{\"d\":{seq}}}"), 10);
    }
    let seg = w.take_active().unwrap();
    assert_eq!(w.seal_active(seg, SealOutcome::Found(Tier::Cold)), vec![1, 2, 3]);
    for seq in 1..=3 {
        match w.resolve_sealed_fast(seq) {
            SealedResolve::Read(at) => {
                let data = Json::parse(&seq.to_string());
                w.record_cold_read(&at, &ResolvedPayload { data, meta: None });
            }
            other => panic!("expected a read, got {other:?}"),
        }
    }
    assert_eq!((w.cold_cache_len(), w.cold_reads()), (3, 3));
    w.set_cold_cache_cap(1);
    assert_eq!(w.cold_cache_len(), 1);
    // The oldest went.
    assert!(matches!(w.resolve_sealed_fast(1), SealedResolve::Read(_)));
    match w.resolve_sealed_fast(3) {
        SealedResolve::Hit(p) => assert_eq!(p.data.unwrap().text, "3"),
        other => panic!("expected a hit, got {other:?}"),
    }
}

fn sized(bytes: u64) -> StoredRecord {
    StoredRecord { bytes, ..stored("1", 0) }
}

#[test]
fn the_cap_on_bytes_counts_what_the_cap_on_records_took() {
    let config = TopicConfig { cap_records: 2, cap_bytes: 20, ..TopicConfig::default() };
    let mut t = topic(config);
    t.append(vec![sized(10), sized(10), sized(10)], 0);
    let r = t.enforce_retention_hardened(0, false).unwrap();
    assert!(r.floor_advanced && !r.durable_advance);
    assert_eq!(t.floors.evict_floor, 1);
    assert_eq!((t.count(), t.bytes()), (2, 20));
}

#[test]
fn the_cap_on_bytes_takes_no_more_than_it_needs() {
    let config = TopicConfig { cap_records: 3, cap_bytes: 15, ..TopicConfig::default() };
    let mut t = topic(config);
    t.append(vec![sized(10), sized(10), sized(10), sized(5)], 0);
    let r = t.enforce_retention_hardened(0, true).unwrap();
    assert!(r.durable_advance);
    // The count takes the first record, the size the second.
    assert_eq!(t.floors.evict_floor, 2);
    assert_eq!((t.count(), t.bytes()), (2, 15));
    assert!(!t.enforce_retention(0).floor_advanced);
}

#[test]
fn the_cap_on_bytes_counts_what_age_took() {
    let config = TopicConfig { ttl_ms: 100, cap_bytes: 20, ..TopicConfig::default() };
    let mut t = topic(config);
    let old = StoredRecord { bytes: 10, ..stored("1", T0) };
    let new = |n: &str| StoredRecord { bytes: 10, ..stored(n, T0 + 200) };
    t.append(vec![old, new("2"), new("3")], T0);
    t.enforce_retention(T0 + 200);
    assert_eq!((t.floors.expiry_floor, t.floors.evict_floor), (1, 0));
    assert_eq!((t.count(), t.bytes()), (2, 20));
}

#[test]
fn all_routers_come_back_from_a_snapshot() {
    let mut g = RouterGraph::new();
    g.upsert(router("ab", "a", "b")).unwrap();
    g.upsert(Router { allow_cycle: true, ..router("ba", "b", "a") }).unwrap();
    g.note_forwarded("ab", 7, 3);
    g.set_cursor("ba", 9);
    g.seed_dest_base("ba", 4);
    let mut h = RouterGraph::new();
    for (r, cursor, total, base) in g.snapshot_all() {
        h.restore(r, cursor, total, base);
    }
    assert_eq!(h.len(), g.len());
    for name in ["ab", "ba"] {
        assert_eq!(h.get(name).unwrap().source, g.get(name).unwrap().source);
        assert_eq!(h.cursor(name), g.cursor(name));
        assert_eq!(h.forwarded_total(name), g.forwarded_total(name));
        assert_eq!(h.dest_base(name), g.dest_base(name));
    }
    assert_eq!((h.cursor("ab"), h.forwarded_total("ab"), h.dest_base("ba")), (7, 3, 4));
}

#[test]
fn the_number_of_routers_is_capped() {
    let mut g = RouterGraph::new();
    assert!(g.upsert_capped(router("ab", "a", "b"), 1).unwrap());
    assert!(g.upsert_capped(router("ac", "a", "c"), 1).is_err());
    assert!(!g.upsert_capped(router("ab", "a", "c"), 1).unwrap());
    assert!(g.upsert_capped(router("ac", "a", "c"), 0).unwrap());
    assert!(g.has_other_source("x", "z", "c"));
    assert!(!g.has_other_source("x", "a", "c"));
}

#[test]
fn the_last_sequence_number_can_be_released() {
    let mut q = QueueProjection::new(1);
    q.apply_lease_event(1, u64::MAX, "w".to_string(), 41, 0, 0);
    q.apply_lease_event(9, u64::MAX, "w".to_string(), 7, 0, 0);
    assert_eq!(q.next_lease_id, 42);
    assert_eq!(q.leases.len(), 0);
}

#[test]
fn a_topic_with_nothing_left_beyond_its_head_comes_back() {
    let mut t = topic(TopicConfig::default());
    t.append(vec![stored("1", T0)], T0);
    // A write that the log refused leaves a hole beyond the head.
    let staged = t.stage_append(vec![stored("2", T0)]);
    t.rollback_staged_by_seqs(&staged);
    t.apply_delete(Some(2), None, None, T0);
    assert_eq!((t.index.base_seq, t.head_seq(), t.count()), (3, 1, 0));
    let snap = capture_topic(&t, &Vec::new());
    assert_eq!((snap.base_seq, snap.head_seq), (3, 1));
    assert!(can_restore(&snap));
    let mut back = restore_topic(snap);
    assert_eq!((back.index.base_seq, back.head_seq(), back.count()), (3, 1, 0));
    // Neither gives a number out twice.
    assert_eq!(t.append(vec![stored("3", T0)], T0), vec![3]);
    assert_eq!(back.append(vec![stored("3", T0)], T0), vec![3]);
    assert_eq!((back.head_seq(), back.count()), (3, 1));
}

#[test]
fn a_staged_run_follows_on_the_last_slot() {
    let mut t = topic(TopicConfig::default());
    t.append(vec![stored("1", T0), stored("2", T0)], T0);
    let none = t.stage_append(Vec::new());
    assert!(none.is_empty() && none.seqs().is_empty());
    assert_eq!(none.publish_head(), 0);
    let st = t.stage_append(vec![stored("3", T0), stored("4", T0), stored("5", T0)]);
    assert_eq!(st.seqs(), vec![3, 4, 5]);
    assert_eq!(st.publish_head(), 5);
    t.rollback_staged(st);
    assert_eq!((t.index.records.len(), t.head_seq(), t.count(), t.bytes()), (2, 2, 2, 2));
    assert_eq!(t.stage_append(vec![stored("3", T0)]).seqs(), vec![3]);
}
