use topics::checkpoint::{SnapshotMark, SnapshotPolicy};
use topics::control::{delete_router_frame, delete_seqs_frame, put_router_frame};
use topics::delete::DeleteRequest;
use topics::engine::{Engine, Limits};
use topics::read::DiffRequest;
use topics::replay::{
    can_read, can_replay, can_restore, plan_replay, LogFile, LogFrame, LogGroup,
};
use topics::routing::RouterCreateRequest;
use topics::types::{Durability, Filter, Json, TombstoneReason, TopicConfig, TopicType};
use topics::wal::WalRecord;
use topics::walfiles::{
    count_replay_frames, drop_absorbed_wal_files, find_split_topics, is_shard_in_use,
    list_shard_dirs, list_wal_files, orphan_wal_files, parse_number, parse_shard_dir,
    parse_wal_file, position_for_key, start_offset,
};
use topics::write::{RecordIn, StartedWrite, WriteRequest};

const T0: i64 = 1_000_000;

fn new_engine() -> Engine {
    Engine::new(Limits { max_topics: 0, max_routers: 0, max_total_bytes: 0 })
}

fn rec(data: &str, tag: Option<&str>) -> RecordIn {
    RecordIn {
        data: Json::parse(data).unwrap(),
        tag: tag.map(str::to_string),
        node: Some("n1".to_string()),
        meta: Some(Json::parse("{\"k\":1}").unwrap()),
    }
}

fn fsync_config() -> TopicConfig {
    TopicConfig { durability: Some(Durability::Fsync), ..TopicConfig::default() }
}

/// Writes, and appends the frames to a log.
fn write(engine: &mut Engine, log: &mut Vec<WalRecord>, name: &str, records: Vec<RecordIn>) {
    let req =
        WriteRequest { records, node: None, idempotency_key: None, create: None, config: None };
    match engine.begin_write(name, &req, true, T0).unwrap() {
        StartedWrite::Pending(mut p) => {
            assert!(p.durable);
            log.append(&mut p.frames);
            let done = engine.finish_write(p, true, true, T0).unwrap();
            log.extend(done.watermark);
        }
        other => panic!("expected a pending write, got {other:?}"),
    }
}

fn put(engine: &mut Engine, log: &mut Vec<WalRecord>, name: &str, config: TopicConfig) {
    log.push(engine.put_box_frame(name, &config, T0));
    engine.put_box(name, config, T0).unwrap();
}

fn delete(engine: &mut Engine, log: &mut Vec<WalRecord>, name: &str, req: &DeleteRequest) {
    let p = engine.begin_delete(name, req, T0).unwrap();
    log.push(copy_delete(&p.frame));
    engine.finish_delete(p, true, T0).unwrap();
}

fn copy_delete(f: &WalRecord) -> WalRecord {
    match f {
        WalRecord::Delete { topic_id, before_seq, seqs, bound_head, ts, match_ } => {
            WalRecord::Delete {
                topic_id: *topic_id,
                before_seq: *before_seq,
                match_: match_.as_ref().map(|m| {
                    topics::wal::filter_to_matchsel(&topics::wal::matchsel_to_filter(m))
                }),
                seqs: seqs.clone(),
                bound_head: *bound_head,
                ts: *ts,
            }
        }
        other => panic!("expected a deletion, got {other:?}"),
    }
}

fn all(engine: &mut Engine, name: &str) -> Vec<(u64, String, Option<String>)> {
    let req = DiffRequest { include_tags: true, include_meta: true, ..DiffRequest::default() };
    let d = engine.diff(name, &req, T0).unwrap();
    d.records
        .iter()
        .map(|r| {
            assert_eq!(r.node.as_deref(), Some("n1"));
            assert_eq!(r.meta.as_ref().unwrap().text, "{\"k\":1}");
            (r.seq, r.data.as_ref().unwrap().text.clone(), r.tag.clone())
        })
        .collect()
}

fn names(list: &[&str]) -> Vec<String> {
    list.iter().map(|s| s.to_string()).collect()
}

#[test]
fn acknowledged_writes_and_deletions_survive_a_restart() {
    let mut log = Vec::new();
    let mut first = new_engine();
    put(&mut first, &mut log, "t", fsync_config());
    write(&mut first, &mut log, "t", vec![rec("1", Some("a")), rec("2", Some("b"))]);
    write(&mut first, &mut log, "t", vec![rec("3", Some("a")), rec("4", None)]);
    let by_tag = DeleteRequest { before_seq: Some(3), match_: Some(Filter::from_shorthand("a")) };
    delete(&mut first, &mut log, "t", &by_tag);
    let id = first.get_box("t").unwrap().topic_id;

    let mut second = new_engine();
    second.replay_all(log, T0);
    second.apply_head_watermarks();
    assert_eq!(all(&mut first, "t"), all(&mut second, "t"));
    assert_eq!(
        all(&mut second, "t"),
        vec![
            (2, "2".to_string(), Some("b".to_string())),
            (3, "3".to_string(), Some("a".to_string())),
            (4, "4".to_string(), None),
        ]
    );
    let t = second.get_box("t").unwrap();
    assert_eq!(t.topic_id, id);
    assert_eq!(t.count(), 3);
    assert_eq!(t.head_seq(), 4);
    assert_eq!(second.get_box_by_id(id).unwrap(), "t");
}

#[test]
fn replaying_the_log_again_changes_nothing() {
    let build = || {
        let mut log = Vec::new();
        let mut engine = new_engine();
        put(&mut engine, &mut log, "t", fsync_config());
        write(&mut engine, &mut log, "t", vec![rec("1", None), rec("2", None)]);
        log
    };
    let mut engine = new_engine();
    engine.replay_all(build(), T0);
    let once = all(&mut engine, "t");
    engine.replay_all(build(), T0);
    assert_eq!(all(&mut engine, "t"), once);
    assert_eq!(engine.get_box("t").unwrap().head_seq(), 2);
}

#[test]
fn loss_is_still_reported_after_a_restart() {
    let mut log = Vec::new();
    let mut first = new_engine();
    put(&mut first, &mut log, "t", TopicConfig { ttl_ms: 1000, ..fsync_config() });
    write(&mut first, &mut log, "t", vec![rec("1", None), rec("2", None)]);
    let late = T0 + 2000;
    let req = WriteRequest {
        records: vec![rec("3", None)],
        node: None,
        idempotency_key: None,
        create: None,
        config: None,
    };
    match first.begin_write("t", &req, true, late).unwrap() {
        StartedWrite::Pending(mut p) => {
            log.append(&mut p.frames);
            first.finish_write(p, true, true, late).unwrap();
        }
        other => panic!("expected a pending write, got {other:?}"),
    }
    let t = first.get_box("t").unwrap();
    log.push(WalRecord::EvictWatermark {
        topic_id: t.topic_id,
        evict_floor: t.floors.evict_floor,
        expiry_floor: t.floors.expiry_floor,
        ts: late as u64,
    });

    // The clock has gone back, and still the two records do not come back.
    let mut second = new_engine();
    second.replay_all(log, T0);
    let d = second.diff("t", &DiffRequest::default(), T0).unwrap();
    let gap = d.tombstone.unwrap();
    assert_eq!((gap.gap_from, gap.gap_to, gap.reason), (1, 2, TombstoneReason::Ttl));
    assert_eq!(d.records.iter().map(|r| r.seq).collect::<Vec<_>>(), vec![3]);
}

#[test]
fn a_write_that_makes_a_topic_lose_records_asks_for_a_watermark() {
    let mut engine = new_engine();
    engine.put_box("t", TopicConfig { cap_bytes: 2, ..fsync_config() }, T0).unwrap();
    let mut floors = Vec::new();
    for i in 0..4 {
        let r = RecordIn { meta: None, ..rec(&i.to_string(), None) };
        let req = WriteRequest {
            records: vec![r],
            node: None,
            idempotency_key: None,
            create: None,
            config: None,
        };
        match engine.begin_write("t", &req, true, T0).unwrap() {
            StartedWrite::Pending(p) => {
                match engine.finish_write(p, true, true, T0).unwrap().watermark {
                    Some(WalRecord::EvictWatermark { evict_floor, .. }) => {
                        floors.push(Some(evict_floor))
                    }
                    Some(other) => panic!("unexpected frame {other:?}"),
                    None => floors.push(None),
                }
            }
            other => panic!("expected a pending write, got {other:?}"),
        }
    }
    assert_eq!(floors, vec![None, None, Some(1), Some(2)]);
}

#[test]
fn a_deleted_topic_stays_deleted_with_its_routers() {
    let mut log = Vec::new();
    let mut first = new_engine();
    put(&mut first, &mut log, "a", fsync_config());
    put(&mut first, &mut log, "b", fsync_config());
    let req = RouterCreateRequest {
        source: "a".to_string(),
        dest: "b".to_string(),
        preserve_node: false,
        preserve_tag: true,
        create_dest: true,
        filter: Some(Filter::from_shorthand("x:*")),
        allow_cycle: false,
    };
    let (_, router) = first.put_router("r", &req, T0).unwrap();
    log.push(put_router_frame(&router, T0));
    let back = {
        let mut e = new_engine();
        let mut copy = Vec::new();
        put(&mut new_engine(), &mut copy, "a", fsync_config());
        copy.push(put_router_frame(&router, T0));
        e.replay_all(copy, T0);
        e.get_router("r").unwrap().router
    };
    assert_eq!((back.source.as_str(), back.dest.as_str()), ("a", "b"));
    assert!(!back.preserve_node && back.preserve_tag);
    let filter = back.filter.unwrap();
    assert!(filter.matches("x:1") && !filter.matches("y:1"));

    let frames = first.delete_box_frames("b", T0);
    assert_eq!(frames.len(), 2);
    assert!(first.delete_box_frames("none", T0).is_empty());
    log.extend(frames);
    let gone = first.delete_box("b", false, T0).unwrap();
    assert_eq!(gone.routers_removed, vec!["r".to_string()]);

    let mut second = new_engine();
    second.replay_all(log, T0);
    assert!(second.get_box("b").is_none());
    assert!(second.get_box("a").is_some());
    assert!(second.get_router("r").is_err());
}

#[test]
fn single_frames_are_replayed() {
    let mut log = Vec::new();
    let mut engine = new_engine();
    put(&mut engine, &mut log, "t", fsync_config());
    write(&mut engine, &mut log, "t", vec![rec("1", None), rec("2", None), rec("3", None)]);
    let id = engine.get_box("t").unwrap().topic_id;
    engine.replay_frame(delete_seqs_frame(id, vec![2], T0), T0);
    assert_eq!(all(&mut engine, "t").iter().map(|r| r.0).collect::<Vec<_>>(), vec![1, 3]);
    engine.replay_frame(
        WalRecord::EvictWatermark { topic_id: id, evict_floor: 1, expiry_floor: 0, ts: 0 },
        T0,
    );
    assert_eq!(engine.get_box("t").unwrap().evict_earliest_seq(), 2);
    engine.replay_frame(
        WalRecord::EvictWatermark { topic_id: id, evict_floor: 0, expiry_floor: 0, ts: 0 },
        T0,
    );
    assert_eq!(engine.get_box("t").unwrap().evict_earliest_seq(), 2);
    engine.replay_frame(delete_router_frame("none", T0), T0);
    assert_eq!(engine.router_count(), 0);
}

#[test]
fn reserved_sequence_numbers_are_never_given_out_again() {
    let mut log = Vec::new();
    let mut first = new_engine();
    put(&mut first, &mut log, "t", fsync_config());
    write(&mut first, &mut log, "t", vec![rec("1", None)]);
    let id = first.get_box("t").unwrap().topic_id;
    log.push(WalRecord::HeadWatermark { topic_id: id, head_seq: 5, ts: 0 });

    let mut second = new_engine();
    second.replay_all(log, T0);
    second.apply_head_watermarks();
    assert_eq!(second.get_box("t").unwrap().head_seq(), 5);
    let mut rest = Vec::new();
    write(&mut second, &mut rest, "t", vec![rec("6", None)]);
    assert_eq!(all(&mut second, "t").iter().map(|r| r.0).collect::<Vec<_>>(), vec![1, 6]);
}

#[test]
fn a_snapshot_is_read_back_as_it_was() {
    let mut log = Vec::new();
    let mut first = new_engine();
    put(&mut first, &mut log, "t", TopicConfig { cap_records: 3, ..fsync_config() });
    put(
        &mut first,
        &mut log,
        "q",
        TopicConfig { topic_type: TopicType::Queue, ..fsync_config() },
    );
    put(
        &mut first,
        &mut log,
        "ram",
        TopicConfig { durability: Some(Durability::Memory), ..TopicConfig::default() },
    );
    for i in 0..5 {
        write(&mut first, &mut log, "t", vec![rec(&i.to_string(), Some("x"))]);
    }
    write(&mut first, &mut log, "q", vec![rec("7", None)]);
    let scratch = WriteRequest {
        records: vec![rec("8", None)],
        node: None,
        idempotency_key: None,
        create: None,
        config: None,
    };
    first.write("ram", &scratch, true, T0).unwrap();
    delete(
        &mut first,
        &mut log,
        "t",
        &DeleteRequest { before_seq: Some(4), match_: None },
    );
    let keyed = vec![(String::new(), (3, 40))];
    let snap = first.capture(9, &keyed, &Vec::new(), T0).unwrap();
    assert_eq!(snap.id, 9);
    assert_eq!(snap.ts, T0 as u64);
    assert_eq!(snap.topics.len(), 3);

    let mut second = new_engine();
    let cp = second.restore(snap);
    assert_eq!(
        position_for_key(&cp.shard_keys, &cp.shards, ""),
        Some((3, 40))
    );
    assert_eq!(position_for_key(&cp.shard_keys, &cp.shards, "shard-01"), None);
    assert_eq!(all(&mut first, "t"), all(&mut second, "t"));
    assert_eq!(all(&mut second, "q").len(), 1);
    // What lives in memory alone is gone, but its sequence numbers are not given out
    // again.
    assert_eq!(second.get_box("ram").unwrap().count(), 0);
    assert_eq!(second.get_box("ram").unwrap().head_seq(), 1);
    let a = first.diff("t", &DiffRequest::default(), T0).unwrap();
    let b = second.diff("t", &DiffRequest::default(), T0).unwrap();
    assert_eq!(a.tombstone.unwrap().gap_to, b.tombstone.unwrap().gap_to);
    assert_eq!((a.head_seq, a.earliest_seq), (b.head_seq, b.earliest_seq));
    assert_eq!(first.next_topic_id, second.next_topic_id);
    let mut rest = Vec::new();
    write(&mut second, &mut rest, "t", vec![rec("9", None)]);
    assert_eq!(second.get_box("t").unwrap().head_seq(), 6);
}

fn group(key: &str, shard: u64, current: bool, frames: Vec<WalRecord>) -> LogGroup {
    let frames: Vec<LogFrame> = frames
        .into_iter()
        .enumerate()
        .map(|(i, record)| LogFrame { end: (i as u64 + 1) * 10, record })
        .collect();
    let valid_len = frames.len() as u64 * 10;
    LogGroup {
        key: key.to_string(),
        shard,
        current,
        files: vec![LogFile { idx: 1, frames, valid_len }],
    }
}

#[test]
fn a_topic_whose_frames_lie_in_two_groups_is_replayed_in_order() {
    let mut log = Vec::new();
    let mut first = new_engine();
    put(&mut first, &mut log, "t", fsync_config());
    write(&mut first, &mut log, "t", vec![rec("1", None), rec("2", None)]);
    let old = std::mem::take(&mut log);
    write(&mut first, &mut log, "t", vec![rec("3", None)]);
    delete(
        &mut first,
        &mut log,
        "t",
        &DeleteRequest { before_seq: Some(2), match_: None },
    );
    let new = log;

    // The newer frames lie in the group that comes first.
    let groups =
        vec![group("shard-01", 1, true, new), group("shard-02", 2, true, old)];
    let mut second = new_engine();
    let (replayed, tails) = second.recover(None, groups, T0);
    assert_eq!(replayed, 5);
    assert_eq!(
        tails,
        vec![("shard-01".to_string(), (1, 20)), ("shard-02".to_string(), (1, 30))]
    );
    assert_eq!(all(&mut first, "t"), all(&mut second, "t"));
    assert_eq!(second.get_box("t").unwrap().head_seq(), 3);
}

#[test]
fn groups_that_are_no_longer_written_come_first() {
    let mark = |n: u64| WalRecord::HeadWatermark { topic_id: n, head_seq: n, ts: 0 };
    let groups = vec![
        group("", 0, true, vec![mark(1)]),
        group("shard-01", 1, false, vec![mark(2)]),
        group("shard-00", 0, false, vec![mark(3)]),
    ];
    let plan = plan_replay(groups, &None);
    let ids: Vec<u64> = plan.frames.iter().map(|f| f.topic_id()).collect();
    assert_eq!(ids, vec![3, 2, 1]);
    let keys: Vec<&str> = plan.tails.iter().map(|t| t.0.as_str()).collect();
    assert_eq!(keys, vec!["shard-00", "shard-01", ""]);
}

#[test]
fn what_a_snapshot_has_absorbed_is_not_replayed() {
    let mut log = Vec::new();
    let mut first = new_engine();
    put(&mut first, &mut log, "t", fsync_config());
    write(&mut first, &mut log, "t", vec![rec("1", None)]);
    let keyed = vec![(String::new(), (1, 20))];
    let snap = first.capture(1, &keyed, &Vec::new(), T0).unwrap();
    write(&mut first, &mut log, "t", vec![rec("2", None)]);

    let mut second = new_engine();
    let (replayed, tails) =
        second.recover(Some(snap), vec![group("", 0, true, log)], T0);
    assert_eq!(replayed, 1);
    assert_eq!(tails, vec![(String::new(), (1, 30))]);
    assert_eq!(all(&mut first, "t"), all(&mut second, "t"));
}

#[test]
fn a_group_before_its_checkpoint_ends_at_the_checkpoint() {
    let mark = WalRecord::HeadWatermark { topic_id: 1, head_seq: 1, ts: 0 };
    let cp = topics::checkpoint::make_checkpoint(&vec![(String::new(), (4, 70))], 0);
    let plan = plan_replay(vec![group("", 0, true, vec![mark])], &Some(cp));
    assert!(plan.frames.is_empty());
    assert_eq!(plan.tails, vec![(String::new(), (4, 70))]);
    let empty = LogGroup { key: String::new(), shard: 0, current: true, files: vec![] };
    assert!(plan_replay(vec![empty], &None).tails.is_empty());
}

#[test]
fn names_of_files_and_shards_are_read() {
    assert_eq!(parse_wal_file("wal-0000000000000012.log"), Some(12));
    assert_eq!(parse_wal_file("wal-.log"), None);
    assert_eq!(parse_wal_file("wal-1.log.tmp"), None);
    assert_eq!(parse_wal_file("log-1.log"), None);
    assert_eq!(parse_shard_dir("shard-07"), Some(7));
    assert_eq!(parse_shard_dir("shard-"), None);
    assert_eq!(parse_shard_dir("shard-x"), None);
    assert_eq!(parse_number("+3"), Some(3));
    assert_eq!(parse_number("18446744073709551615"), Some(u64::MAX));
    assert_eq!(parse_number("18446744073709551616"), None);

    let files = names(&["wal-3.log", "x", "wal-1.log", "wal-2.log"]);
    assert_eq!(list_wal_files(&files), vec![(1, 2), (2, 3), (3, 0)]);
    let dirs = names(&["shard-10", "wal-1.log", "shard-2", "shard-02"]);
    assert_eq!(list_shard_dirs(&dirs), vec![(2, 2), (2, 3), (10, 0)]);
}

#[test]
fn files_are_counted_kept_and_dropped_by_the_checkpoint() {
    assert_eq!(start_offset(1, 2, 30), None);
    assert_eq!(start_offset(2, 2, 30), Some(30));
    assert_eq!(start_offset(3, 2, 30), Some(0));
    let files = vec![(1, vec![10, 20]), (2, vec![10, 30, 40]), (3, vec![5])];
    assert_eq!(count_replay_frames(&files, 2, 30), 2);
    assert_eq!(count_replay_frames(&files, 0, 0), 6);
    assert_eq!(
        drop_absorbed_wal_files(&vec![vec![1, 2, 3], vec![1, 2]], &vec![(3, 0)]),
        vec![(0, 1), (0, 2)]
    );
    assert_eq!(find_split_topics(&vec![vec![0, 5, 7], vec![0, 7, 9], vec![5]]), vec![5, 7]);
    assert!(is_shard_in_use(1, 2));
    assert!(!is_shard_in_use(2, 2));
    assert!(!is_shard_in_use(0, 1));
}

#[test]
fn a_snapshot_is_due_by_size_or_by_age() {
    let policy = SnapshotPolicy { bytes_threshold: 100, interval_ms: 1000 };
    let last = SnapshotMark { log_bytes: 50, ms: T0 as u64 };
    let mut engine = new_engine();
    assert!(!engine.snapshot_due(Some(1000), last, policy, T0));
    engine.put_box("t", TopicConfig::default(), T0).unwrap();
    assert!(!engine.snapshot_due(None, last, policy, T0 + 5000));
    assert!(!engine.snapshot_due(Some(149), last, policy, T0 + 999));
    assert!(engine.snapshot_due(Some(150), last, policy, T0));
    assert!(engine.snapshot_due(Some(50), last, policy, T0 + 1000));
}

#[test]
fn snapshots_that_make_no_sense_are_recognised() {
    let mut engine = new_engine();
    let mut log = Vec::new();
    put(&mut engine, &mut log, "t", fsync_config());
    write(&mut engine, &mut log, "t", vec![rec("1", None), rec("2", None)]);
    let snap = |engine: &mut Engine| engine.capture(1, &Vec::new(), &Vec::new(), T0).unwrap();
    assert!(can_read(&snap(&mut engine)));
    let mut s = snap(&mut engine);
    s.next_topic_id = u64::MAX;
    assert!(!can_read(&s));
    let mut s = snap(&mut engine);
    s.topics[0].records.reverse();
    assert!(!can_restore(&s.topics[0]));
    assert!(!can_read(&s));
    let mut s = snap(&mut engine);
    s.topics[0].head_seq = 1;
    assert!(!can_restore(&s.topics[0]));
    let mut s = snap(&mut engine);
    s.topics[0].delete_below = 5;
    assert!(!can_restore(&s.topics[0]));
}

#[test]
fn logs_with_a_topic_beyond_the_last_number_are_recognised() {
    let frame = |id: u64| LogFrame { end: 10, record: WalRecord::HeadWatermark { topic_id: id, head_seq: 1, ts: 0 } };
    let file = |id: u64| LogFile { idx: 1, frames: vec![frame(1), frame(id)], valid_len: 10 };
    assert!(can_replay(&vec![file(2)]));
    assert!(!can_replay(&vec![file(2), file(u64::MAX - 1)]));
}

#[test]
fn directories_that_no_shard_uses_are_emptied() {
    let dirs = vec![(0, vec![1, 2]), (1, vec![3]), (2, vec![4, 5])];
    assert_eq!(orphan_wal_files(&dirs, 2), vec![(2, 4), (2, 5)]);
    assert_eq!(orphan_wal_files(&dirs, 1), vec![(0, 1), (0, 2), (1, 3), (2, 4), (2, 5)]);
    assert_eq!(orphan_wal_files(&dirs, 0), orphan_wal_files(&dirs, 1));
    assert!(orphan_wal_files(&dirs, 3).is_empty());
}

#[test]
fn a_frame_that_is_replayed_again_changes_nothing() {
    let mut log = Vec::new();
    let mut first = new_engine();
    put(&mut first, &mut log, "t", fsync_config());
    write(&mut first, &mut log, "t", vec![rec("1", None), rec("2", None)]);
    let mut second = new_engine();
    let frame = |seq: u64| WalRecord::Append {
        topic_id: 1,
        seq,
        ts: T0 as u64,
        node: Some("n1".to_string()),
        tag: None,
        data: "{\"d\":9,\"m\":{\"k\":1}}".to_string(),
    };
    second.replay_all(log, T0);
    let before = all(&mut second, "t");
    // One that is there already, and one that leaves a gap.
    second.replay_frame(frame(2), T0);
    second.replay_frame(frame(4), T0);
    assert_eq!(all(&mut second, "t"), before);
    second.replay_frame(frame(3), T0);
    let once = all(&mut second, "t");
    assert_ne!(once, before);
    second.replay_frame(frame(3), T0);
    assert_eq!(all(&mut second, "t"), once);
}

#[test]
fn the_number_of_shards_makes_no_difference() {
    let shards = |n: u64| -> Vec<LogGroup> {
        let mut log = Vec::new();
        let mut engine = new_engine();
        for name in ["a", "b", "c"] {
            put(&mut engine, &mut log, name, fsync_config());
        }
        for k in 0..6 {
            let name = ["a", "b", "c"][k % 3];
            write(&mut engine, &mut log, name, vec![rec("1", None), rec("2", None)]);
        }
        let request = DeleteRequest { before_seq: Some(3), match_: None };
        delete(&mut engine, &mut log, "b", &request);
        let mut parts: Vec<Vec<WalRecord>> = (0..n).map(|_| Vec::new()).collect();
        for frame in log {
            let shard = (frame.topic_id() % n) as usize;
            parts[shard].push(frame);
        }
        let numbered = parts.into_iter().enumerate();
        numbered.map(|(i, p)| group(&format!("shard-{i:02}"), i as u64, true, p)).collect()
    };
    let mut one = new_engine();
    one.recover(None, shards(1), T0);
    for n in 2..5 {
        let mut other = new_engine();
        other.recover(None, shards(n), T0);
        assert_eq!(other.topics.names(), one.topics.names());
        for name in ["a", "b", "c"] {
            assert_eq!(all(&mut other, name), all(&mut one, name));
            let (x, y) = (other.get_box(name).unwrap(), one.get_box(name).unwrap());
            assert_eq!((x.head_seq(), x.count(), x.bytes()), (y.head_seq(), y.count(), y.bytes()));
        }
    }
}

#[test]
fn settings_that_are_read_back_leave_the_type_as_it_is() {
    let mut engine = new_engine();
    engine.put_box("t", TopicConfig::default(), T0).unwrap();
    let config = TopicConfig {
        topic_type: TopicType::Queue,
        cap_records: 5,
        ..TopicConfig::default()
    };
    let frame = WalRecord::TopicConfig {
        topic_id: 1,
        name: "t".to_string(),
        config: Some(config),
        ts: T0 as u64,
    };
    engine.replay_frame(frame, T0);
    let t = engine.get_box("t").unwrap();
    assert!(!t.is_queue());
    assert_eq!(t.config.cap_records, 5);
}

#[test]
fn a_write_after_one_that_failed_is_recovered_from_a_snapshot() {
    let mut log = Vec::new();
    let mut first = new_engine();
    put(&mut first, &mut log, "t", fsync_config());
    write(&mut first, &mut log, "t", vec![rec("1", None)]);
    let req = WriteRequest {
        records: vec![rec("2", None)],
        node: None,
        idempotency_key: None,
        create: None,
        config: None,
    };
    match first.begin_write("t", &req, true, T0).unwrap() {
        StartedWrite::Pending(p) => assert!(first.finish_write(p, false, true, T0).is_err()),
        _ => panic!("nothing was staged"),
    }
    let request = DeleteRequest { before_seq: Some(2), match_: None };
    delete(&mut first, &mut log, "t", &request);
    let keyed = vec![(String::new(), (1, log.len() as u64 * 10))];
    let snap = first.capture(1, &keyed, &Vec::new(), T0).unwrap();
    assert_eq!((snap.topics[0].base_seq, snap.topics[0].head_seq), (3, 1));
    assert!(can_read(&snap));
    write(&mut first, &mut log, "t", vec![rec("3", None)]);

    let mut second = new_engine();
    second.recover(Some(snap), vec![group("", 0, true, log)], T0);
    assert_eq!(all(&mut first, "t"), vec![(3, "3".to_string(), None)]);
    assert_eq!(all(&mut second, "t"), all(&mut first, "t"));
}

#[test]
fn layouts_on_the_disk_recover_alike_with_every_number_of_shards() {
    // Written with one shard, then with two: which of the groups is written to now is
    // the only difference.
    let groups = |flat_is_current: bool| -> Vec<LogGroup> {
        let mut log = Vec::new();
        let mut engine = new_engine();
        put(&mut engine, &mut log, "a", fsync_config());
        put(&mut engine, &mut log, "b", fsync_config());
        write(&mut engine, &mut log, "a", vec![rec("1", None), rec("2", None)]);
        write(&mut engine, &mut log, "b", vec![rec("1", None)]);
        let flat = std::mem::take(&mut log);
        write(&mut engine, &mut log, "b", vec![rec("2", None)]);
        let zero = std::mem::take(&mut log);
        write(&mut engine, &mut log, "a", vec![rec("3", None)]);
        let request = DeleteRequest { before_seq: Some(2), match_: None };
        delete(&mut engine, &mut log, "a", &request);
        vec![
            group("", 0, flat_is_current, flat),
            group("shard-00", 0, !flat_is_current, zero),
            group("shard-01", 1, !flat_is_current, log),
        ]
    };
    let mut one = new_engine();
    let mut two = new_engine();
    one.recover(None, groups(true), T0);
    two.recover(None, groups(false), T0);
    assert_eq!(one.topics.names(), two.topics.names());
    for (name, head, seqs) in [("a", 3, vec![2, 3]), ("b", 2, vec![1, 2])] {
        assert_eq!(all(&mut one, name), all(&mut two, name));
        let found: Vec<u64> = all(&mut one, name).iter().map(|r| r.0).collect();
        assert_eq!(found, seqs);
        assert_eq!(one.get_box(name).unwrap().head_seq(), head);
    }
}

#[test]
fn routers_are_recovered_with_every_number_of_shards() {
    let groups = |n: u64| -> Vec<LogGroup> {
        let mut log = Vec::new();
        let mut engine = new_engine();
        put(&mut engine, &mut log, "a", fsync_config());
        put(&mut engine, &mut log, "b", fsync_config());
        let req = RouterCreateRequest {
            source: "a".to_string(),
            dest: "b".to_string(),
            preserve_node: true,
            preserve_tag: true,
            create_dest: true,
            filter: None,
            allow_cycle: false,
        };
        for name in ["ab", "gone"] {
            let (_, router) = engine.put_router(name, &req, T0).unwrap();
            log.push(put_router_frame(&router, T0));
        }
        log.push(delete_router_frame("gone", T0));
        let mut parts: Vec<Vec<WalRecord>> = (0..n).map(|_| Vec::new()).collect();
        for frame in log {
            let shard = (frame.topic_id() % n) as usize;
            parts[shard].push(frame);
        }
        let numbered = parts.into_iter().enumerate();
        numbered.map(|(i, p)| group(&format!("shard-{i:02}"), i as u64, true, p)).collect()
    };
    for n in 1..4 {
        let mut engine = new_engine();
        engine.recover(None, groups(n), T0);
        assert_eq!(engine.router_count(), 1);
        let r = engine.get_router("ab").unwrap();
        assert_eq!((r.router.source.as_str(), r.router.dest.as_str()), ("a", "b"));
        assert_eq!(r.forwarded_total, 0);
    }
}
