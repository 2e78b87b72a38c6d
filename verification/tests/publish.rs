use topics::publish::{MaterializeSeam, PublishPermit, UnwindAction};
use topics::topic_index::StoredRecord;
use topics::topic_state::TopicState;
use topics::types::{Durability, Json, TopicConfig};

fn topic_for_test() -> TopicState {
    TopicState::new("t".to_string(), 1, TopicConfig::default(), 1, 1)
}

fn stored(text: &str) -> StoredRecord {
    StoredRecord {
        ts: 0,
        node: None,
        tag: None,
        data: Some(Json::parse(text).unwrap()),
        meta: None,
        bytes: text.len() as u64,
        deleted: false,
        payload_resident: true,
        hops: 0,
    }
}

#[test]
fn publish_guard_done_advances_gate_once() {
    let mut b = topic_for_test();
    {
        let t = b.publish_guard();
        assert!(b.is_turn(t.ticket()));
        b.publish_done(t.ticket());
    }
    assert!(b.is_quiet());
    let t = b.publish_guard();
    assert_eq!(t.ticket(), 1);
    assert!(b.is_turn(t.ticket()));
    b.publish_done(t.ticket());
    assert!(b.is_quiet());
}

#[test]
fn an_unwinding_writer_passes_its_turn_on() {
    let mut b = topic_for_test();
    let first = b.publish_guard();
    let second = b.publish_guard();
    assert!(!b.is_turn(second.ticket()));
    let stop = b.unwind(first);
    assert!(!stop);
    assert!(b.is_turn(second.ticket()));
}

#[test]
fn an_unwinding_writer_takes_its_records_back() {
    let mut b = topic_for_test();
    let mut g = b.publish_guard();
    let staged = b.stage_append(vec![stored("\"unacked\"")]);
    g.arm_append(&staged);
    assert!(matches!(g.on_unwind, UnwindAction::RollbackAppend { start: 1, count: 1 }));
    assert!(!b.unwind(g));
    assert_eq!(b.head_seq(), 0);

    let g2 = b.publish_guard();
    let staged2 = b.stage_append(vec![stored("\"acked\"")]);
    let range = b.publish_staged(staged2, 5);
    b.publish_done(g2.ticket());
    assert_eq!(range, Some((2, 2)));
    assert_eq!(b.head_seq(), 2);
    assert!(b.index.get(1).unwrap().deleted);
    assert!(!b.index.get(2).unwrap().deleted);
    assert_eq!(b.count(), 1);
}

#[test]
fn an_armed_deletion_stops_the_process() {
    let mut b = topic_for_test();
    let mut g = b.publish_guard();
    g.arm_abort_on_unwind();
    assert!(b.unwind(g));
}

#[test]
fn permits_say_which_class_may_publish() {
    let resident = PublishPermit::resident();
    assert!(resident.allows(Durability::Memory, 5, 0));
    assert!(resident.allows(Durability::Disk, 5, 0));
    let buffered = PublishPermit::wal_committed(false);
    assert!(buffered.allows(Durability::Disk, 5, 5));
    assert!(!buffered.allows(Durability::Disk, 6, 5));
    assert!(!buffered.allows(Durability::Fsync, 5, 5));
    let flushed = PublishPermit::wal_committed(true);
    assert!(flushed.allows(Durability::Fsync, 5, 0));
    assert!(PublishPermit::derived().allows(Durability::Fsync, 5, 0));
    assert!(PublishPermit::recovery().allows(Durability::Disk, 5, 0));
}

#[test]
fn ranges_are_fed_in_order_without_gap_or_repeat() {
    let mut seam = MaterializeSeam::new(1);
    assert_eq!(seam.feed(4, 5), vec![]);
    assert_eq!(seam.feed(1, 3), vec![(1, 3), (4, 5)]);
    assert_eq!(seam.feed(2, 5), vec![]);
    assert_eq!(seam.feed(4, 7), vec![(6, 7)]);
    assert_eq!(seam.next, 8);
}
