use std::sync::Arc;
use topics::broadcast::{BroadcastCache, FrameVariant, RING_CAP};

/// The frame of a record, with its keys in order.
fn record_frame(seq: u64, include_data: bool) -> String {
    let mut m = serde_json::Map::new();
    m.insert("$seq".to_string(), serde_json::Value::from(seq));
    m.insert("$ts".to_string(), serde_json::Value::from(1234));
    m.insert("$node".to_string(), serde_json::Value::from("n1"));
    m.insert("$tag".to_string(), serde_json::Value::from("t"));
    if include_data {
        let mut d = serde_json::Map::new();
        d.insert("k".to_string(), serde_json::Value::from("v"));
        m.insert("data".to_string(), serde_json::Value::Object(d));
    }
    let mut meta = serde_json::Map::new();
    meta.insert("m".to_string(), serde_json::Value::from(1));
    m.insert("meta".to_string(), serde_json::Value::Object(meta));
    serde_json::Value::Object(m).to_string()
}

#[test]
fn shared_frame_is_byte_identical_to_record_frame() {
    let mut cache = BroadcastCache::new();
    let variant = FrameVariant::new(true, true, true);
    let expected = record_frame(7, true);
    let shared = cache.frame(7, variant, Arc::new(expected.clone()));
    assert_eq!(*shared, expected);
}

#[test]
fn second_call_returns_same_shared_arc() {
    let mut cache = BroadcastCache::new();
    let variant = FrameVariant::new(true, false, false);
    let a = cache.frame(3, variant, Arc::new(record_frame(3, true)));
    let b = cache.frame(3, variant, Arc::new(record_frame(3, true)));
    assert!(Arc::ptr_eq(&a, &b));
    let other = FrameVariant::new(false, false, false);
    let c = cache.frame(3, other, Arc::new(record_frame(3, false)));
    assert!(!Arc::ptr_eq(&a, &c));
}

#[test]
fn ring_is_bounded() {
    let mut cache = BroadcastCache::new();
    let variant = FrameVariant::new(true, true, true);
    for seq in 1..=(RING_CAP as u64 + 50) {
        let _ = cache.frame(seq, variant, Arc::new(record_frame(seq, true)));
    }
    assert!(cache.ring.len() <= RING_CAP);
    assert!(cache.ring.first().map(|f| f.seq > 1).unwrap_or(false));
}

#[test]
fn a_frame_is_looked_up_before_it_is_made() {
    let mut cache = BroadcastCache::new();
    let variant = FrameVariant::new(true, true, false);
    assert!(cache.lookup(1, variant).is_none());
    let made = cache.frame(1, variant, Arc::new("{}".to_string()));
    let found = cache.lookup(1, variant).unwrap();
    assert!(Arc::ptr_eq(&made, &found));
    assert!(cache.lookup(1, FrameVariant::new(true, false, false)).is_none());
    assert!(cache.lookup(2, variant).is_none());
}

#[test]
fn each_projection_has_its_own_place() {
    let mut seen = Vec::new();
    for data in [false, true] {
        for tags in [false, true] {
            for meta in [false, true] {
                seen.push(FrameVariant::new(data, tags, meta).idx());
            }
        }
    }
    seen.sort_unstable();
    assert_eq!(seen, vec![0, 1, 2, 3, 4, 5, 6, 7]);
}

#[test]
fn a_full_ring_loses_its_lowest_record_alone() {
    let mut cache = BroadcastCache::new();
    let variant = FrameVariant::new(true, true, true);
    let frame = |seq: u64| Arc::new(record_frame(seq, true));
    for seq in 10..10 + RING_CAP as u64 {
        let _ = cache.frame(seq, variant, frame(seq));
    }
    let next = 10 + RING_CAP as u64;
    let _ = cache.frame(next, variant, frame(next));
    assert!(cache.lookup(10, variant).is_none());
    for seq in 11..=next {
        assert_eq!(cache.lookup(seq, variant).unwrap(), frame(seq));
    }
    // One below all others is made, and not kept.
    assert_eq!(cache.frame(3, variant, frame(3)), frame(3));
    assert!(cache.lookup(3, variant).is_none());
    assert!(cache.lookup(11, variant).is_some());
    // Another variant of a record that is there drives none out.
    let other = FrameVariant::new(false, true, true);
    let _ = cache.frame(next, other, frame(next));
    assert!(cache.lookup(11, variant).is_some());
    assert_eq!(cache.ring.len(), RING_CAP);
}
