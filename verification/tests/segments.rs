use std::collections::BTreeMap;
use topics::payload::{decode_payload, encode_record_payload};
use topics::segwriter::{
    copy_segment_to_cold, CopyAction, ResolvedPayload, SealOutcome, SealedResolve, SegmentConfig,
    SegmentWriter, Tier,
};
use topics::types::Json;

/// What a frame adds to the payload it holds.
const FRAME_OVERHEAD: u64 = 48;

/// A writer with its two tiers held in memory: for each segment its texts, by their
/// sequence numbers.
struct Tiers {
    w: SegmentWriter,
    hot: BTreeMap<u64, BTreeMap<u64, String>>,
    cold: BTreeMap<u64, BTreeMap<u64, String>>,
    now: i64,
}

fn json(text: &str) -> Json {
    Json::parse(text).unwrap()
}

impl Tiers {
    fn new(cfg: SegmentConfig, has_cold: bool, now: i64) -> Tiers {
        Tiers {
            w: SegmentWriter::new(cfg, has_cold),
            hot: BTreeMap::new(),
            cold: BTreeMap::new(),
            now,
        }
    }

    fn seal(&mut self) -> Vec<u64> {
        let Some(seg) = self.w.take_active() else {
            return Vec::new();
        };
        let outcome = if self.hot.contains_key(&seg.start_seq) {
            SealOutcome::Found(Tier::Hot)
        } else if self.cold.contains_key(&seg.start_seq) {
            SealOutcome::Found(Tier::Cold)
        } else {
            let texts = seg.records.iter().map(|r| (r.seq, r.blob.clone())).collect();
            self.hot.insert(seg.start_seq, texts);
            SealOutcome::Stored
        };
        self.w.seal_active(seg, outcome)
    }

    fn append_with(&mut self, seq: u64, ts: i64, data: &str, meta: Option<&str>) -> Vec<u64> {
        let sealed = if self.w.should_seal_before(self.now) { self.seal() } else { Vec::new() };
        let blob = encode_record_payload(&json(data), &meta.map(json));
        let frame_len = blob.len() as u64 + FRAME_OVERHEAD;
        self.w.append_record(seq, ts, blob, frame_len);
        sealed
    }

    fn append(&mut self, seq: u64, ts: i64, data: &str) -> Vec<u64> {
        self.append_with(seq, ts, data, None)
    }

    fn maybe_seal_idle(&mut self) -> Vec<u64> {
        if self.w.should_seal_idle(self.now) {
            self.seal()
        } else {
            Vec::new()
        }
    }

    fn resolve_sealed(&mut self, seq: u64) -> Option<ResolvedPayload> {
        match self.w.resolve_sealed_fast(seq) {
            SealedResolve::Hit(p) => Some(p),
            SealedResolve::NotSealed => None,
            SealedResolve::Read(loc) => {
                let store = if loc.is_cold() { &self.cold } else { &self.hot };
                let text = store.get(&loc.seg.start_seq)?.get(&loc.seq)?;
                let (data, meta) = decode_payload(text);
                let p = ResolvedPayload { data, meta };
                self.w.record_cold_read(&loc, &p);
                Some(p)
            }
        }
    }

    fn data_of(&mut self, seq: u64) -> String {
        self.resolve_sealed(seq).unwrap().data.unwrap().text
    }

    fn resolve(&self, id: u64) -> Option<Tier> {
        if self.hot.contains_key(&id) {
            Some(Tier::Hot)
        } else if self.cold.contains_key(&id) {
            Some(Tier::Cold)
        } else {
            None
        }
    }

    fn copy_to_cold(&mut self, id: u64) {
        let there = self.cold.contains_key(&id);
        if copy_segment_to_cold(self.w.has_cold, there, there) == CopyAction::Copy {
            let texts = self.hot.get(&id).unwrap().clone();
            self.cold.insert(id, texts);
        }
    }

    fn confirm(&mut self, id: u64) {
        if self.w.confirm_relocated(id) {
            self.hot.remove(&id);
        }
    }

    fn relocate(&mut self, id: u64) {
        self.copy_to_cold(id);
        self.confirm(id);
    }

    fn drop_segment(&mut self, id: u64) {
        self.w.drop_segment(id);
        self.hot.remove(&id);
        self.cold.remove(&id);
    }

    fn reclaim_orphans_below(&mut self, floor: u64) -> usize {
        let mut stored: Vec<u64> = self.hot.keys().chain(self.cold.keys()).copied().collect();
        stored.sort_unstable();
        stored.dedup();
        let orphans = self.w.reclaim_orphans_below(&stored, floor);
        for id in &orphans {
            self.hot.remove(id);
            self.cold.remove(id);
        }
        orphans.len()
    }
}

fn cfg(max_events: u64, max_bytes: u64, max_age_ms: u64) -> SegmentConfig {
    SegmentConfig {
        max_events,
        max_bytes,
        max_age_ms,
        hot_retain_segments: 0,
        hot_retain_bytes: 0,
    }
}

fn cfg_events(max_events: u64, hot_retain: u64) -> SegmentConfig {
    SegmentConfig {
        max_events,
        max_bytes: 0,
        max_age_ms: 0,
        hot_retain_segments: hot_retain,
        hot_retain_bytes: 0,
    }
}

#[test]
fn rolls_at_event_threshold() {
    let mut t = Tiers::new(cfg(3, 0, 0), false, 1000);
    assert!(t.append(1, 1000, "{\"v\":1}").is_empty());
    assert!(t.append(2, 1000, "{\"v\":2}").is_empty());
    assert!(t.append(3, 1000, "{\"v\":3}").is_empty());
    assert_eq!(t.w.sealed_count(), 0, "still active, not sealed yet");
    let sealed = t.append(4, 1000, "{\"v\":4}");
    assert_eq!(sealed, vec![1, 2, 3], "the 4th append seals seqs 1..=3");
    assert_eq!(t.w.sealed_count(), 1);
    assert_eq!(t.w.active_record_count(), 1, "seq 4 is in the new active seg");
}

#[test]
fn rolls_at_byte_threshold() {
    let mut t = Tiers::new(cfg(1_000_000, 40, 0), false, 0);
    t.append(1, 0, "{\"v\":\"aaaaaaaa\"}");
    let sealed = t.append(2, 0, "{\"v\":\"b\"}");
    assert_eq!(sealed, vec![1]);
    assert_eq!(t.w.sealed_count(), 1);
}

#[test]
fn rolls_at_age_threshold_via_test_clock() {
    let mut t = Tiers::new(cfg(1_000_000, 0, 5000), false, 1000);
    t.append(1, 1000, "{\"v\":1}");
    t.now += 4000;
    assert!(t.append(2, 5000, "{\"v\":2}").is_empty());
    assert_eq!(t.w.sealed_count(), 0);
    t.now += 2000;
    let sealed = t.append(3, 7000, "{\"v\":3}");
    assert_eq!(sealed, vec![1, 2]);
    assert_eq!(t.w.sealed_count(), 1);

    t.now += 6000;
    let idle = t.maybe_seal_idle();
    assert_eq!(idle, vec![3], "idle box seals its partial segment on age");
    assert_eq!(t.w.sealed_count(), 2);
}

#[test]
fn sealed_read_matches_original_via_cache_and_segment() {
    let mut t = Tiers::new(cfg(2, 0, 0), false, 0);
    t.append(1, 0, "{\"v\":1}");
    t.append(2, 0, "{\"a\":\"x\"}");
    t.append(3, 0, "{\"v\":3}");
    t.append(4, 0, "{\"v\":4}");
    t.append(5, 0, "{\"v\":5}");

    assert_eq!(t.data_of(1), "{\"v\":1}");
    assert_eq!(t.data_of(2), "{\"a\":\"x\"}");
    assert!(t.resolve_sealed(5).is_none());
    assert!(t.w.is_sealed(1) && t.w.is_sealed(4) && !t.w.is_sealed(5));
}

#[test]
fn cache_eviction_falls_back_to_segment_read() {
    let mut t = Tiers::new(cfg(1, 0, 0), false, 0);
    t.w.set_cache_cap(1);
    t.append(1, 0, "{\"old\":1}");
    t.append(2, 0, "{\"mid\":2}");
    t.append(3, 0, "{\"new\":3}");

    assert_eq!(t.w.cache_len(), 1, "cache bounded to 1");
    let p1 = t.resolve_sealed(1).expect("seq 1 read from segment");
    assert_eq!(p1.data.unwrap().text, "{\"old\":1}");
    assert_eq!(t.data_of(2), "{\"mid\":2}");
}

#[test]
fn meta_round_trips_through_segment() {
    let mut t = Tiers::new(cfg(1, 0, 0), false, 0);
    t.w.set_cache_cap(0);
    t.append_with(1, 5, "{\"k\":\"v\"}", Some("{\"m\":9}"));
    t.append(2, 6, "{\"z\":1}");
    let p = t.resolve_sealed(1).expect("read seq 1 from segment");
    assert_eq!(p.data.unwrap().text, "{\"k\":\"v\"}");
    assert_eq!(p.meta.unwrap().text, "{\"m\":9}");
}

#[test]
fn relocated_segment_reads_identically_from_cold() {
    let mut t = Tiers::new(cfg_events(1, 1), true, 0);
    t.w.set_cache_cap(0);
    for i in 1..=4u64 {
        let data = format!("{{\"i\":{i}}}");
        let meta = format!("{{\"m\":{i}}}");
        t.append_with(i, i as i64, &data, Some(&meta));
    }
    assert_eq!(t.w.sealed_count(), 3);

    let plan: Vec<u64> = t.w.relocation_plan().into_iter().map(|(id, _)| id).collect();
    assert_eq!(plan, vec![1, 2], "two oldest sealed segments spill to cold");

    for id in plan {
        t.relocate(id);
    }
    assert_eq!(t.resolve(1), Some(Tier::Cold));
    assert_eq!(t.resolve(2), Some(Tier::Cold));
    assert_eq!(t.resolve(3), Some(Tier::Hot), "newest sealed kept hot");
    assert!(!t.hot.contains_key(&1));
    assert!(t.cold.contains_key(&1));

    for i in 1..=3u64 {
        let p = t.resolve_sealed(i).expect("sealed read");
        assert_eq!(
            p.data.unwrap().text,
            format!("{{\"i\":{i}}}"),
            "data identical after relocation"
        );
        assert_eq!(
            p.meta.unwrap().text,
            format!("{{\"m\":{i}}}"),
            "meta identical after relocation"
        );
    }
    assert_eq!(t.w.cold_reads(), 2, "two records served from the cold tier");
    let _ = t.resolve_sealed(1).unwrap();
    assert_eq!(t.w.cold_reads(), 2, "re-read served from cold LRU, no new cold read");
}

#[test]
fn interrupted_relocation_recovers_without_loss() {
    let mut t = Tiers::new(cfg_events(1, 1), true, 0);
    t.w.set_cache_cap(0);
    for i in 1..=3u64 {
        t.append(i, i as i64, &format!("{{\"i\":{i}}}"));
    }

    t.copy_to_cold(1);
    assert!(t.hot.contains_key(&1));
    assert!(t.cold.contains_key(&1));
    assert_eq!(t.resolve(1), Some(Tier::Hot), "prefer hot mid-relocation");
    assert_eq!(t.data_of(1), "{\"i\":1}", "no loss");

    t.relocate(1);
    assert_eq!(t.resolve(1), Some(Tier::Cold));
    assert!(!t.hot.contains_key(&1));
    assert_eq!(t.data_of(1), "{\"i\":1}", "still readable from cold");

    t.confirm(1);
    assert_eq!(t.resolve(1), Some(Tier::Cold));
    assert_eq!(t.data_of(1), "{\"i\":1}");
}

#[test]
fn hot_retain_bytes_bound_spills_more_aggressively() {
    let cfg = SegmentConfig {
        max_events: 1,
        max_bytes: 0,
        max_age_ms: 0,
        hot_retain_segments: 10,
        hot_retain_bytes: 1,
    };
    let mut t = Tiers::new(cfg, true, 0);
    for i in 1..=4u64 {
        t.append(i, i as i64, &format!("{{\"i\":{i}}}"));
    }
    let plan: Vec<u64> = t.w.relocation_plan().into_iter().map(|(id, _)| id).collect();
    assert_eq!(plan, vec![1, 2, 3], "byte bound spills all sealed segments");
}

#[test]
fn drop_segment_removes_files_from_both_tiers_and_registry() {
    let mut t = Tiers::new(cfg_events(1, 1), true, 0);
    for i in 1..=4u64 {
        t.append(i, i as i64, &format!("{{\"i\":{i}}}"));
    }
    t.relocate(1);
    assert_eq!(t.resolve(1), Some(Tier::Cold));

    assert_eq!(t.w.segments_below(3), vec![1, 2], "segs 1,2 are < floor 3");

    t.drop_segment(1);
    assert_eq!(t.resolve(1), None, "seg 1 dropped from both tiers");
    assert!(!t.w.is_sealed(1));
    assert_eq!(t.w.sealed_count(), 2, "segs 2,3 remain sealed");
    t.drop_segment(2);
    assert_eq!(t.resolve(2), None);
    assert_eq!(t.w.sealed_count(), 1);
    t.drop_segment(1);
    assert_eq!(t.w.sealed_count(), 1);
}

#[test]
fn reclaim_orphans_below_drops_only_dead_below_floor() {
    let mut t = Tiers::new(cfg_events(1, 0), true, 0);
    for i in 1..=5u64 {
        t.append(i, i as i64, &format!("{{\"i\":{i}}}"));
    }
    t.relocate(1);
    t.relocate(2);
    assert_eq!(t.resolve(1), Some(Tier::Cold));
    assert_eq!(t.resolve(2), Some(Tier::Cold));

    // The register forgets the first two segments; their files are still there.
    t.w.drop_segment(1);
    t.w.drop_segment(2);
    assert_eq!(t.w.sealed_count(), 2, "registry now covers 3,4");
    assert!(t.cold.contains_key(&1));
    assert!(t.cold.contains_key(&2));

    let dropped = t.reclaim_orphans_below(3);
    assert_eq!(dropped, 2, "two orphan segment files reclaimed");
    assert_eq!(t.resolve(1), None);
    assert_eq!(t.resolve(2), None);
    assert_eq!(t.resolve(3), Some(Tier::Hot), "live registered seg kept");
    assert_eq!(t.resolve(4), Some(Tier::Hot));
    assert_eq!(t.reclaim_orphans_below(3), 0);
}

#[test]
fn a_segment_that_could_not_be_stored_is_not_registered() {
    let mut w = SegmentWriter::new(cfg(1, 0, 0), false);
    w.append_record(1, 0, "{\"d\":1}".to_string(), 10);
    let seg = w.take_active().unwrap();
    assert!(w.seal_active(seg, SealOutcome::Failed).is_empty());
    assert_eq!(w.sealed_count(), 0);
    assert!(matches!(w.resolve_sealed_fast(1), SealedResolve::NotSealed));
}

#[test]
fn a_segment_found_in_the_cold_tier_is_registered_there() {
    let mut w = SegmentWriter::new(cfg(1, 0, 0), true);
    w.set_cache_cap(0);
    w.append_record(7, 0, "{\"d\":1}".to_string(), 10);
    let seg = w.take_active().unwrap();
    assert_eq!(w.seal_active(seg, SealOutcome::Found(Tier::Cold)), vec![7]);
    match w.resolve_sealed_fast(7) {
        SealedResolve::Read(loc) => {
            assert!(loc.is_cold());
            assert_eq!(loc.seg.start_seq, 7);
            assert_eq!(loc.seg.end_seq, 7);
        }
        other => panic!("expected a read, got {other:?}"),
    }
    assert!(w.relocation_plan().is_empty());
}
