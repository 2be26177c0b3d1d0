use std::collections::BTreeSet;

use flexss::block_picker::BlockPicker;
use flexss::drain_aware_shuffle::DrainAwareShuffle;
use flexss::harness::{AnyPicker, PickerKind};
use flexss::naive_shuffle::NaiveShuffle;
use flexss::rendevouz::Rendevouz;
use flexss::rendevouz_shuffle::RendevouzShuffle;
use flexss::{combine, hash, BackendId, Health, Picker, RoundRobin, TenantId};

#[test]
fn hash_is_stable_and_spreads() {
    assert_eq!(hash(17), hash(17));
    assert_ne!(hash(0), 0);
    assert_ne!(hash(0), hash(1));
}

#[test]
fn combine_matches_mixer_formula() {
    let a: u64 = 0x0123_4567_89ab_cdef;
    let b: u64 = 0xfeed_face_dead_beef;
    let expected = (a.rotate_left(5) ^ b).wrapping_mul(0x517cc1b727220a95);
    assert_eq!(combine(a, b), expected);
    assert_ne!(combine(a, b), combine(b, a));
}

#[test]
fn round_robin_advances_before_inspecting() {
    let mut p = RoundRobin::new(1);
    for i in 0..3 {
        p.register(BackendId(i), Health::Up);
    }
    // The cursor moves first, so a fresh picker starts at index 1.
    assert_eq!(p.pick(TenantId(0)), Some(BackendId(1)));
    assert_eq!(p.pick(TenantId(0)), Some(BackendId(2)));
    assert_eq!(p.pick(TenantId(0)), Some(BackendId(0)));
}

#[test]
fn round_robin_skips_unhealthy() {
    let mut p = RoundRobin::new(1);
    p.register(BackendId(0), Health::Down);
    p.register(BackendId(1), Health::Draining);
    p.register(BackendId(2), Health::Up);
    for _ in 0..5 {
        assert_eq!(p.pick(TenantId(9)), Some(BackendId(2)));
    }
    p.register(BackendId(2), Health::Down);
    assert_eq!(p.pick(TenantId(9)), None);
}

#[test]
fn naive_shuffle_empty_fleet() {
    let mut p = NaiveShuffle::new(3);
    assert_eq!(p.pick(TenantId(0)), None);
    p.register(BackendId(8), Health::Up);
    assert_eq!(p.pick(TenantId(0)), Some(BackendId(8)));
    p.unregister(BackendId(8));
    assert_eq!(p.pick(TenantId(0)), None);
}

#[test]
fn naive_shuffle_shard_containment() {
    let mut p = NaiveShuffle::new(3);
    for i in 0..10 {
        p.register(BackendId(i), Health::Up);
    }
    let mut seen = BTreeSet::new();
    for _ in 0..1000 {
        seen.insert(p.pick(TenantId(7)).unwrap());
    }
    assert!(seen.len() <= 3);
}

#[test]
fn drain_aware_shard_containment() {
    let mut p = DrainAwareShuffle::new(5);
    for i in 0..30 {
        p.register(BackendId(i), Health::Up);
    }
    let mut seen = BTreeSet::new();
    for _ in 0..1000 {
        seen.insert(p.pick(TenantId(3)).unwrap());
    }
    assert!(seen.len() <= 5);
}

#[test]
fn drain_aware_skips_draining_and_down() {
    let mut p = DrainAwareShuffle::new(3);
    p.register(BackendId(0), Health::Draining);
    p.register(BackendId(1), Health::Down);
    p.register(BackendId(2), Health::Up);
    for _ in 0..20 {
        assert_eq!(p.pick(TenantId(5)), Some(BackendId(2)));
    }
    p.register(BackendId(2), Health::Draining);
    assert_eq!(p.pick(TenantId(5)), None);
}

#[test]
fn block_picker_shard_containment() {
    let mut p = BlockPicker::new(5);
    for i in 0..30 {
        p.register(BackendId(i), Health::Up);
    }
    let mut seen = BTreeSet::new();
    for _ in 0..1000 {
        seen.insert(p.pick(TenantId(11)).unwrap());
    }
    assert!(seen.len() <= 5);
}

#[test]
fn block_picker_small_fleet_returns_none() {
    let mut p = BlockPicker::new(5);
    for i in 0..4 {
        p.register(BackendId(i), Health::Up);
    }
    assert_eq!(p.pick(TenantId(0)), None);
}

#[test]
fn block_picker_tail_unreachable() {
    // 7 backends with 5 blocks: bucket size 1, so ids 5 and 6 never serve.
    let mut p = BlockPicker::new(5);
    for i in 0..7 {
        p.register(BackendId(i), Health::Up);
    }
    for t in 0..50 {
        for _ in 0..20 {
            let b = p.pick(TenantId(t)).unwrap();
            assert!(b.0 < 5);
        }
    }
}

#[test]
fn rendevouz_single_choice_per_tenant() {
    let mut p = Rendevouz::new(3);
    for i in 0..10 {
        p.register(BackendId(i), Health::Up);
    }
    let first = p.pick(TenantId(77)).unwrap();
    for _ in 0..100 {
        assert_eq!(p.pick(TenantId(77)), Some(first));
    }
    // Different tenants land on different backends at least once.
    let mut seen = BTreeSet::new();
    for t in 0..20 {
        seen.insert(p.pick(TenantId(t)).unwrap());
    }
    assert!(seen.len() > 1);
}

#[test]
fn rendevouz_falls_over_when_choice_dies() {
    let mut p = Rendevouz::new(3);
    for i in 0..10 {
        p.register(BackendId(i), Health::Up);
    }
    let first = p.pick(TenantId(4)).unwrap();
    p.register(first, Health::Down);
    let second = p.pick(TenantId(4)).unwrap();
    assert_ne!(first, second);
    p.register(first, Health::Up);
    assert_eq!(p.pick(TenantId(4)), Some(first));
}

#[test]
fn rendevouz_none_without_healthy() {
    let mut p = Rendevouz::new(3);
    assert_eq!(p.pick(TenantId(0)), None);
    p.register(BackendId(0), Health::Down);
    p.register(BackendId(1), Health::Draining);
    assert_eq!(p.pick(TenantId(0)), None);
}

#[test]
fn rendevouz_shuffle_shard_containment() {
    let mut p = RendevouzShuffle::new(6);
    for i in 0..30 {
        p.register(BackendId(i), Health::Up);
    }
    let mut seen = BTreeSet::new();
    for _ in 0..2000 {
        seen.insert(p.pick(TenantId(9)).unwrap());
    }
    assert!(seen.len() <= 6);
    // With 2000 draws the whole shard has almost surely been seen.
    assert_eq!(seen.len(), 6);
}

#[test]
fn rendevouz_shuffle_draining_means_removal() {
    let mut p = AnyPicker::new(PickerKind::RendevouzShuffle, 2);
    p.register(BackendId(0), Health::Up);
    p.register(BackendId(1), Health::Up);
    assert!(p.can_pick());
    // Draining removes the backend from the scoring set entirely.
    p.register(BackendId(1), Health::Draining);
    assert!(!p.can_pick());
    p.register(BackendId(1), Health::Up);
    assert!(p.can_pick());
}

#[test]
fn rendevouz_shuffle_skips_down_members() {
    let mut p = RendevouzShuffle::new(3);
    for i in 0..3 {
        p.register(BackendId(i), Health::Up);
    }
    // The shard is the whole fleet; down two members and only the third may
    // be returned.
    p.register(BackendId(0), Health::Down);
    p.register(BackendId(1), Health::Down);
    for _ in 0..20 {
        assert_eq!(p.pick(TenantId(1)), Some(BackendId(2)));
    }
    p.register(BackendId(2), Health::Down);
    assert_eq!(p.pick(TenantId(1)), None);
}
