use std::collections::BTreeMap;
use std::collections::BTreeSet;

use flexss::harness::{
    health_aware, isolation_penalty, load_distribution, poison_pill, recycle_blast_radius,
    rolling_restart_blast_radius, tally_picks, unaligned_rolling_restart, AnyPicker, PickerKind,
    SimError,
};
use flexss::naive_shuffle::NaiveShuffle;
use flexss::{BackendId, Health, Picker, TenantId};

#[test]
fn oracle_smoke() {
    let mut p = NaiveShuffle::new(3);
    for i in 0..10 {
        p.register(BackendId(i), Health::Up);
    }
    assert_eq!(p.pick(TenantId(42)), Some(BackendId(4)));
}

#[test]
fn load_balance_stability() {
    let mut p = NaiveShuffle::new(3);
    for i in 0..10 {
        p.register(BackendId(i), Health::Up);
    }
    let mut tally: BTreeMap<BackendId, u64> = BTreeMap::new();
    for _ in 0..1000 {
        let b = p.pick(TenantId(42)).unwrap();
        *tally.entry(b).or_default() += 1;
    }
    assert_eq!(tally.len(), 3);
    let mut counts: Vec<u64> = tally.values().copied().collect();
    counts.sort();
    assert_eq!(counts, vec![325, 332, 343]);
}

#[test]
fn tenant_isolation() {
    let mut p = NaiveShuffle::new(3);
    for i in 0..10 {
        p.register(BackendId(i), Health::Up);
    }
    let mut shard1: BTreeSet<BackendId> = BTreeSet::new();
    let mut shard2: BTreeSet<BackendId> = BTreeSet::new();
    for _ in 0..1000 {
        shard1.insert(p.pick(TenantId(1)).unwrap());
    }
    for _ in 0..1000 {
        shard2.insert(p.pick(TenantId(2)).unwrap());
    }
    assert_eq!(shard1.len(), 3);
    assert_eq!(shard2.len(), 3);
    assert_eq!(shard1.intersection(&shard2).count(), 1);
}

#[test]
fn poison_pill_block_picker() {
    // After a thousand poisoning picks by one tenant, strictly fewer than all
    // thirty backends are down.
    let up_remaining = poison_pill(PickerKind::BlockPicker).unwrap();
    assert!(up_remaining > 0);
}

#[test]
fn recycle_blast_radius_rendevouz_shuffle() {
    let touched = recycle_blast_radius(PickerKind::RendevouzShuffle).unwrap();
    assert!(touched <= 30);
}

#[test]
fn drain_aware_rolling() {
    assert_eq!(unaligned_rolling_restart(PickerKind::DrainAwareShuffle), Ok(()));
}

#[test]
fn health_aware_outcomes() {
    assert_eq!(health_aware(PickerKind::RoundRobin), Ok(()));
    assert_eq!(health_aware(PickerKind::BlockPicker), Ok(()));
    assert_eq!(health_aware(PickerKind::Rendevouz), Ok(()));
    assert_eq!(health_aware(PickerKind::RendevouzShuffle), Ok(()));
    assert_eq!(health_aware(PickerKind::DrainAwareShuffle), Ok(()));
    // NaiveShuffle stores no health at all: the known-down backend stays in
    // some tenants' shards and is eventually returned.
    assert_eq!(health_aware(PickerKind::NaiveShuffle), Err(SimError::UnhealthyRoute));
}

#[test]
fn poison_pill_outcomes() {
    // Tenant-sharded pickers confine the poison to one shard.
    assert!(poison_pill(PickerKind::NaiveShuffle).unwrap() > 0);
    assert!(poison_pill(PickerKind::DrainAwareShuffle).unwrap() > 0);
    assert!(poison_pill(PickerKind::BlockPicker).unwrap() > 0);
    assert!(poison_pill(PickerKind::RendevouzShuffle).unwrap() > 0);
    // The tenant-agnostic pickers let one tenant drain everything.
    assert_eq!(poison_pill(PickerKind::RoundRobin).unwrap(), 0);
    assert_eq!(poison_pill(PickerKind::Rendevouz).unwrap(), 0);
}

#[test]
fn load_distribution_outcomes() {
    // Every backend should receive at least 20% of the fair share of
    // 100 tenants * 100 picks / 50 backends = 200.
    assert!(load_distribution(PickerKind::RoundRobin).unwrap() >= 40);
    assert!(load_distribution(PickerKind::NaiveShuffle).unwrap() >= 40);
    assert!(load_distribution(PickerKind::BlockPicker).unwrap() >= 40);
    assert!(load_distribution(PickerKind::RendevouzShuffle).unwrap() >= 40);
    // A tenant's single rendezvous choice starves the unlucky backends.
    assert!(load_distribution(PickerKind::Rendevouz).unwrap() < 40);
}

#[test]
fn unaligned_rolling_restart_outcomes() {
    assert_eq!(unaligned_rolling_restart(PickerKind::RoundRobin), Ok(()));
    assert_eq!(unaligned_rolling_restart(PickerKind::Rendevouz), Ok(()));
    assert_eq!(unaligned_rolling_restart(PickerKind::RendevouzShuffle), Ok(()));
    // NaiveShuffle cannot tell a drain from anything else and walks into it;
    // BlockPicker's blocks are unaligned with the drained third, so some
    // tenant finds all of its slots draining.
    assert!(unaligned_rolling_restart(PickerKind::NaiveShuffle).is_err());
    assert!(unaligned_rolling_restart(PickerKind::BlockPicker).is_err());
}

#[test]
fn rolling_restart_blast_radius_outcomes() {
    // A full rolling deploy should not let one tenant touch more than half
    // the fleet of thirty.
    assert!(rolling_restart_blast_radius(PickerKind::NaiveShuffle).unwrap() <= 15);
    assert!(rolling_restart_blast_radius(PickerKind::BlockPicker).unwrap() <= 15);
    assert!(rolling_restart_blast_radius(PickerKind::Rendevouz).unwrap() <= 15);
    assert!(rolling_restart_blast_radius(PickerKind::RendevouzShuffle).unwrap() <= 15);
    // The cursor sweeps everything, and the drain-aware shuffle sprawls on
    // purpose.
    assert!(rolling_restart_blast_radius(PickerKind::RoundRobin).unwrap() > 15);
    assert!(rolling_restart_blast_radius(PickerKind::DrainAwareShuffle).unwrap() > 15);
}

#[test]
fn recycle_blast_radius_outcomes() {
    // Only the rendezvous-based pickers survive a full recycle with a blast
    // radius no larger than the initial fleet size.
    assert!(recycle_blast_radius(PickerKind::Rendevouz).unwrap() <= 30);
    assert!(recycle_blast_radius(PickerKind::RendevouzShuffle).unwrap() <= 30);
    assert!(recycle_blast_radius(PickerKind::RoundRobin).unwrap() > 30);
    assert!(recycle_blast_radius(PickerKind::NaiveShuffle).unwrap() > 30);
    assert!(recycle_blast_radius(PickerKind::DrainAwareShuffle).unwrap() > 30);
    assert!(recycle_blast_radius(PickerKind::BlockPicker).unwrap() > 30);
}

#[test]
fn determinism_across_runs() {
    // Identical registration sequence, identical seed: bit-identical picks.
    let kinds = [
        PickerKind::RoundRobin,
        PickerKind::NaiveShuffle,
        PickerKind::DrainAwareShuffle,
        PickerKind::BlockPicker,
        PickerKind::Rendevouz,
        PickerKind::RendevouzShuffle,
    ];
    for kind in kinds {
        let run = |(): ()| -> Vec<Option<BackendId>> {
            let mut p = AnyPicker::new(kind, 5);
            for i in 0..20 {
                p.register(BackendId(i), Health::Up);
            }
            let mut out = Vec::new();
            for t in 0..10 {
                for _ in 0..20 {
                    assert!(p.can_pick());
                    out.push(p.pick(TenantId(t)));
                }
            }
            out
        };
        assert_eq!(run(()), run(()));
    }
}

#[test]
fn tally_picks_oracle() {
    let mut p = AnyPicker::new(PickerKind::NaiveShuffle, 3);
    for i in 0..10 {
        p.register(BackendId(i), Health::Up);
    }
    let tally = tally_picks(&mut p, TenantId(42), 1000).unwrap();
    assert_eq!(tally.len(), 3);
    let total: u64 = tally.iter().map(|e| e.1).sum();
    assert_eq!(total, 1000);
}

#[test]
fn fleet_too_small_reported() {
    let mut p = AnyPicker::new(PickerKind::RendevouzShuffle, 6);
    for i in 0..3 {
        p.register(BackendId(i), Health::Up);
    }
    assert!(!p.can_pick());
    assert_eq!(tally_picks(&mut p, TenantId(0), 1), Err(SimError::FleetTooSmall));
}

#[test]
fn no_route_reported() {
    let mut p = AnyPicker::new(PickerKind::RoundRobin, 5);
    for i in 0..4 {
        p.register(BackendId(i), Health::Down);
    }
    assert_eq!(tally_picks(&mut p, TenantId(0), 1), Err(SimError::NoRoute));
}

#[test]
fn isolation_penalty_concrete() {
    // Two shards sharing one backend: one point in each direction.
    let shards: Vec<Vec<u64>> = vec![vec![1, 2, 3], vec![3, 4, 5]];
    assert_eq!(isolation_penalty(&shards), 2);
    // Sharing two backends costs ten per direction; disjoint shards nothing.
    let shards2: Vec<Vec<u64>> = vec![vec![1, 2, 3], vec![2, 3, 4], vec![7, 8, 9]];
    assert_eq!(isolation_penalty(&shards2), 20);
}

#[test]
fn tally_picks_sums_and_sorts() {
    let mut p = AnyPicker::new(PickerKind::RoundRobin, 3);
    for i in 0..5 {
        p.register(BackendId(i), Health::Up);
    }
    let tally = tally_picks(&mut p, TenantId(0), 500).unwrap();
    let total: u64 = tally.iter().map(|e| e.1).sum();
    assert_eq!(total, 500);
    for w in tally.windows(2) {
        assert!(w[0].0 < w[1].0);
    }
}
