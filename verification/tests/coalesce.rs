use std::collections::BTreeSet;
use track::coalesce::{merge_arb_track_requests_updates, merge_momentum_active_pools_updates};
use track::nats::{
    ArbTrackActiveEntry, ArbTrackActiveReason, ArbTrackRemovedEntry, ArbTrackRequestsUpdate,
    MomentumActivePinReason, MomentumActivePoolEntry, MomentumActivePoolsUpdate,
    MomentumRemovedPoolEntry,
};

#[test]
fn merge_momentum_active_pools_prefers_position_over_tracker() {
    let merged = merge_momentum_active_pools_updates(&[
        MomentumActivePoolsUpdate {
            version: 1,
            ts_unix_ms: 1,
            active: vec![MomentumActivePoolEntry {
                mint: "m".into(),
                pool: "p".into(),
                pin_reason: MomentumActivePinReason::Tracker,
            }],
            removed: vec![],
            full_active_snapshot: false,
        },
        MomentumActivePoolsUpdate {
            version: 1,
            ts_unix_ms: 2,
            active: vec![MomentumActivePoolEntry {
                mint: "m".into(),
                pool: "p".into(),
                pin_reason: MomentumActivePinReason::Position,
            }],
            removed: vec![],
            full_active_snapshot: false,
        },
    ])
    .expect("merged");
    assert_eq!(merged.active.len(), 1);
    assert_eq!(
        merged.active[0].pin_reason,
        MomentumActivePinReason::Position
    );
}

fn active(pool: &str, pin_reason: MomentumActivePinReason) -> MomentumActivePoolEntry {
    MomentumActivePoolEntry {
        mint: "m".into(),
        pool: pool.into(),
        pin_reason,
    }
}

fn removed(pool: &str) -> MomentumRemovedPoolEntry {
    MomentumRemovedPoolEntry {
        mint: "m".into(),
        pool: pool.into(),
    }
}

fn momentum(
    version: u32,
    ts_unix_ms: u64,
    active: Vec<MomentumActivePoolEntry>,
    removed: Vec<MomentumRemovedPoolEntry>,
    full_active_snapshot: bool,
) -> MomentumActivePoolsUpdate {
    MomentumActivePoolsUpdate {
        version,
        ts_unix_ms,
        active,
        removed,
        full_active_snapshot,
    }
}

fn arb(active: &[&str], removed: &[&str], reconcile: bool) -> ArbTrackRequestsUpdate {
    ArbTrackRequestsUpdate {
        version: 1,
        ts_unix_ms: 1,
        active: active
            .iter()
            .map(|pool| ArbTrackActiveEntry {
                pool: (*pool).into(),
                reason: ArbTrackActiveReason::Baseline,
            })
            .collect(),
        removed: removed
            .iter()
            .map(|pool| ArbTrackRemovedEntry {
                pool: (*pool).into(),
            })
            .collect(),
        reconcile,
    }
}

/// The pools that are tracked after an update.
fn apply_arb(pools: &BTreeSet<String>, update: &ArbTrackRequestsUpdate) -> BTreeSet<String> {
    let mut after = if update.reconcile {
        BTreeSet::new()
    } else {
        pools.clone()
    };
    for entry in &update.removed {
        after.remove(&entry.pool);
    }
    for entry in &update.active {
        after.insert(entry.pool.clone());
    }
    after
}

#[test]
fn nothing_merges_to_nothing() {
    assert_eq!(merge_momentum_active_pools_updates(&[]), None);
    assert_eq!(merge_arb_track_requests_updates(&[]), None);
}

#[test]
fn merge_keeps_the_latest_version_and_time() {
    let merged = merge_momentum_active_pools_updates(&[
        momentum(4, 10, vec![], vec![], false),
        momentum(2, 30, vec![], vec![], false),
        momentum(3, 20, vec![], vec![], false),
    ])
    .expect("merged");
    assert_eq!(merged, momentum(4, 30, vec![], vec![], false));
}

#[test]
fn later_tracker_pin_does_not_downgrade_a_position() {
    let merged = merge_momentum_active_pools_updates(&[
        momentum(
            1,
            1,
            vec![active("p", MomentumActivePinReason::Position)],
            vec![],
            false,
        ),
        momentum(
            1,
            2,
            vec![active("p", MomentumActivePinReason::Tracker)],
            vec![],
            false,
        ),
    ])
    .expect("merged");
    assert_eq!(
        merged.active,
        vec![active("p", MomentumActivePinReason::Position)]
    );
}

#[test]
fn removal_between_forgets_the_position() {
    let merged = merge_momentum_active_pools_updates(&[
        momentum(
            1,
            1,
            vec![active("p", MomentumActivePinReason::Position)],
            vec![],
            false,
        ),
        momentum(
            1,
            2,
            vec![active("p", MomentumActivePinReason::Tracker)],
            vec![removed("p")],
            false,
        ),
    ])
    .expect("merged");
    assert_eq!(
        merged.active,
        vec![active("p", MomentumActivePinReason::Tracker)]
    );
    assert_eq!(merged.removed, vec![]);
}

#[test]
fn full_update_replaces_what_was_active_and_keeps_what_was_removed() {
    let merged = merge_momentum_active_pools_updates(&[
        momentum(
            1,
            1,
            vec![active("a", MomentumActivePinReason::Position)],
            vec![removed("gone")],
            false,
        ),
        momentum(
            1,
            2,
            vec![active("b", MomentumActivePinReason::Tracker)],
            vec![],
            true,
        ),
    ])
    .expect("merged");
    assert_eq!(
        merged,
        momentum(
            1,
            2,
            vec![active("b", MomentumActivePinReason::Tracker)],
            vec![removed("gone")],
            true
        )
    );
}

#[test]
fn pool_is_never_both_active_and_removed() {
    let merged = merge_arb_track_requests_updates(&[
        arb(&["a", "b"], &["c"], false),
        arb(&["c"], &["a"], false),
    ])
    .expect("merged");
    let on: BTreeSet<&str> = merged.active.iter().map(|e| e.pool.as_str()).collect();
    let off: BTreeSet<&str> = merged.removed.iter().map(|e| e.pool.as_str()).collect();
    assert_eq!(on, ["b", "c"].into_iter().collect());
    assert_eq!(off, ["a"].into_iter().collect());
}

#[test]
fn merge_has_the_effect_of_applying_in_turn() {
    let bursts = [
        vec![
            arb(&["a"], &["b"], false),
            arb(&["b"], &["a"], false),
            arb(&["d"], &[], false),
        ],
        vec![
            arb(&["a", "c"], &[], false),
            arb(&["e"], &["c"], true),
            arb(&[], &["e"], false),
        ],
        vec![arb(&["x"], &["x"], false)],
    ];
    let starts: [&[&str]; 3] = [&[], &["a", "b", "e"], &["x", "c"]];
    for burst in &bursts {
        let merged = merge_arb_track_requests_updates(burst).expect("merged");
        for start in starts {
            let pools: BTreeSet<String> = start.iter().map(|pool| (*pool).into()).collect();
            let in_turn = burst
                .iter()
                .fold(pools.clone(), |pools, update| apply_arb(&pools, update));
            assert_eq!(apply_arb(&pools, &merged), in_turn);
        }
    }
}

fn by_pool(mut update: MomentumActivePoolsUpdate) -> MomentumActivePoolsUpdate {
    update.active.sort_by(|a, b| a.pool.cmp(&b.pool));
    update.removed.sort_by(|a, b| a.pool.cmp(&b.pool));
    update
}

#[test]
fn merging_in_two_goes_comes_to_the_same_as_at_once() {
    let position = MomentumActivePinReason::Position;
    let tracker = MomentumActivePinReason::Tracker;
    for full in [false, true] {
        let burst = [
            momentum(1, 10, vec![active("a", position), active("b", tracker)], vec![], false),
            momentum(3, 20, vec![active("c", tracker)], vec![removed("b"), removed("d")], full),
            momentum(2, 40, vec![active("a", tracker), active("d", tracker)], vec![], false),
            momentum(2, 30, vec![active("b", position)], vec![removed("c")], false),
        ];
        let at_once = merge_momentum_active_pools_updates(&burst).expect("merged");
        for split in 1..burst.len() {
            let head = merge_momentum_active_pools_updates(&burst[..split]).expect("merged");
            let mut rest = vec![head];
            rest.extend(burst[split..].iter().cloned());
            let in_turn = merge_momentum_active_pools_updates(&rest).expect("merged");
            assert_eq!(by_pool(in_turn), by_pool(at_once.clone()));
        }
    }
}
