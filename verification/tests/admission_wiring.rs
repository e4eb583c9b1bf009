use track::admission_wiring::{
    AdmissionConvergeResult, AdmissionRestoreResult, admit_or_replace, apply_cap_shrink,
    converge_admission_from_groups, explicit_owner_from_row, merge_admission_tracker_owner_groups,
    restore_admission_from_owner_groups,
};
use track::desired_set::ConsumerId;
use track::explicit_admission::{CapShrinkResult, FixedCapAdmission};
use track::explicit_ownership::{
    ExplicitConsumer, ExplicitOwner, ExplicitOwnerKey, OwnerGroupSnapshot,
};
use track::pubkey::Pubkey;

fn unique() -> Pubkey {
    Pubkey::new_from_array(solana_sdk::pubkey::Pubkey::new_unique().to_bytes())
}

fn pool_owner(consumer: ExplicitConsumer, pool: Pubkey) -> ExplicitOwner {
    ExplicitOwner {
        consumer,
        owner_key: ExplicitOwnerKey::Pool(pool),
    }
}

#[test]
fn wallet_over_cap_restore_fail_closed() {
    let mut admission = FixedCapAdmission::new(2);
    let groups = vec![OwnerGroupSnapshot {
        consumer: ExplicitConsumer::Wallet,
        owner_key: ExplicitOwnerKey::Wallet,
        pubkeys: vec![
            unique(),
            unique(),
            unique(),
        ],
    }];
    assert_eq!(
        restore_admission_from_owner_groups(&mut admission, &groups),
        AdmissionRestoreResult::ProtectedOverflow
    );
}

#[test]
fn converge_wallet_mint_row() {
    let mut admission = FixedCapAdmission::new(25_000);
    let mint = unique();
    let owner = explicit_owner_from_row(ConsumerId::Wallet, None, mint);
    assert_eq!(
        converge_admission_from_groups(&mut admission, &[(owner, vec![mint])]),
        AdmissionConvergeResult::Converged
    );
    assert_eq!(admission.len(), 1);
}

#[test]
fn converge_preserves_restored_tracker_when_ctx_has_arb_same_pool() {
    let mut admission = FixedCapAdmission::new(20);
    let pool = unique();
    let tracker_pk = unique();
    let arb_pk = unique();
    let tracker_owner = pool_owner(ExplicitConsumer::Tracker, pool);
    assert!(admit_or_replace(
        &mut admission,
        tracker_owner.clone(),
        vec![tracker_pk]
    ));

    let arb_owner = pool_owner(ExplicitConsumer::Arb, pool);
    let mut authoritative = vec![(arb_owner, vec![arb_pk])];
    merge_admission_tracker_owner_groups(&admission, &mut authoritative);
    assert_eq!(
        converge_admission_from_groups(&mut admission, &authoritative),
        AdmissionConvergeResult::Converged
    );
    assert!(admission.owner_group(&tracker_owner).is_some());
    assert!(admission.contains(&tracker_pk));
    assert!(admission.contains(&arb_pk));
}

#[test]
fn converge_removes_stale_owner() {
    let mut admission = FixedCapAdmission::new(10);
    let stale_pool = unique();
    let stale_pk = unique();
    assert!(admit_or_replace(
        &mut admission,
        pool_owner(ExplicitConsumer::Momentum, stale_pool),
        vec![stale_pk]
    ));
    assert!(admission.contains(&stale_pk));
    assert_eq!(
        converge_admission_from_groups(&mut admission, &[]),
        AdmissionConvergeResult::Converged
    );
    assert!(!admission.contains(&stale_pk));
}

#[test]
fn restore_brings_back_the_groups_of_a_snapshot() {
    let shared = unique();
    let mut admission = FixedCapAdmission::new(5);
    for (consumer, own) in [
        (ExplicitConsumer::Momentum, unique()),
        (ExplicitConsumer::Arb, unique()),
        (ExplicitConsumer::Tracker, unique()),
    ] {
        assert!(admit_or_replace(
            &mut admission,
            pool_owner(consumer, unique()),
            vec![shared, own]
        ));
    }
    let saved = admission.snapshot_owner_groups();
    let mut restored = FixedCapAdmission::new(5);
    assert!(admit_or_replace(
        &mut restored,
        pool_owner(ExplicitConsumer::Arb, unique()),
        vec![unique()]
    ));
    assert_eq!(
        restore_admission_from_owner_groups(&mut restored, &saved),
        AdmissionRestoreResult::Restored
    );
    assert_eq!(restored.snapshot_owner_groups(), saved);
    assert_eq!(restored.owner_refcount(&shared), 3);
}

#[test]
fn restore_of_more_than_fits_is_partial_or_refused() {
    let mut admission = FixedCapAdmission::new(1);
    let groups = vec![
        OwnerGroupSnapshot {
            consumer: ExplicitConsumer::Wallet,
            owner_key: ExplicitOwnerKey::Wallet,
            pubkeys: vec![unique()],
        },
        OwnerGroupSnapshot {
            consumer: ExplicitConsumer::Momentum,
            owner_key: ExplicitOwnerKey::Pool(unique()),
            pubkeys: vec![unique()],
        },
    ];
    assert_ne!(
        restore_admission_from_owner_groups(&mut admission, &groups),
        AdmissionRestoreResult::Restored
    );
    assert!(admission.len() <= 1);
}

#[test]
fn converge_leaves_only_what_is_asked_for() {
    let mut admission = FixedCapAdmission::new(4);
    let kept = pool_owner(ExplicitConsumer::Momentum, unique());
    let key = unique();
    assert!(admit_or_replace(&mut admission, kept, vec![unique(), key]));
    assert!(admit_or_replace(
        &mut admission,
        pool_owner(ExplicitConsumer::Arb, unique()),
        vec![unique()]
    ));
    assert_eq!(
        converge_admission_from_groups(&mut admission, &[(kept, vec![key])]),
        AdmissionConvergeResult::Converged
    );
    assert_eq!(admission.snapshot_pubkeys(), vec![key]);
    assert_eq!(admission.snapshot_owner_groups().len(), 1);
}

#[test]
fn smaller_cap_lets_the_least_protected_go() {
    let mut admission = FixedCapAdmission::new(3);
    let wallet = ExplicitOwner {
        consumer: ExplicitConsumer::Wallet,
        owner_key: ExplicitOwnerKey::Wallet,
    };
    let wallet_key = unique();
    let tracker = pool_owner(ExplicitConsumer::Tracker, unique());
    let tracker_key = unique();
    let momentum = pool_owner(ExplicitConsumer::Momentum, unique());
    assert!(admit_or_replace(&mut admission, momentum, vec![unique()]));
    assert!(admit_or_replace(&mut admission, tracker, vec![tracker_key]));
    assert!(admit_or_replace(&mut admission, wallet, vec![wallet_key]));
    assert_eq!(
        apply_cap_shrink(&mut admission, 3),
        CapShrinkResult::NoOpAlreadyWithinCap {
            old_cap: 3,
            new_cap: 3
        }
    );
    assert_eq!(
        apply_cap_shrink(&mut admission, 2),
        CapShrinkResult::Shrunk {
            old_cap: 3,
            new_cap: 2,
            victims: vec![tracker],
            physical_removed: vec![tracker_key],
        }
    );
    assert_eq!(
        apply_cap_shrink(&mut admission, 0),
        CapShrinkResult::RejectedProtected {
            required_to_free: 2
        }
    );
    assert_eq!(admission.cap(), 2);
    assert_eq!(admission.len(), 2);
}

#[test]
fn converging_leaves_just_the_listed_addresses() {
    let mut admission = FixedCapAdmission::new(20);
    let kept = pool_owner(ExplicitConsumer::Arb, unique());
    let changed = pool_owner(ExplicitConsumer::Momentum, unique());
    let unlisted = pool_owner(ExplicitConsumer::Tracker, unique());
    let (a, b, c, d) = (unique(), unique(), unique(), unique());
    for (owner, keys) in [
        (kept.clone(), vec![a]),
        (changed.clone(), vec![b]),
        (unlisted.clone(), vec![c]),
    ] {
        assert!(admit_or_replace(&mut admission, owner, keys));
    }
    assert_eq!(
        converge_admission_from_groups(
            &mut admission,
            &[(changed.clone(), vec![d, a, d]), (kept.clone(), vec![])]
        ),
        AdmissionConvergeResult::Converged
    );
    let mut expected = vec![a, d];
    expected.sort();
    assert_eq!(admission.owner_group(&changed).unwrap().to_vec(), expected);
    assert_eq!(admission.owner_group(&kept).unwrap().to_vec(), vec![a]);
    assert!(admission.owner_group(&unlisted).is_none());
    assert_eq!(admission.len(), 2);
}
