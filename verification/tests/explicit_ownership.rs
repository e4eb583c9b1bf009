use track::explicit_ownership::{
    EmptyOwnerGroupError, ExplicitConsumer, ExplicitOwner, ExplicitOwnerKey, ExplicitOwnership,
    GroupChange, OwnerGroupSnapshot,
};
use track::pubkey::Pubkey;
use std::collections::BTreeMap;

fn pk(seed: u8) -> Pubkey {
    Pubkey::new_from_array([seed; 32])
}

fn pool_owner(consumer: ExplicitConsumer, seed: u8) -> ExplicitOwner {
    ExplicitOwner {
        consumer,
        owner_key: ExplicitOwnerKey::Pool(pk(seed)),
    }
}

fn wallet_owner() -> ExplicitOwner {
    ExplicitOwner {
        consumer: ExplicitConsumer::Wallet,
        owner_key: ExplicitOwnerKey::Wallet,
    }
}

#[test]
fn deduplicates_pubkeys_within_group() {
    let mut ownership = ExplicitOwnership::new();
    let owner = pool_owner(ExplicitConsumer::Momentum, 1);
    let a = pk(10);
    let change = ownership
        .upsert_group(owner.clone(), vec![a, a, pk(11)])
        .unwrap();
    assert!(matches!(change, GroupChange::NewGroup { .. }));
    assert_eq!(ownership.owner_group(&owner), Some([a, pk(11)].as_slice()));
}

#[test]
fn explicit_ownership_shared_pubkey_survives_single_owner_removal() {
    let mut ownership = ExplicitOwnership::new();
    let shared = pk(1);
    let owner_a = pool_owner(ExplicitConsumer::Momentum, 1);
    let owner_b = pool_owner(ExplicitConsumer::Arb, 2);
    ownership.upsert_group(owner_a.clone(), vec![shared]).unwrap();
    ownership.upsert_group(owner_b.clone(), vec![shared]).unwrap();
    assert_eq!(ownership.owner_refcount(&shared), 2);

    ownership.remove_group(&owner_a);
    assert!(ownership.contains(&shared));
    assert_eq!(ownership.owner_refcount(&shared), 1);
    assert_eq!(ownership.len(), 1);
}

#[test]
fn last_owner_removes_pubkey_physically() {
    let mut ownership = ExplicitOwnership::new();
    let shared = pk(1);
    let owner = pool_owner(ExplicitConsumer::Momentum, 1);
    ownership.upsert_group(owner.clone(), vec![shared]).unwrap();
    ownership.remove_group(&owner);
    assert!(!ownership.contains(&shared));
    assert!(ownership.is_empty());
}

#[test]
fn same_consumer_different_pools_are_distinct_owners() {
    let mut ownership = ExplicitOwnership::new();
    let pool_a = pool_owner(ExplicitConsumer::Momentum, 1);
    let pool_b = pool_owner(ExplicitConsumer::Momentum, 2);
    ownership.upsert_group(pool_a.clone(), vec![pk(10)]).unwrap();
    ownership.upsert_group(pool_b.clone(), vec![pk(11)]).unwrap();
    assert_eq!(ownership.snapshot_owner_groups().len(), 2);
    assert_ne!(pool_a, pool_b);
}

#[test]
fn same_pool_different_consumers_are_distinct_owners() {
    let mut ownership = ExplicitOwnership::new();
    let pool = pk(5);
    let momentum = ExplicitOwner {
        consumer: ExplicitConsumer::Momentum,
        owner_key: ExplicitOwnerKey::Pool(pool),
    };
    let arb = ExplicitOwner {
        consumer: ExplicitConsumer::Arb,
        owner_key: ExplicitOwnerKey::Pool(pool),
    };
    ownership.upsert_group(momentum.clone(), vec![pk(10)]).unwrap();
    ownership.upsert_group(arb.clone(), vec![pk(11)]).unwrap();
    assert_eq!(ownership.snapshot_owner_groups().len(), 2);
}

#[test]
fn idempotent_reupsert_is_unchanged() {
    let mut ownership = ExplicitOwnership::new();
    let owner = pool_owner(ExplicitConsumer::Tracker, 9);
    let keys = [pk(1), pk(2)];
    ownership.upsert_group(owner.clone(), keys.to_vec()).unwrap();
    let before_pubkeys = ownership.snapshot_pubkeys();
    let change = ownership.upsert_group(owner.clone(), keys.to_vec()).unwrap();
    assert_eq!(change, GroupChange::Unchanged);
    assert_eq!(ownership.snapshot_pubkeys(), before_pubkeys);
}

#[test]
fn replacement_reports_exact_physical_deltas() {
    let mut ownership = ExplicitOwnership::new();
    let owner = pool_owner(ExplicitConsumer::Momentum, 1);
    let k1 = pk(1);
    let k2 = pk(2);
    let k3 = pk(3);
    ownership.upsert_group(owner.clone(), vec![k1, k2]).unwrap();
    let change = ownership.upsert_group(owner.clone(), vec![k2, k3]).unwrap();
    assert_eq!(
        change,
        GroupChange::Replaced {
            physical_added: vec![k3],
            physical_removed: vec![k1],
        }
    );
    assert_eq!(ownership.snapshot_pubkeys(), vec![k2, k3]);
}

#[test]
fn replacement_with_shared_pubkey_does_not_remove_physically() {
    let mut ownership = ExplicitOwnership::new();
    let shared = pk(1);
    let owner_a = pool_owner(ExplicitConsumer::Momentum, 1);
    let owner_b = pool_owner(ExplicitConsumer::Arb, 2);
    ownership
        .upsert_group(owner_a.clone(), vec![shared, pk(2)])
        .unwrap();
    ownership.upsert_group(owner_b.clone(), vec![shared]).unwrap();

    let change = ownership.upsert_group(owner_a.clone(), vec![pk(3)]).unwrap();
    assert_eq!(
        change,
        GroupChange::Replaced {
            physical_added: vec![pk(3)],
            physical_removed: vec![pk(2)],
        }
    );
    assert!(ownership.contains(&shared));
    assert_eq!(ownership.owner_refcount(&shared), 1);
}

#[test]
fn empty_group_is_invalid_and_mutates_nothing() {
    let mut ownership = ExplicitOwnership::new();
    let owner = wallet_owner();
    assert!(matches!(
        ownership.upsert_group(owner.clone(), vec![]),
        Err(EmptyOwnerGroupError)
    ));
    assert!(ownership.is_empty());
    ownership.upsert_group(owner.clone(), vec![pk(1)]).unwrap();
    assert!(matches!(
        ownership.upsert_group(owner.clone(), vec![]),
        Err(EmptyOwnerGroupError)
    ));
    assert_eq!(ownership.len(), 1);
}

#[test]
fn snapshot_order_is_deterministic() {
    let mut ownership = ExplicitOwnership::new();
    let o3 = pool_owner(ExplicitConsumer::Arb, 3);
    let o1 = pool_owner(ExplicitConsumer::Momentum, 1);
    let o2 = pool_owner(ExplicitConsumer::Momentum, 2);
    ownership.upsert_group(o3.clone(), vec![pk(30)]).unwrap();
    ownership.upsert_group(o1.clone(), vec![pk(10)]).unwrap();
    ownership.upsert_group(o2.clone(), vec![pk(20)]).unwrap();

    let groups = ownership.snapshot_owner_groups();
    let consumers: Vec<_> = groups.iter().map(|g| g.consumer).collect();
    assert_eq!(
        consumers,
        [
            ExplicitConsumer::Momentum,
            ExplicitConsumer::Momentum,
            ExplicitConsumer::Arb,
        ]
    );

    let mut ownership2 = ExplicitOwnership::new();
    ownership2.upsert_group(o1.clone(), vec![pk(10)]).unwrap();
    ownership2.upsert_group(o3.clone(), vec![pk(30)]).unwrap();
    ownership2.upsert_group(o2.clone(), vec![pk(20)]).unwrap();
    assert_eq!(
        ownership.snapshot_owner_groups(),
        ownership2.snapshot_owner_groups()
    );
    assert_eq!(ownership.snapshot_pubkeys(), vec![pk(10), pk(20), pk(30)]);
}

#[test]
fn remove_unknown_owner_is_noop() {
    let mut ownership = ExplicitOwnership::new();
    let owner = pool_owner(ExplicitConsumer::Tracker, 7);
    assert!(ownership.remove_group(&owner).is_none());
    ownership.upsert_group(owner.clone(), vec![pk(1)]).unwrap();
    let other = pool_owner(ExplicitConsumer::Tracker, 8);
    assert!(ownership.remove_group(&other).is_none());
    assert_eq!(ownership.len(), 1);
}

#[derive(Debug, Clone, Default)]
struct RefModel {
    groups: BTreeMap<ExplicitOwner, Vec<Pubkey>>,
}

impl RefModel {
    fn upsert_group(
        &mut self,
        owner: ExplicitOwner,
        pubkeys: impl IntoIterator<Item = Pubkey>,
    ) -> Result<GroupChange, EmptyOwnerGroupError> {
        let mut normalized: Vec<Pubkey> = pubkeys.into_iter().collect();
        normalized.sort();
        normalized.dedup();
        if normalized.is_empty() {
            return Err(EmptyOwnerGroupError);
        }
        let ownership = self.to_explicit_ownership();
        let mut scratch = ownership.clone();
        let change = scratch.upsert_group(owner.clone(), normalized.to_vec())?;
        if !matches!(change, GroupChange::Unchanged) {
            self.groups.insert(owner, normalized);
        }
        Ok(change)
    }

    fn remove_group(&mut self, owner: &ExplicitOwner) -> Option<OwnerGroupSnapshot> {
        let ownership = self.to_explicit_ownership();
        let mut scratch = ownership.clone();
        let removed = scratch.remove_group(owner)?;
        self.groups.remove(owner);
        Some(removed)
    }

    fn to_explicit_ownership(&self) -> ExplicitOwnership {
        let mut ownership = ExplicitOwnership::new();
        for (owner, pubkeys) in &self.groups {
            ownership
                .upsert_group(owner.clone(), pubkeys.to_vec())
                .unwrap();
        }
        ownership
    }
}

fn assert_consistent(model: &RefModel, ownership: &ExplicitOwnership, change: &GroupChange) {
    let rebuilt = model.to_explicit_ownership();
    assert_eq!(
        ownership.snapshot_owner_groups(),
        rebuilt.snapshot_owner_groups()
    );
    assert_eq!(ownership.snapshot_pubkeys(), rebuilt.snapshot_pubkeys());
    for pubkey in ownership.snapshot_pubkeys() {
        assert_eq!(
            ownership.owner_refcount(&pubkey),
            rebuilt.owner_refcount(&pubkey)
        );
    }
    let expected_change = match change {
        GroupChange::NewGroup { physical_added } => GroupChange::NewGroup {
            physical_added: physical_added.clone(),
        },
        GroupChange::Unchanged => GroupChange::Unchanged,
        GroupChange::Replaced {
            physical_added,
            physical_removed,
        } => GroupChange::Replaced {
            physical_added: physical_added.clone(),
            physical_removed: physical_removed.clone(),
        },
    };
    assert_eq!(change, &expected_change);
}

#[test]
fn bounded_reference_model_matches_explicit_ownership() {
    let mut ownership = ExplicitOwnership::new();
    let mut model = RefModel::default();

    let owners = [
        wallet_owner(),
        pool_owner(ExplicitConsumer::Momentum, 1),
        pool_owner(ExplicitConsumer::Momentum, 2),
        pool_owner(ExplicitConsumer::Arb, 1),
        ExplicitOwner {
            consumer: ExplicitConsumer::Tracker,
            owner_key: ExplicitOwnerKey::Generic(42),
        },
    ];

    let key_pool = [pk(1), pk(2), pk(3), pk(4), pk(5)];

    for (step, owner) in owners.iter().enumerate() {
        let keys: Vec<Pubkey> = key_pool
            .iter()
            .copied()
            .filter(|k| (k.to_bytes()[0] as usize + step) % 2 == 0)
            .collect();
        if keys.is_empty() {
            continue;
        }
        let change = ownership.upsert_group(owner.clone(), keys.to_vec()).unwrap();
        let ref_change = model.upsert_group(owner.clone(), keys.to_vec()).unwrap();
        assert_eq!(change, ref_change);
        assert_consistent(&model, &ownership, &change);
    }

    // Shared-key overlap upsert on momentum pool 1
    let shared_owner = pool_owner(ExplicitConsumer::Momentum, 1);
    let change = ownership
        .upsert_group(shared_owner.clone(), vec![pk(1), pk(5), pk(6)])
        .unwrap();
    let ref_change = model
        .upsert_group(shared_owner.clone(), vec![pk(1), pk(5), pk(6)])
        .unwrap();
    assert_eq!(change, ref_change);
    assert_consistent(&model, &ownership, &change);

    // Idempotent
    let change = ownership
        .upsert_group(shared_owner.clone(), vec![pk(1), pk(5), pk(6)])
        .unwrap();
    let ref_change = model
        .upsert_group(shared_owner.clone(), vec![pk(1), pk(5), pk(6)])
        .unwrap();
    assert_eq!(change, GroupChange::Unchanged);
    assert_eq!(ref_change, GroupChange::Unchanged);
    assert_consistent(&model, &ownership, &change);

    // Remove arb owner
    let arb_owner = pool_owner(ExplicitConsumer::Arb, 1);
    let removed = ownership.remove_group(&arb_owner);
    let ref_removed = model.remove_group(&arb_owner);
    assert_eq!(removed, ref_removed);
    assert_consistent(&model, &ownership, &GroupChange::Unchanged);

    // Remove wallet
    let wo = wallet_owner();
    ownership.remove_group(&wo);
    model.remove_group(&wo);
    assert_consistent(&model, &ownership, &GroupChange::Unchanged);
}

#[test]
fn owners_of_an_address_are_listed_in_order() {
    let mut ownership = ExplicitOwnership::new();
    let shared = pk(9);
    let tracker = pool_owner(ExplicitConsumer::Tracker, 1);
    let momentum = pool_owner(ExplicitConsumer::Momentum, 2);
    ownership.upsert_group(tracker, vec![shared]).unwrap();
    ownership.upsert_group(momentum, vec![shared, pk(1)]).unwrap();
    assert_eq!(ownership.owners_of_pubkey(&shared), vec![momentum, tracker]);
    assert_eq!(ownership.owners_of_pubkey(&pk(1)), vec![momentum]);
    assert_eq!(ownership.owners_of_pubkey(&pk(2)), vec![]);
}
