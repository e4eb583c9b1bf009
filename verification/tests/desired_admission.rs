use track::desired_admission::{
    AdmissionDesiredExplicitSet, AdmissionObserver, AdmissionResult, CapConvergeResult, ConsumerId,
    LRU_RENORMALIZE_THRESHOLD, OwnerGroupSnapshot, OwnerKey, PinPriority, PlanningStats,
    pin_priority_from_consumer,
};
use track::pubkey::Pubkey;
use rand::seq::SliceRandom;
use rand::{rngs::StdRng, Rng, SeedableRng};
use std::collections::{BTreeMap, BTreeSet};

fn unique() -> Pubkey {
    Pubkey::new_from_array(solana_sdk::pubkey::Pubkey::new_unique().to_bytes())
}

fn has_owner(set: &AdmissionDesiredExplicitSet, consumer: ConsumerId, owner: Pubkey) -> bool {
    set.snapshot_owner_groups()
        .iter()
        .any(|g| g.owner == OwnerKey::new(consumer, owner))
}

fn wallet_only_overflow(set: &AdmissionDesiredExplicitSet) -> bool {
    let wallet: BTreeSet<Pubkey> = set
        .snapshot_owner_groups()
        .iter()
        .filter(|g| g.owner.consumer == ConsumerId::Wallet)
        .flat_map(|g| g.pubkeys.iter().copied())
        .collect();
    wallet.len() > set.max_explicit_pubkeys()
}

fn can_evict_for_incoming(victim: ConsumerId, incoming: ConsumerId) -> bool {
    if victim == ConsumerId::Wallet {
        return false;
    }
    let victim_p = pin_priority_from_consumer(victim);
    let incoming_p = pin_priority_from_consumer(incoming);
    victim_p > incoming_p || (victim_p == incoming_p && incoming_p != PinPriority::Wallet)
}

fn admission_result_class(result: &AdmissionResult) -> u8 {
    match result {
        AdmissionResult::Inserted { .. } => 0,
        AdmissionResult::OwnerAddedNoNewPubkey => 1,
        AdmissionResult::RejectedCap => 2,
        AdmissionResult::RejectedProtected => 3,
        AdmissionResult::RejectedInvalidGroup => 4,
    }
}

#[derive(Clone)]
struct NaiveRefModel {
    cap: usize,
    owner_groups: BTreeMap<OwnerKey, BTreeSet<Pubkey>>,
    lru: BTreeMap<OwnerKey, u64>,
    lru_counter: u64,
}

impl NaiveRefModel {
    fn new(cap: usize) -> Self {
        Self {
            cap: cap.max(1),
            owner_groups: BTreeMap::new(),
            lru: BTreeMap::new(),
            lru_counter: 0,
        }
    }

    fn max_explicit_pubkeys(&self) -> usize {
        self.cap
    }

    fn len(&self) -> usize {
        self.physical().len()
    }

    fn physical(&self) -> BTreeSet<Pubkey> {
        let mut keys = BTreeSet::new();
        for pks in self.owner_groups.values() {
            keys.extend(pks.iter().copied());
        }
        keys
    }

    fn owner_refcount(&self, pk: &Pubkey) -> usize {
        self.owner_groups
            .values()
            .filter(|pks| pks.contains(pk))
            .count()
    }

    fn snapshot_pubkeys(&self) -> Vec<Pubkey> {
        self.physical().into_iter().collect()
    }

    fn snapshot_owner_groups(&self) -> Vec<OwnerGroupSnapshot> {
        self.owner_groups
            .iter()
            .map(|(owner, pubkeys)| OwnerGroupSnapshot {
                owner: *owner,
                pubkeys: pubkeys.iter().copied().collect(),
            })
            .collect()
    }

    fn wallet_only_overflow(&self) -> bool {
        let wallet: BTreeSet<Pubkey> = self
            .owner_groups
            .iter()
            .filter(|(o, _)| o.consumer == ConsumerId::Wallet)
            .flat_map(|(_, pks)| pks.iter().copied())
            .collect();
        wallet.len() > self.cap
    }

    fn simulate_physical(
        &self,
        evicted: &[OwnerKey],
        incoming: OwnerKey,
        new_pubkeys: &BTreeSet<Pubkey>,
    ) -> BTreeSet<Pubkey> {
        let mut groups = self.owner_groups.clone();
        for v in evicted {
            groups.remove(v);
        }
        groups.insert(incoming, new_pubkeys.clone());
        let mut physical = BTreeSet::new();
        for pks in groups.values() {
            physical.extend(pks.iter().copied());
        }
        physical
    }

    fn plan_evictions(
        &self,
        incoming: OwnerKey,
        new_pubkeys: &BTreeSet<Pubkey>,
    ) -> Option<Vec<OwnerKey>> {
        let old_pubkeys = self.owner_groups.get(&incoming);
        let projected_len = |evicted: &[OwnerKey]| -> usize {
            let mut touched = BTreeSet::new();
            touched.extend(new_pubkeys.iter().copied());
            if let Some(old) = old_pubkeys {
                touched.extend(old.iter().copied());
            }
            for victim in evicted {
                if let Some(pks) = self.owner_groups.get(victim) {
                    touched.extend(pks.iter().copied());
                }
            }
            let unchanged = self
                .physical()
                .iter()
                .filter(|pk| !touched.contains(pk))
                .count();
            let mut present = 0usize;
            for pk in touched {
                let mut count = self.owner_refcount(&pk);
                if let Some(old) = old_pubkeys {
                    if old.contains(&pk) && !new_pubkeys.contains(&pk) {
                        count = count.saturating_sub(1);
                    }
                }
                for victim in evicted {
                    if self
                        .owner_groups
                        .get(victim)
                        .is_some_and(|pks| pks.contains(&pk))
                    {
                        count = count.saturating_sub(1);
                    }
                }
                if new_pubkeys.contains(&pk) {
                    let already = self.physical().contains(&pk);
                    let retained = old_pubkeys.is_some_and(|old| old.contains(&pk));
                    if !already || !retained {
                        count += 1;
                    }
                }
                if count > 0 {
                    present += 1;
                }
            }
            unchanged + present
        };

        let deficit = projected_len(&[]).saturating_sub(self.cap);
        if deficit == 0 {
            return Some(Vec::new());
        }

        let mut victims = Vec::new();
        let mut candidates: Vec<(OwnerKey, PinPriority, u64)> = self
            .owner_groups
            .keys()
            .copied()
            .filter(|owner| {
                *owner != incoming
                    && can_evict_for_incoming(
                        owner.consumer,
                        incoming.consumer,
                    )
            })
            .map(|owner| {
                (
                    owner,
                    pin_priority_from_consumer(owner.consumer),
                    self.lru.get(&owner).copied().unwrap_or(0),
                )
            })
            .collect();
        candidates.sort_by(|a, b| {
            b.1.cmp(&a.1)
                .then_with(|| a.2.cmp(&b.2))
                .then_with(|| a.0.cmp(&b.0))
        });

        let mut remaining_deficit = deficit;
        let mut idx = 0usize;
        while remaining_deficit > 0 && idx < candidates.len() {
            let victim = candidates[idx].0;
            idx += 1;
            let mut trial = victims.clone();
            trial.push(victim);
            let before = projected_len(&victims);
            let after = projected_len(&trial);
            if after >= before {
                continue;
            }
            let marginal = before.saturating_sub(after);
            victims.push(victim);
            remaining_deficit = remaining_deficit.saturating_sub(marginal);
        }

        if remaining_deficit > 0 {
            for (victim, _, _) in candidates {
                if victims.contains(&victim) {
                    continue;
                }
                let mut trial = victims.clone();
                trial.push(victim);
                let before = projected_len(&victims);
                let after = projected_len(&trial);
                if after >= before {
                    continue;
                }
                let marginal = before.saturating_sub(after);
                victims.push(victim);
                remaining_deficit = remaining_deficit.saturating_sub(marginal);
                if remaining_deficit == 0 {
                    break;
                }
            }
        }

        if projected_len(&victims) <= self.cap {
            Some(victims)
        } else {
            None
        }
    }

    fn try_admit(
        &mut self,
        consumer: ConsumerId,
        owner: Pubkey,
        pubkeys: &[Pubkey],
    ) -> AdmissionResult {
        let deduped: BTreeSet<Pubkey> = pubkeys.iter().copied().collect();
        if deduped.is_empty() {
            return AdmissionResult::RejectedInvalidGroup;
        }
        let key = OwnerKey::new(consumer, owner);
        let snap = self.clone();

        if self.owner_groups.get(&key) == Some(&deduped) {
            self.lru_counter += 1;
            self.lru.insert(key, self.lru_counter);
            return AdmissionResult::OwnerAddedNoNewPubkey;
        }

        if consumer == ConsumerId::Wallet {
            let wallet_demand: BTreeSet<Pubkey> = self
                .owner_groups
                .iter()
                .filter(|(o, _)| o.consumer == ConsumerId::Wallet && **o != key)
                .flat_map(|(_, pks)| pks.iter().copied())
                .chain(deduped.iter().copied())
                .collect();
            if wallet_demand.len() > self.cap {
                return AdmissionResult::RejectedProtected;
            }
        }

        let Some(victims) = self.plan_evictions(key, &deduped) else {
            return if consumer == ConsumerId::Wallet {
                AdmissionResult::RejectedProtected
            } else {
                AdmissionResult::RejectedCap
            };
        };

        if self.simulate_physical(&victims, key, &deduped).len() > self.cap {
            *self = snap;
            return if consumer == ConsumerId::Wallet {
                AdmissionResult::RejectedProtected
            } else {
                AdmissionResult::RejectedCap
            };
        }

        for victim in victims {
            self.owner_groups.remove(&victim);
            self.lru.remove(&victim);
        }
        self.owner_groups.insert(key, deduped);
        self.lru_counter += 1;
        self.lru.insert(key, self.lru_counter);
        AdmissionResult::Inserted {
            added_pubkeys: Vec::new(),
            evicted_owners: Vec::new(),
        }
    }

    fn remove_group(&mut self, consumer: ConsumerId, owner: Pubkey) -> bool {
        let key = OwnerKey::new(consumer, owner);
        if self.owner_groups.remove(&key).is_some() {
            self.lru.remove(&key);
            if self.len() > self.cap && !self.wallet_only_overflow() {
                let _ = self.set_max_explicit_pubkeys(self.cap);
            }
            true
        } else {
            false
        }
    }

    fn touch_group(&mut self, consumer: ConsumerId, owner: Pubkey) -> bool {
        let key = OwnerKey::new(consumer, owner);
        if self.owner_groups.contains_key(&key) {
            self.lru_counter += 1;
            self.lru.insert(key, self.lru_counter);
            true
        } else {
            false
        }
    }

    fn marginal_free_for_shrink(&self, victim: OwnerKey) -> usize {
        let Some(pks) = self.owner_groups.get(&victim) else {
            return 0;
        };
        pks.iter().filter(|pk| self.owner_refcount(pk) == 1).count()
    }

    fn pick_shrink_victim(&self, deficit: usize) -> Option<OwnerKey> {
        let mut candidates: Vec<(OwnerKey, PinPriority, u64)> = self
            .owner_groups
            .keys()
            .copied()
            .filter(|o| o.consumer != ConsumerId::Wallet)
            .map(|o| {
                (
                    o,
                    pin_priority_from_consumer(o.consumer),
                    self.lru.get(&o).copied().unwrap_or(0),
                )
            })
            .collect();
        if candidates.is_empty() {
            return None;
        }
        candidates.sort_by(|a, b| {
            b.1.cmp(&a.1)
                .then_with(|| a.2.cmp(&b.2))
                .then_with(|| a.0.cmp(&b.0))
        });
        let mut best: Option<(OwnerKey, usize)> = None;
        for (victim, _, _) in candidates {
            let marginal = self.marginal_free_for_shrink(victim);
            if marginal == 0 {
                continue;
            }
            let fits = marginal >= deficit;
            let better = match best {
                None => true,
                Some((_, best_marginal)) => {
                    if fits && best_marginal < deficit {
                        true
                    } else if fits == (best_marginal >= deficit) {
                        marginal < best_marginal
                    } else {
                        fits
                    }
                }
            };
            if better {
                best = Some((victim, marginal));
            }
        }
        best.map(|(victim, _)| victim)
    }

    fn set_max_explicit_pubkeys(&mut self, cap: usize) -> CapConvergeResult {
        let snapshot = self.clone();
        let previous_cap = self.cap;
        self.cap = cap.max(1);
        if self.wallet_only_overflow() {
            return CapConvergeResult::ProtectedOverflow;
        }
        let mut evicted = Vec::new();
        while self.len() > self.cap {
            let deficit = self.len().saturating_sub(self.cap);
            let Some(victim) = self.pick_shrink_victim(deficit) else {
                if self.wallet_only_overflow() {
                    return CapConvergeResult::ProtectedOverflow;
                }
                *self = snapshot;
                self.cap = previous_cap;
                return CapConvergeResult::Unconverged;
            };
            self.owner_groups.remove(&victim);
            self.lru.remove(&victim);
            evicted.push(victim);
        }
        evicted.sort();
        CapConvergeResult::Converged {
            evicted_owners: evicted,
        }
    }
}

fn assert_equivalent(
    set: &AdmissionDesiredExplicitSet,
    reference: &NaiveRefModel,
    result: &AdmissionResult,
    ref_result: &AdmissionResult,
) {
    assert_eq!(
        admission_result_class(result),
        admission_result_class(ref_result),
        "result class mismatch: {result:?} vs {ref_result:?}"
    );

    if matches!(
        result,
        AdmissionResult::RejectedCap
            | AdmissionResult::RejectedProtected
            | AdmissionResult::RejectedInvalidGroup
    ) {
        return;
    }

    assert_eq!(set.snapshot_pubkeys(), reference.snapshot_pubkeys());
    assert_eq!(
        set.snapshot_owner_groups(),
        reference.snapshot_owner_groups()
    );
    assert_eq!(set.len(), reference.len());
    assert_eq!(set.max_explicit_pubkeys(), reference.max_explicit_pubkeys());
    for pk in set.snapshot_pubkeys() {
        assert_eq!(set.owner_refcount(&pk), reference.owner_refcount(&pk));
    }
}

fn admit_group(
    set: &mut AdmissionDesiredExplicitSet,
    consumer: ConsumerId,
    owner: Pubkey,
    pubkeys: &[Pubkey],
) -> AdmissionResult {
    set.reset_planning_stats();
    set.try_admit_group(consumer, owner, pubkeys)
}

#[test]
fn deduped_pubkeys_stay_within_cap() {
    let pk = unique();
    let mut set = AdmissionDesiredExplicitSet::new(2);
    let owner = unique();
    let result = admit_group(&mut set, ConsumerId::Tracker, owner, &[pk, pk, pk]);
    assert!(matches!(result, AdmissionResult::Inserted { .. }));
    assert_eq!(set.len(), 1);
}

#[test]
fn rejected_group_does_not_mutate_state() {
    let mut set = AdmissionDesiredExplicitSet::new(10);
    let a = unique();
    let owner = unique();
    admit_group(&mut set, ConsumerId::Tracker, owner, &[a]);
    let before = set.snapshot_owner_groups();
    let before_len = set.len();

    let result = admit_group(&mut set, ConsumerId::Tracker, unique(), &[]);
    assert_eq!(result, AdmissionResult::RejectedInvalidGroup);
    assert_eq!(set.len(), before_len);
    assert_eq!(set.snapshot_owner_groups(), before);
}

#[test]
fn insufficient_evictable_space_leaves_state_unchanged() {
    let mut set = AdmissionDesiredExplicitSet::new(2);
    let wallet_owner = unique();
    let w1 = unique();
    let w2 = unique();
    admit_group(&mut set, ConsumerId::Wallet, wallet_owner, &[w1, w2]);

    let tracker_owner = unique();
    let t1 = unique();
    let t2 = unique();
    let snap = set.clone();
    let result = admit_group(&mut set, ConsumerId::Tracker, tracker_owner, &[t1, t2]);
    assert_eq!(result, AdmissionResult::RejectedCap);
    assert_eq!(set.len(), snap.len());
    assert_eq!(set.snapshot_pubkeys(), snap.snapshot_pubkeys());
}

#[test]
fn two_vault_group_admitted_or_rejected_atomically() {
    let mut set = AdmissionDesiredExplicitSet::new(1);
    let owner = unique();
    let v1 = unique();
    let v2 = unique();
    let result = admit_group(&mut set, ConsumerId::Arb, owner, &[v1, v2]);
    assert_eq!(result, AdmissionResult::RejectedCap);
    assert!(set.is_empty());

    let mut set = AdmissionDesiredExplicitSet::new(3);
    admit_group(
        &mut set,
        ConsumerId::Arb,
        unique(),
        &[unique()],
    );
    let result = admit_group(&mut set, ConsumerId::Arb, owner, &[v1, v2]);
    assert!(matches!(result, AdmissionResult::Inserted { .. }));
    assert!(set.contains(&v1));
    assert!(set.contains(&v2));
}

#[test]
fn desired_admission_shared_pubkey_survives_single_owner_removal() {
    let mut set = AdmissionDesiredExplicitSet::new(10);
    let shared = unique();
    let o1 = unique();
    let o2 = unique();
    admit_group(&mut set, ConsumerId::Wallet, o1, &[shared]);
    admit_group(&mut set, ConsumerId::Momentum, o2, &[shared]);
    assert_eq!(set.len(), 1);
    assert!(set.remove_group(ConsumerId::Momentum, o2));
    assert!(set.contains(&shared));
    assert_eq!(set.owner_refcount(&shared), 1);
}

#[test]
fn wallet_never_evicted() {
    let wallet_pk = unique();
    let mut set = AdmissionDesiredExplicitSet::new(2);
    admit_group(
        &mut set,
        ConsumerId::Wallet,
        unique(),
        &[wallet_pk],
    );
    for i in 0..5 {
        admit_group(
            &mut set,
            ConsumerId::Momentum,
            Pubkey::new_from_array([i; 32]),
            &[Pubkey::new_from_array([i + 10; 32])],
        );
    }
    assert!(set.contains(&wallet_pk));
}

#[test]
fn momentum_evicts_tracker_before_arb() {
    let mut set = AdmissionDesiredExplicitSet::new(2);
    let tracker_pk = unique();
    let arb_pk = unique();
    admit_group(
        &mut set,
        ConsumerId::Tracker,
        unique(),
        &[tracker_pk],
    );
    admit_group(&mut set, ConsumerId::Arb, unique(), &[arb_pk]);
    let mom_pk = unique();
    admit_group(
        &mut set,
        ConsumerId::Momentum,
        unique(),
        &[mom_pk],
    );
    assert!(!set.contains(&tracker_pk));
    assert!(set.contains(&arb_pk));
    assert!(set.contains(&mom_pk));
}

#[test]
fn arb_evicts_tracker_not_momentum_or_wallet() {
    let mut set = AdmissionDesiredExplicitSet::new(2);
    let wallet_pk = unique();
    let mom_pk = unique();
    let tracker_pk = unique();
    admit_group(
        &mut set,
        ConsumerId::Wallet,
        unique(),
        &[wallet_pk],
    );
    admit_group(
        &mut set,
        ConsumerId::Momentum,
        unique(),
        &[mom_pk],
    );
    let result = admit_group(
        &mut set,
        ConsumerId::Arb,
        unique(),
        &[tracker_pk],
    );
    assert_eq!(result, AdmissionResult::RejectedCap);
    assert!(set.contains(&wallet_pk));
    assert!(set.contains(&mom_pk));

    let mut set = AdmissionDesiredExplicitSet::new(2);
    admit_group(
        &mut set,
        ConsumerId::Tracker,
        unique(),
        &[tracker_pk],
    );
    admit_group(
        &mut set,
        ConsumerId::Momentum,
        unique(),
        &[mom_pk],
    );
    let arb_pk = unique();
    admit_group(&mut set, ConsumerId::Arb, unique(), &[arb_pk]);
    assert!(!set.contains(&tracker_pk));
    assert!(set.contains(&mom_pk));
    assert!(set.contains(&arb_pk));
}

#[test]
fn tracker_only_evicts_tracker_or_rejected() {
    let mut set = AdmissionDesiredExplicitSet::new(2);
    let mom_pk = unique();
    let arb_pk = unique();
    admit_group(
        &mut set,
        ConsumerId::Momentum,
        unique(),
        &[mom_pk],
    );
    admit_group(&mut set, ConsumerId::Arb, unique(), &[arb_pk]);
    let result = admit_group(
        &mut set,
        ConsumerId::Tracker,
        unique(),
        &[unique()],
    );
    assert_eq!(result, AdmissionResult::RejectedCap);
    assert!(set.contains(&mom_pk));
    assert!(set.contains(&arb_pk));

    let mut set = AdmissionDesiredExplicitSet::new(1);
    let old_tracker = unique();
    admit_group(
        &mut set,
        ConsumerId::Tracker,
        unique(),
        &[old_tracker],
    );
    let new_tracker = unique();
    admit_group(
        &mut set,
        ConsumerId::Tracker,
        unique(),
        &[new_tracker],
    );
    assert!(!set.contains(&old_tracker));
    assert!(set.contains(&new_tracker));
}

#[test]
fn same_priority_uses_lru_order() {
    let mut set = AdmissionDesiredExplicitSet::new(2);
    let first_pk = unique();
    let second_pk = unique();
    let first_owner = unique();
    let second_owner = unique();
    admit_group(&mut set, ConsumerId::Tracker, first_owner, &[first_pk]);
    admit_group(&mut set, ConsumerId::Tracker, second_owner, &[second_pk]);
    set.touch_group(ConsumerId::Tracker, first_owner);
    let new_pk = unique();
    admit_group(
        &mut set,
        ConsumerId::Tracker,
        unique(),
        &[new_pk],
    );
    assert!(set.contains(&first_pk));
    assert!(!set.contains(&second_pk));
    assert!(set.contains(&new_pk));
}

#[test]
fn wallet_only_over_cap_protected_overflow() {
    let mut set = AdmissionDesiredExplicitSet::new(2);
    let w1 = unique();
    let w2 = unique();
    let w3 = unique();
    assert!(set.wallet_demand_exceeds_cap(&[w1, w2, w3]));
    let result = admit_group(
        &mut set,
        ConsumerId::Wallet,
        unique(),
        &[w1, w2, w3],
    );
    assert_eq!(result, AdmissionResult::RejectedProtected);
    assert!(set.is_empty());

    let mut set = AdmissionDesiredExplicitSet::new(3);
    admit_group(
        &mut set,
        ConsumerId::Wallet,
        unique(),
        &[w1, w2, w3],
    );
    assert_eq!(
        set.set_max_explicit_pubkeys(2),
        CapConvergeResult::ProtectedOverflow
    );
}

#[test]
fn empty_group_rejected_invalid() {
    let mut set = AdmissionDesiredExplicitSet::new(5);
    assert_eq!(
        admit_group(&mut set, ConsumerId::Arb, unique(), &[]),
        AdmissionResult::RejectedInvalidGroup
    );
}

#[test]
fn cap_shrink_converges_deterministically() {
    let mut set = AdmissionDesiredExplicitSet::new(5);
    for i in 0..5u8 {
        admit_group(
            &mut set,
            ConsumerId::Tracker,
            Pubkey::new_from_array([i; 32]),
            &[Pubkey::new_from_array([i + 50; 32])],
        );
    }
    let r1 = {
        let mut a = set.clone();
        a.set_max_explicit_pubkeys(2)
    };
    let r2 = {
        let mut b = set.clone();
        b.set_max_explicit_pubkeys(2)
    };
    assert_eq!(r1, r2);
    if let CapConvergeResult::Converged { evicted_owners } = r1 {
        assert_eq!(evicted_owners.len(), 3);
    } else {
        panic!("expected converge");
    }
}

#[test]
fn set_max_shrink_mixed_priorities_enforces_cap_or_protected() {
    let mut set = AdmissionDesiredExplicitSet::new(6);
    admit_group(
        &mut set,
        ConsumerId::Wallet,
        unique(),
        &[unique()],
    );
    admit_group(
        &mut set,
        ConsumerId::Momentum,
        unique(),
        &[unique()],
    );
    admit_group(
        &mut set,
        ConsumerId::Arb,
        unique(),
        &[unique(), unique()],
    );
    admit_group(
        &mut set,
        ConsumerId::Tracker,
        unique(),
        &[unique(), unique()],
    );
    assert_eq!(set.len(), 6);

    let result = set.set_max_explicit_pubkeys(3);
    assert!(matches!(
        result,
        CapConvergeResult::Converged { .. } | CapConvergeResult::ProtectedOverflow
    ));
    assert!(set.len() <= set.max_explicit_pubkeys() || wallet_only_overflow(&set));
    assert!(set.contains(&set.snapshot_pubkeys().iter().next().copied().unwrap()));
}

#[test]
fn restore_preserves_shared_owner_refcounts() {
    let mut set = AdmissionDesiredExplicitSet::new(10);
    let shared = unique();
    let o1 = unique();
    let o2 = unique();
    admit_group(&mut set, ConsumerId::Wallet, o1, &[shared]);
    admit_group(&mut set, ConsumerId::Arb, o2, &[shared]);
    let snap = set.snapshot_owner_groups();
    let mut restored = AdmissionDesiredExplicitSet::new(10);
    restored.reconcile_from_owner_groups(&snap);
    assert_eq!(restored.owner_refcount(&shared), 2);
    assert_eq!(restored.len(), 1);
}

#[test]
fn replacement_at_cap_drops_exclusive_outgoing_keys() {
    let mut set = AdmissionDesiredExplicitSet::new(2);
    let owner = unique();
    let a = unique();
    let b = unique();
    let c = unique();
    admit_group(&mut set, ConsumerId::Arb, owner, &[a, b]);
    admit_group(&mut set, ConsumerId::Arb, owner, &[b, c]);
    assert!(!set.contains(&a));
    assert!(set.contains(&b));
    assert!(set.contains(&c));
    assert_eq!(set.len(), 2);
}

#[test]
fn partial_overlap_replacement_and_victim_exact_end_capacity() {
    let mut set = AdmissionDesiredExplicitSet::new(3);
    let shared = unique();
    let owner_a = unique();
    let owner_b = unique();
    let x = unique();
    let y = unique();
    admit_group(&mut set, ConsumerId::Tracker, owner_a, &[shared, x]);
    admit_group(&mut set, ConsumerId::Tracker, owner_b, &[shared, y]);
    assert_eq!(set.len(), 3);
    let z = unique();
    admit_group(&mut set, ConsumerId::Arb, owner_a, &[shared, z]);
    assert_eq!(set.len(), 3);
    assert!(!set.contains(&x));
    assert!(set.contains(&shared));
    assert!(set.contains(&y));
    assert!(set.contains(&z));
}

#[test]
fn priority_not_overridden_by_marginal_free_space() {
    let mut set = AdmissionDesiredExplicitSet::new(3);
    let big_tracker = (0..2)
        .map(|i| Pubkey::new_from_array([100 + i; 32]))
        .collect::<Vec<_>>();
    let small_arb = [unique()];
    admit_group(
        &mut set,
        ConsumerId::Tracker,
        unique(),
        &big_tracker,
    );
    admit_group(&mut set, ConsumerId::Arb, unique(), &small_arb);
    let mom = [unique()];
    admit_group(&mut set, ConsumerId::Momentum, unique(), &mom);
    for pk in &big_tracker {
        assert!(!set.contains(pk));
    }
    assert!(set.contains(&small_arb[0]));
    assert!(set.contains(&mom[0]));
}

#[test]
fn no_eviction_fast_path_zero_full_graph_copies() {
    let mut set = AdmissionDesiredExplicitSet::new(100);
    for i in 0..90u8 {
        admit_group(
            &mut set,
            ConsumerId::Tracker,
            Pubkey::new_from_array([i; 32]),
            &[Pubkey::new_from_array([i + 1; 32])],
        );
    }
    set.reset_planning_stats();
    let owner = unique();
    let pks: Vec<_> = (0..3).map(|_| unique()).collect();
    let result = set.try_admit_group(ConsumerId::Tracker, owner, &pks);
    let stats = set.take_planning_stats();
    assert!(matches!(result, AdmissionResult::Inserted { .. }));
    assert_eq!(stats.full_graph_copies, 0);
    assert!(stats.owner_edge_visits <= pks.len() * 4 + 8);
    assert!(set.len() <= set.max_explicit_pubkeys());
}

#[test]
fn shared_momentum_evicts_only_zero_marginal_tracker_b() {
    let shared = unique();
    let x = unique();
    let y = unique();
    let tracker_a = unique();
    let tracker_b = unique();
    let momentum_owner = unique();

    let mut set = AdmissionDesiredExplicitSet::new(2);
    admit_group(&mut set, ConsumerId::Tracker, tracker_a, &[shared]);
    admit_group(&mut set, ConsumerId::Tracker, tracker_b, &[x]);
    assert_eq!(set.len(), 2);

    let result = admit_group(&mut set, ConsumerId::Momentum, momentum_owner, &[shared, y]);
    assert!(matches!(result, AdmissionResult::Inserted { .. }));
    assert_eq!(set.len(), 2);
    assert!(set.contains(&shared));
    assert!(set.contains(&y));
    assert!(!set.contains(&x));
    assert!(has_owner(&set, ConsumerId::Tracker, tracker_a));
    assert!(!has_owner(&set, ConsumerId::Tracker, tracker_b));
}

#[test]
fn fully_shared_cap_shrink_requires_joint_group_removal() {
    let shared = unique();
    let a = unique();
    let owner_a = unique();
    let owner_b = unique();
    let mut set = AdmissionDesiredExplicitSet::new(2);
    admit_group(&mut set, ConsumerId::Tracker, owner_a, &[shared, a]);
    admit_group(&mut set, ConsumerId::Tracker, owner_b, &[shared]);
    assert_eq!(set.len(), 2);

    let result = set.set_max_explicit_pubkeys(1);
    assert!(matches!(result, CapConvergeResult::Converged { .. }));
    assert_eq!(set.len(), 1);
    assert!(set.contains(&shared));
    assert_eq!(set.owner_refcount(&shared), 1);
    assert_eq!(set.snapshot_owner_groups().len(), 1);
    assert!(!has_owner(&set, ConsumerId::Tracker, owner_a));
}

#[test]
fn lru_renormalizes_before_wrap_preserving_order() {
    let mut set = AdmissionDesiredExplicitSet::new(10);
    let o1 = unique();
    let o2 = unique();
    let p1 = unique();
    let p2 = unique();
    admit_group(&mut set, ConsumerId::Tracker, o1, &[p1]);
    admit_group(&mut set, ConsumerId::Tracker, o2, &[p2]);
    set.touch_group(ConsumerId::Tracker, o1);

    let mut near = AdmissionDesiredExplicitSet::new_for_test(10, LRU_RENORMALIZE_THRESHOLD);
    admit_group(&mut near, ConsumerId::Tracker, o1, &[p1]);
    admit_group(&mut near, ConsumerId::Tracker, o2, &[p2]);
    near.touch_group(ConsumerId::Tracker, o1);
    assert!(near.touch_group(ConsumerId::Tracker, o2));

    let mut set = AdmissionDesiredExplicitSet::new(2);
    admit_group(&mut set, ConsumerId::Tracker, o1, &[p1]);
    admit_group(&mut set, ConsumerId::Tracker, o2, &[p2]);
    set.touch_group(ConsumerId::Tracker, o1);
    let victim_pk = unique();
    admit_group(
        &mut set,
        ConsumerId::Tracker,
        unique(),
        &[victim_pk],
    );
    assert!(set.contains(&p1));
    assert!(!set.contains(&p2));
}

#[test]
fn cap_overflow_saturates_at_i64_max() {
    let mut set = AdmissionDesiredExplicitSet::new(1);
    let huge_len = i64::MAX as usize + 10;
    for i in 0..huge_len.min(1000) {
        admit_group(
            &mut set,
            ConsumerId::Tracker,
            Pubkey::new_from_array([(i % 255) as u8; 32]),
            &[Pubkey::new_from_array([((i + 1) % 255) as u8; 32])],
        );
    }
    let overflow = set.cap_overflow();
    assert!(overflow >= 0);
    if set.len() > set.max_explicit_pubkeys() && (set.len() - set.max_explicit_pubkeys()) > i64::MAX as usize {
        assert_eq!(overflow, i64::MAX);
    }
}

#[test]
fn cap_overflow_usize_max_edge() {
    let mut set = AdmissionDesiredExplicitSet::new(usize::MAX);
    let pk = unique();
    admit_group(&mut set, ConsumerId::Tracker, unique(), &[pk]);
    assert_eq!(set.cap_overflow(), 0);
    assert_eq!(set.len(), 1);
}

#[test]
fn deterministic_reference_equivalence_seeded_sequences() {
    for seed in [1_u64, 42, 2_915_510_010] {
        run_reference_sequence(seed);
    }
}

fn run_reference_sequence(seed: u64) {
    let mut rng = StdRng::seed_from_u64(seed);
    let mut set = AdmissionDesiredExplicitSet::new(8);
    let mut reference = NaiveRefModel::new(8);
    let mut pool: Vec<Pubkey> = (0..16)
        .map(|i| Pubkey::new_from_array([i as u8; 32]))
        .collect();

    for step in 0..300 {
        let op = rng.gen_range(0..100);
        let mut last_op = "unknown";
        match op {
            0..=45 => {
                last_op = "admission";
                let consumer = match rng.gen_range(0..4) {
                    0 => ConsumerId::Wallet,
                    1 => ConsumerId::Momentum,
                    2 => ConsumerId::Arb,
                    _ => ConsumerId::Tracker,
                };
                let owner = unique();
                let count = rng.gen_range(1..=4);
                let mut pubkeys = Vec::new();
                for _ in 0..count {
                    if rng.gen_bool(0.35) && !pool.is_empty() {
                        pubkeys.push(pool[rng.gen_range(0..pool.len())]);
                    } else {
                        let pk = unique();
                        pool.push(pk);
                        pubkeys.push(pk);
                    }
                }
                if rng.gen_bool(0.2) {
                    if let Some(g) = set.snapshot_owner_groups().choose(&mut rng) {
                        let owner = g.owner.owner;
                        let consumer = g.owner.consumer;
                        let snap = set.clone();
                        let ref_snap = reference.clone();
                        let result = set.try_admit_group(consumer, owner, &pubkeys);
                        let ref_result = reference.try_admit(consumer, owner, &pubkeys);
                        if matches!(
                            result,
                            AdmissionResult::RejectedCap
                                | AdmissionResult::RejectedProtected
                                | AdmissionResult::RejectedInvalidGroup
                        ) {
                            assert_eq!(set.snapshot_pubkeys(), snap.snapshot_pubkeys());
                            assert_eq!(
                                set.snapshot_owner_groups(),
                                snap.snapshot_owner_groups()
                            );
                            assert_eq!(
                                reference.snapshot_pubkeys(),
                                ref_snap.snapshot_pubkeys()
                            );
                        } else {
                            assert_equivalent(&set, &reference, &result, &ref_result);
                        }
                        continue;
                    }
                }
                let snap = set.clone();
                let ref_snap = reference.clone();
                let result = set.try_admit_group(consumer, owner, &pubkeys);
                let ref_result = reference.try_admit(consumer, owner, &pubkeys);
                if matches!(
                    result,
                    AdmissionResult::RejectedCap
                        | AdmissionResult::RejectedProtected
                        | AdmissionResult::RejectedInvalidGroup
                ) {
                    assert_eq!(set.snapshot_pubkeys(), snap.snapshot_pubkeys());
                    assert_eq!(set.snapshot_owner_groups(), snap.snapshot_owner_groups());
                    assert_eq!(reference.snapshot_pubkeys(), ref_snap.snapshot_pubkeys());
                } else {
                    assert_equivalent(&set, &reference, &result, &ref_result);
                }
            }
            46..=60 => {
                last_op = "remove";
                if let Some(g) = set.snapshot_owner_groups().choose(&mut rng) {
                    let snap = set.clone();
                    let ref_snap = reference.clone();
                    let removed = set.remove_group(g.owner.consumer, g.owner.owner);
                    let ref_removed = reference.remove_group(g.owner.consumer, g.owner.owner);
                    assert_eq!(removed, ref_removed);
                    if removed {
                        assert_eq!(set.snapshot_pubkeys(), reference.snapshot_pubkeys());
                        assert_eq!(
                            set.snapshot_owner_groups(),
                            reference.snapshot_owner_groups()
                        );
                    } else {
                        assert_eq!(set.snapshot_pubkeys(), snap.snapshot_pubkeys());
                        assert_eq!(reference.snapshot_pubkeys(), ref_snap.snapshot_pubkeys());
                    }
                }
            }
            61..=75 => {
                last_op = "touch";
                if let Some(g) = set.snapshot_owner_groups().choose(&mut rng) {
                    let touched = set.touch_group(g.owner.consumer, g.owner.owner);
                    let ref_touched = reference.touch_group(g.owner.consumer, g.owner.owner);
                    assert_eq!(touched, ref_touched);
                    assert_eq!(set.snapshot_pubkeys(), reference.snapshot_pubkeys());
                    assert_eq!(
                        set.snapshot_owner_groups(),
                        reference.snapshot_owner_groups()
                    );
                }
            }
            _ => {
                last_op = "set_max";
                let new_cap = rng.gen_range(2..12);
                let snap = set.clone();
                let ref_snap = reference.clone();
                let result = set.set_max_explicit_pubkeys(new_cap);
                let ref_result = reference.set_max_explicit_pubkeys(new_cap);
                assert_eq!(
                    std::mem::discriminant(&result),
                    std::mem::discriminant(&ref_result)
                );
                if matches!(result, CapConvergeResult::ProtectedOverflow) {
                    assert_eq!(set.max_explicit_pubkeys(), new_cap.max(1));
                    assert_eq!(set.snapshot_pubkeys(), snap.snapshot_pubkeys());
                    assert_eq!(reference.snapshot_pubkeys(), ref_snap.snapshot_pubkeys());
                } else if matches!(result, CapConvergeResult::Unconverged) {
                    assert_eq!(set.max_explicit_pubkeys(), snap.max_explicit_pubkeys());
                    assert_eq!(set.snapshot_pubkeys(), snap.snapshot_pubkeys());
                    assert_eq!(reference.snapshot_pubkeys(), ref_snap.snapshot_pubkeys());
                } else {
                    assert!(
                        set.len() <= set.max_explicit_pubkeys() || wallet_only_overflow(&set)
                    );
                    assert_eq!(set.snapshot_pubkeys(), reference.snapshot_pubkeys());
                    assert_eq!(
                        set.snapshot_owner_groups(),
                        reference.snapshot_owner_groups()
                    );
                }
            }
        }
        if set.len() > set.max_explicit_pubkeys() && !wallet_only_overflow(&set) {
            panic!(
                "seed={seed} step={step} op={last_op} len={} cap={} wallet_only={}",
                set.len(),
                set.max_explicit_pubkeys(),
                wallet_only_overflow(&set)
            );
        }
    }
}

#[test]
fn restore_brings_back_the_groups_of_a_set() {
    let shared = unique();
    let mut set = AdmissionDesiredExplicitSet::new(4);
    for consumer in [ConsumerId::Momentum, ConsumerId::Arb, ConsumerId::Tracker] {
        assert!(matches!(
            set.try_admit_group(consumer, unique(), &[shared, unique()]),
            AdmissionResult::Inserted { .. }
        ));
    }
    let saved = set.snapshot_owner_groups();
    let mut other = AdmissionDesiredExplicitSet::new(4);
    let restored = other.restore_owner_groups(&saved);
    assert_eq!(restored.admitted.len(), 3);
    assert!(restored.rejected.is_empty());
    assert_eq!(other.snapshot_owner_groups(), saved);
    assert_eq!(other.owner_refcount(&shared), 3);
}

#[test]
fn group_that_fits_evicts_nothing() {
    let mut set = AdmissionDesiredExplicitSet::new(3);
    let _ = set.try_admit_group(ConsumerId::Tracker, unique(), &[unique(), unique()]);
    match set.try_admit_group(ConsumerId::Wallet, unique(), &[unique()]) {
        AdmissionResult::Inserted { evicted_owners, .. } => assert!(evicted_owners.is_empty()),
        other => panic!("{:?}", other),
    }
    assert_eq!(set.len(), 3);
}

#[derive(Default)]
struct Heard {
    groups: Vec<(OwnerKey, Vec<Pubkey>)>,
}

impl AdmissionObserver for Heard {
    fn on_group_evicted(&mut self, owner: OwnerKey, pubkeys: &[Pubkey]) {
        self.groups.push((owner, pubkeys.to_vec()));
    }
}

#[test]
fn observer_hears_of_evicted_groups_in_the_order_they_went() {
    let mut set = AdmissionDesiredExplicitSet::new(3);
    let owners = [unique(), unique(), unique()];
    let keys = [unique(), unique(), unique()];
    for i in 0..3 {
        let _ = set.try_admit_group(ConsumerId::Tracker, owners[i], &[keys[i]]);
    }
    let mut heard = Heard::default();
    let result = set.try_admit_group_observed(
        ConsumerId::Momentum,
        unique(),
        &[unique(), unique()],
        &mut heard,
    );
    assert!(matches!(result, AdmissionResult::Inserted { .. }));
    assert_eq!(
        heard.groups,
        vec![
            (OwnerKey::new(ConsumerId::Tracker, owners[0]), vec![keys[0]]),
            (OwnerKey::new(ConsumerId::Tracker, owners[1]), vec![keys[1]]),
        ]
    );

    let mut quiet = Heard::default();
    let within = set.converge_to_cap_observed(&mut quiet);
    assert_eq!(
        within,
        CapConvergeResult::Converged {
            evicted_owners: vec![]
        }
    );
    assert!(quiet.groups.is_empty());
}

#[test]
fn partial_overlap_planning_stats_bounded_edges() {
    let mut set = AdmissionDesiredExplicitSet::new(4);
    let shared = unique();
    let a = unique();
    let b = unique();
    let c = unique();
    let d = unique();
    admit_group(&mut set, ConsumerId::Tracker, unique(), &[shared, a]);
    admit_group(&mut set, ConsumerId::Tracker, unique(), &[shared, b]);
    admit_group(&mut set, ConsumerId::Arb, unique(), &[c]);
    set.reset_planning_stats();
    let result = set.try_admit_group(ConsumerId::Momentum, unique(), &[shared, d]);
    let stats = set.take_planning_stats();
    assert!(matches!(result, AdmissionResult::Inserted { .. }));
    assert_eq!(stats.full_graph_copies, 0);
    assert!(stats.owner_edge_visits <= 24);
    assert!(stats.candidate_pops <= 8);
}

#[test]
fn counters_say_what_planning_cost() {
    let mut set = AdmissionDesiredExplicitSet::new(3);
    let none = PlanningStats::default();
    let shared = unique();
    let first = unique();
    let _ = set.try_admit_group(ConsumerId::Tracker, first, &[shared, unique()]);
    assert_eq!(
        set.take_planning_stats(),
        PlanningStats { owner_edge_visits: 2, ..none }
    );

    // Listed again as it is: nothing to plan.
    let listed = set.snapshot_pubkeys();
    assert_eq!(
        set.try_admit_group(ConsumerId::Tracker, first, &listed),
        AdmissionResult::OwnerAddedNoNewPubkey
    );
    assert_eq!(set.take_planning_stats(), none);

    let _ = set.try_admit_group(ConsumerId::Tracker, unique(), &[shared, unique()]);
    assert_eq!(
        set.take_planning_stats(),
        PlanningStats { owner_edge_visits: 2, ..none }
    );

    // One address too many: the two listed, then with the first candidate its two as well, of
    // which one is shared.
    let _ = set.try_admit_group(ConsumerId::Momentum, unique(), &[shared, unique()]);
    assert_eq!(
        set.take_planning_stats(),
        PlanningStats { owner_edge_visits: 5, candidate_pops: 1, ..none }
    );

    // Two groups are looked at to find the one that leaves.
    assert!(matches!(
        set.set_max_explicit_pubkeys(2),
        CapConvergeResult::Converged { .. }
    ));
    assert_eq!(
        set.take_planning_stats(),
        PlanningStats { candidate_pops: 2, ..none }
    );
}
