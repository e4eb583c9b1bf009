use track::eviction_planner::{
    BuildStats, CapShrinkSelectionResult, ConsumerProtectionRank, EvictionPlanningSnapshot,
    EvictionTier, OwnerLruEntry, OwnerPlanningRecord, PubkeyOwnerIndex, SelectorStats,
    SnapshotBuildError, TierFeasibilityRequest, TierFeasibilityResult, VictimSelectionPlan,
    VictimSelectionRequest, VictimSelectionResult, select_cap_shrink_victims,
    select_cap_shrink_victims_with_stats, select_eviction_victims,
    select_eviction_victims_with_stats,
};
use track::explicit_ownership::{
    ExplicitConsumer, ExplicitOwner, ExplicitOwnerKey, ExplicitOwnership,
};
use track::pubkey::Pubkey;
use std::collections::{BTreeMap, BTreeSet};

fn pk(seed: u8) -> Pubkey {
    Pubkey::new_from_array([seed; 32])
}

fn pool_owner(consumer: ExplicitConsumer, seed: u8) -> ExplicitOwner {
    ExplicitOwner {
        consumer,
        owner_key: ExplicitOwnerKey::Pool(pk(seed)),
    }
}

fn lru(owner: ExplicitOwner, touch: u64) -> OwnerLruEntry {
    OwnerLruEntry {
        owner,
        last_touch: touch,
    }
}

fn upsert(
    ownership: &mut ExplicitOwnership,
    owner: ExplicitOwner,
    pubkeys: impl IntoIterator<Item = Pubkey>,
) {
    ownership
        .upsert_group(owner, pubkeys.into_iter().collect())
        .unwrap();
}

/// Fixture row: owner identity, LRU stamp, and normalized group pubkeys.
type FixtureRow = (ExplicitOwner, u64, Vec<Pubkey>);

#[derive(Debug, Clone)]
struct FixtureOracle {
    owner_records: BTreeMap<ExplicitOwner, (u64, Vec<Pubkey>)>,
    physical_pubkeys: Vec<Pubkey>,
    pubkey_owner_sets: BTreeMap<Pubkey, BTreeSet<ExplicitOwner>>,
}

impl FixtureOracle {
    fn from_fixtures(fixtures: &[FixtureRow]) -> Self {
        let mut owner_records = BTreeMap::new();
        let mut pubkey_owner_sets: BTreeMap<Pubkey, BTreeSet<ExplicitOwner>> = BTreeMap::new();

        for (owner, touch, pubkeys) in fixtures {
            let mut normalized = pubkeys.clone();
            normalized.sort();
            normalized.dedup();
            owner_records.insert(owner.clone(), (*touch, normalized.clone()));
            for pubkey in &normalized {
                pubkey_owner_sets
                    .entry(*pubkey)
                    .or_default()
                    .insert(owner.clone());
            }
        }

        let physical_pubkeys: Vec<Pubkey> = pubkey_owner_sets.keys().copied().collect();
        Self {
            owner_records,
            physical_pubkeys,
            pubkey_owner_sets,
        }
    }

    fn physical_len(&self) -> usize {
        self.physical_pubkeys.len()
    }

    fn assert_matches(&self, snapshot: &EvictionPlanningSnapshot) {
        assert_eq!(snapshot.physical_len(), self.physical_len());
        assert_eq!(
            snapshot.physical_pubkeys(),
            self.physical_pubkeys.as_slice()
        );
        assert_eq!(snapshot.owners().len(), self.owner_records.len());

        for (owner, (expected_touch, expected_pubkeys)) in &self.owner_records {
            let record = snapshot
                .owner_record(owner)
                .unwrap_or_else(|| panic!("missing owner record for {owner:?}"));
            assert_eq!(record.last_touch, *expected_touch);
            assert_eq!(&record.pubkeys, expected_pubkeys);
        }

        for (pubkey, expected_owners) in &self.pubkey_owner_sets {
            let expected_refcount = expected_owners.len();
            assert_eq!(snapshot.owner_refcount(pubkey), expected_refcount);
            let owners = snapshot
                .pubkey_owners(pubkey)
                .unwrap_or_else(|| panic!("missing pubkey index row for {pubkey:?}"));
            assert_eq!(owners.len(), expected_refcount);
            assert_eq!(
                owners.iter().cloned().collect::<BTreeSet<_>>(),
                *expected_owners
            );
        }
    }
}

fn fixtures_to_lru(fixtures: &[FixtureRow]) -> Vec<OwnerLruEntry> {
    fixtures
        .iter()
        .map(|(owner, touch, _)| lru(owner.clone(), *touch))
        .collect()
}

fn fixtures_to_ownership(fixtures: &[FixtureRow]) -> ExplicitOwnership {
    let mut ownership = ExplicitOwnership::new();
    for (owner, _, pubkeys) in fixtures {
        upsert(&mut ownership, owner.clone(), pubkeys.iter().copied());
    }
    ownership
}

#[test]
fn empty_ownership_accepts_empty_metadata() {
    let ownership = ExplicitOwnership::new();
    let oracle = FixtureOracle::from_fixtures(&[]);
    let snapshot = EvictionPlanningSnapshot::from_ownership(&ownership, vec![]).unwrap();
    oracle.assert_matches(&snapshot);
    assert_eq!(snapshot.physical_len(), 0);
    assert!(snapshot.owners().is_empty());
    assert!(snapshot.pubkey_index().is_empty());
}

#[test]
fn nonempty_ownership_rejects_missing_metadata_without_short_circuit() {
    let mut ownership = ExplicitOwnership::new();
    let owner = pool_owner(ExplicitConsumer::Tracker, 1);
    upsert(&mut ownership, owner.clone(), [pk(1)]);

    assert_eq!(
        EvictionPlanningSnapshot::from_ownership(&ownership, vec![]),
        Err(SnapshotBuildError::MissingLruEntry(owner.clone()))
    );
}

#[test]
fn single_and_multiple_owner_snapshots() {
    let a = pool_owner(ExplicitConsumer::Tracker, 1);
    let b = pool_owner(ExplicitConsumer::Arb, 2);
    let fixtures = [
        (a.clone(), 100, vec![pk(10)]),
        (b.clone(), 200, vec![pk(11), pk(12)]),
    ];
    let oracle = FixtureOracle::from_fixtures(&fixtures);
    let ownership = fixtures_to_ownership(&fixtures);

    let snapshot =
        EvictionPlanningSnapshot::from_ownership(&ownership, fixtures_to_lru(&fixtures))
            .unwrap();

    assert_eq!(snapshot.physical_len(), 3);
    assert_eq!(snapshot.owners().len(), 2);
    oracle.assert_matches(&snapshot);
}

#[test]
fn shared_keys_have_exact_refcounts_and_owner_sets() {
    let shared = pk(1);
    let a = pool_owner(ExplicitConsumer::Momentum, 1);
    let b = pool_owner(ExplicitConsumer::Arb, 2);
    let fixtures = [
        (a.clone(), 1, vec![shared, pk(2)]),
        (b.clone(), 2, vec![shared]),
    ];
    let oracle = FixtureOracle::from_fixtures(&fixtures);
    let ownership = fixtures_to_ownership(&fixtures);

    let snapshot =
        EvictionPlanningSnapshot::from_ownership(&ownership, fixtures_to_lru(&fixtures))
            .unwrap();

    oracle.assert_matches(&snapshot);
    let row = snapshot
        .pubkey_index()
        .iter()
        .find(|row| row.pubkey == shared)
        .unwrap();
    assert_eq!(row.refcount, 2);
    assert_eq!(row.owners.len(), 2);
}

#[test]
fn same_owner_key_across_consumers_remain_distinct() {
    let pool = pk(5);
    let momentum = ExplicitOwner {
        consumer: ExplicitConsumer::Momentum,
        owner_key: ExplicitOwnerKey::Pool(pool),
    };
    let arb = ExplicitOwner {
        consumer: ExplicitConsumer::Arb,
        owner_key: ExplicitOwnerKey::Pool(pool),
    };
    let fixtures = [
        (momentum.clone(), 7, vec![pk(10)]),
        (arb.clone(), 8, vec![pk(11)]),
    ];
    let oracle = FixtureOracle::from_fixtures(&fixtures);
    let ownership = fixtures_to_ownership(&fixtures);

    let snapshot =
        EvictionPlanningSnapshot::from_ownership(&ownership, fixtures_to_lru(&fixtures))
            .unwrap();

    assert_ne!(momentum, arb);
    oracle.assert_matches(&snapshot);
}

#[test]
fn missing_extra_and_duplicate_lru_are_rejected_without_mutation() {
    let owner = pool_owner(ExplicitConsumer::Tracker, 1);
    let fixtures = [(owner.clone(), 1, vec![pk(1)])];
    let ownership = fixtures_to_ownership(&fixtures);
    let groups_before = ownership.snapshot_owner_groups();
    let pubkeys_before = ownership.snapshot_pubkeys();

    let missing = EvictionPlanningSnapshot::from_ownership(&ownership, vec![]);
    assert_eq!(
        missing,
        Err(SnapshotBuildError::MissingLruEntry(owner.clone()))
    );
    assert_eq!(ownership.snapshot_owner_groups(), groups_before);
    assert_eq!(ownership.snapshot_pubkeys(), pubkeys_before);

    let extra = EvictionPlanningSnapshot::from_ownership(
        &ownership,
        vec![
            lru(owner.clone(), 1),
            lru(pool_owner(ExplicitConsumer::Tracker, 9), 2),
        ],
    );
    assert!(matches!(extra, Err(SnapshotBuildError::UnknownLruOwner(_))));

    let dup = EvictionPlanningSnapshot::from_ownership(
        &ownership,
        vec![lru(owner.clone(), 1), lru(owner.clone(), 2)],
    );
    assert_eq!(
        dup,
        Err(SnapshotBuildError::DuplicateLruOwner(owner.clone()))
    );
}

#[test]
fn deterministic_under_permuted_metadata_order() {
    let o1 = pool_owner(ExplicitConsumer::Tracker, 1);
    let o2 = pool_owner(ExplicitConsumer::Arb, 2);
    let o3 = pool_owner(ExplicitConsumer::Momentum, 3);
    let fixtures = [
        (o1.clone(), 10, vec![pk(1)]),
        (o2.clone(), 20, vec![pk(2)]),
        (o3.clone(), 30, vec![pk(3)]),
    ];
    let ownership = fixtures_to_ownership(&fixtures);

    let s1 = EvictionPlanningSnapshot::from_ownership(&ownership, fixtures_to_lru(&fixtures))
        .unwrap();
    let s2 = EvictionPlanningSnapshot::from_ownership(
        &ownership,
        vec![
            lru(o3.clone(), 30),
            lru(o1.clone(), 10),
            lru(o2.clone(), 20),
        ],
    )
    .unwrap();
    assert_eq!(s1, s2);
}

#[test]
fn physical_len_matches_fixture_physical_set() {
    let shared = pk(1);
    let a = pool_owner(ExplicitConsumer::Tracker, 1);
    let b = pool_owner(ExplicitConsumer::Arb, 2);
    let fixtures = [
        (a.clone(), 1, vec![shared, pk(2)]),
        (b.clone(), 2, vec![shared]),
    ];
    let oracle = FixtureOracle::from_fixtures(&fixtures);
    let ownership = fixtures_to_ownership(&fixtures);

    let snapshot =
        EvictionPlanningSnapshot::from_ownership(&ownership, fixtures_to_lru(&fixtures))
            .unwrap();
    assert_eq!(snapshot.physical_len(), oracle.physical_len());
    assert_eq!(snapshot.physical_len(), 2);
    oracle.assert_matches(&snapshot);
}

#[test]
fn checked_stamps_accept_usize_max_without_counter_arithmetic() {
    let owner = pool_owner(ExplicitConsumer::Momentum, 1);
    let fixtures = [(owner.clone(), u64::MAX, vec![pk(1)])];
    let oracle = FixtureOracle::from_fixtures(&fixtures);
    let ownership = fixtures_to_ownership(&fixtures);

    let snapshot =
        EvictionPlanningSnapshot::from_ownership(&ownership, fixtures_to_lru(&fixtures))
            .unwrap();
    oracle.assert_matches(&snapshot);
    assert_eq!(snapshot.last_touch(&owner), Some(u64::MAX));
}

#[test]
fn independent_oracle_derives_expected_state_before_sut() {
    let owners = [
        pool_owner(ExplicitConsumer::Wallet, 1),
        pool_owner(ExplicitConsumer::Momentum, 2),
        pool_owner(ExplicitConsumer::Arb, 3),
        pool_owner(ExplicitConsumer::Tracker, 4),
    ];
    let shared = pk(50);
    let fixtures = [
        (owners[0].clone(), 1, vec![pk(10)]),
        (owners[1].clone(), 2, vec![shared, pk(11)]),
        (owners[2].clone(), 3, vec![shared, pk(12)]),
        (owners[3].clone(), 4, vec![pk(13)]),
    ];

    let oracle = FixtureOracle::from_fixtures(&fixtures);
    let ownership = fixtures_to_ownership(&fixtures);
    let snapshot =
        EvictionPlanningSnapshot::from_ownership(&ownership, fixtures_to_lru(&fixtures))
            .unwrap();

    oracle.assert_matches(&snapshot);
}

#[test]
fn consumer_protection_rank_orders_wallet_above_tracker() {
    assert!(
        ConsumerProtectionRank::of(ExplicitConsumer::Wallet)
            < ConsumerProtectionRank::of(ExplicitConsumer::Tracker)
    );
    assert!(
        ConsumerProtectionRank::of(ExplicitConsumer::Momentum)
            < ConsumerProtectionRank::of(ExplicitConsumer::Arb)
    );
}

fn snapshot_from_fixtures(fixtures: &[FixtureRow]) -> EvictionPlanningSnapshot {
    let ownership = fixtures_to_ownership(fixtures);
    EvictionPlanningSnapshot::from_ownership(&ownership, fixtures_to_lru(fixtures)).unwrap()
}

fn feasibility_request(
    incoming_owner: ExplicitOwner,
    incoming_pubkeys: Vec<Pubkey>,
    cap: usize,
) -> TierFeasibilityRequest {
    TierFeasibilityRequest {
        incoming_owner,
        incoming_pubkeys,
        cap,
    }
}

fn assert_feasible(
    result: &TierFeasibilityResult,
    opened_through: EvictionTier,
    required_to_free: usize,
    incoming_physical_added: usize,
    maximally_freeable: &[Pubkey],
) {
    match result {
        TierFeasibilityResult::Feasible {
            incoming_physical_added: added,
            required_to_free: needed,
            opened_through: tier,
            maximally_freeable_pubkeys,
        } => {
            assert_eq!(*added, incoming_physical_added);
            assert_eq!(*needed, required_to_free);
            assert_eq!(*tier, opened_through);
            assert_eq!(maximally_freeable_pubkeys.as_slice(), maximally_freeable);
        }
        other => panic!("expected Feasible, got {other:?}"),
    }
}

struct TierFeasibilityOracle {
    physical_len: usize,
    pubkey_owner_sets: BTreeMap<Pubkey, BTreeSet<ExplicitOwner>>,
    evictable_owners_by_tier: BTreeMap<OracleTier, BTreeSet<ExplicitOwner>>,
}

#[derive(Debug, Clone, Copy, PartialEq, Eq, PartialOrd, Ord)]
enum OracleTier {
    Tracker,
    Arb,
    Momentum,
}

impl OracleTier {
    fn to_eviction_tier(self) -> EvictionTier {
        match self {
            Self::Tracker => EvictionTier::Tracker,
            Self::Arb => EvictionTier::Arb,
            Self::Momentum => EvictionTier::Momentum,
        }
    }
}

fn oracle_allowed_tiers(incoming: ExplicitConsumer) -> &'static [OracleTier] {
    match incoming {
        ExplicitConsumer::Tracker => &[OracleTier::Tracker],
        ExplicitConsumer::Arb => &[OracleTier::Tracker, OracleTier::Arb],
        ExplicitConsumer::Momentum | ExplicitConsumer::Wallet => {
            &[OracleTier::Tracker, OracleTier::Arb, OracleTier::Momentum]
        }
    }
}

fn oracle_owner_in_cumulative_tier(owner: &ExplicitOwner, tier: OracleTier) -> bool {
    match owner.consumer {
        ExplicitConsumer::Wallet => false,
        ExplicitConsumer::Tracker => true,
        ExplicitConsumer::Arb => matches!(tier, OracleTier::Arb | OracleTier::Momentum),
        ExplicitConsumer::Momentum => tier == OracleTier::Momentum,
    }
}

impl TierFeasibilityOracle {
    fn from_fixtures(fixtures: &[FixtureRow]) -> Self {
        let mut pubkey_owner_sets: BTreeMap<Pubkey, BTreeSet<ExplicitOwner>> = BTreeMap::new();
        let mut all_owners = BTreeSet::new();
        for (owner, _, pubkeys) in fixtures {
            all_owners.insert(owner.clone());
            for pubkey in pubkeys {
                pubkey_owner_sets
                    .entry(*pubkey)
                    .or_default()
                    .insert(owner.clone());
            }
        }

        let mut evictable_owners_by_tier: BTreeMap<OracleTier, BTreeSet<ExplicitOwner>> =
            BTreeMap::new();
        for tier in [OracleTier::Tracker, OracleTier::Arb, OracleTier::Momentum] {
            for owner in &all_owners {
                if oracle_owner_in_cumulative_tier(owner, tier) {
                    evictable_owners_by_tier
                        .entry(tier)
                        .or_default()
                        .insert(owner.clone());
                }
            }
        }

        Self {
            physical_len: pubkey_owner_sets.len(),
            pubkey_owner_sets,
            evictable_owners_by_tier,
        }
    }

    fn incoming_physical_added(&self, incoming_pubkeys: &[Pubkey]) -> usize {
        incoming_pubkeys
            .iter()
            .filter(|pk| !self.pubkey_owner_sets.contains_key(pk))
            .count()
    }

    fn maximally_freeable_via_subset_enumeration(
        &self,
        tier: OracleTier,
        incoming: &BTreeSet<Pubkey>,
    ) -> BTreeSet<Pubkey> {
        let empty = BTreeSet::new();
        let evictable = self.evictable_owners_by_tier.get(&tier).unwrap_or(&empty);
        let owners: Vec<&ExplicitOwner> = evictable.iter().collect();
        let n = owners.len();
        let mut best = BTreeSet::new();
        let limit = 1usize << n;
        for mask in 0..limit {
            let subset: BTreeSet<&ExplicitOwner> = owners
                .iter()
                .enumerate()
                .filter(|(idx, _)| mask & (1 << idx) != 0)
                .map(|(_, owner)| *owner)
                .collect();
            let freeable: BTreeSet<Pubkey> = self
                .pubkey_owner_sets
                .iter()
                .filter(|(pubkey, owner_set)| {
                    !incoming.contains(pubkey)
                        && owner_set.iter().all(|owner| subset.contains(owner))
                })
                .map(|(pubkey, _)| *pubkey)
                .collect();
            if freeable.len() > best.len() {
                best = freeable;
            }
        }
        best
    }

    fn analyze(
        &self,
        incoming_owner: &ExplicitOwner,
        incoming_pubkeys: &[Pubkey],
        cap: usize,
    ) -> TierFeasibilityResult {
        let mut normalized: Vec<Pubkey> = incoming_pubkeys.to_vec();
        normalized.sort();
        normalized.dedup();
        if normalized.is_empty() {
            return TierFeasibilityResult::RejectedInvalidInput;
        }
        let incoming_set: BTreeSet<Pubkey> = normalized.iter().copied().collect();
        let added = self.incoming_physical_added(&normalized);
        let projected = match self.physical_len.checked_add(added) {
            Some(v) => v,
            None => return TierFeasibilityResult::InternalInvariantViolation,
        };
        if projected <= cap {
            return TierFeasibilityResult::NoEvictionNeeded {
                incoming_physical_added: added,
                projected_final_len: projected,
            };
        }
        let required = match projected.checked_sub(cap) {
            Some(v) => v,
            None => return TierFeasibilityResult::InternalInvariantViolation,
        };
        let allowed = oracle_allowed_tiers(incoming_owner.consumer);
        let mut opened = None;
        let mut freeable_at_opened = BTreeSet::new();
        for tier in allowed {
            let freeable = self.maximally_freeable_via_subset_enumeration(*tier, &incoming_set);
            if freeable.len() >= required {
                opened = Some(*tier);
                freeable_at_opened = freeable;
                break;
            }
        }
        let mut maximally_freeable: Vec<Pubkey> = match opened {
            Some(_) => freeable_at_opened.into_iter().collect(),
            None => {
                let max_tier = *allowed.last().unwrap_or(&OracleTier::Tracker);
                self.maximally_freeable_via_subset_enumeration(max_tier, &incoming_set)
                    .into_iter()
                    .collect()
            }
        };
        maximally_freeable.sort();
        match opened {
            Some(tier) => TierFeasibilityResult::Feasible {
                incoming_physical_added: added,
                required_to_free: required,
                opened_through: tier.to_eviction_tier(),
                maximally_freeable_pubkeys: maximally_freeable,
            },
            None => TierFeasibilityResult::RejectedProtected {
                incoming_physical_added: added,
                required_to_free: required,
                maximally_freeable_pubkeys: maximally_freeable,
            },
        }
    }
}

#[test]
fn tier_feasibility_no_eviction_needed() {
    let tracker = pool_owner(ExplicitConsumer::Tracker, 1);
    let fixtures = [(tracker.clone(), 1, vec![pk(1)])];
    let snapshot = snapshot_from_fixtures(&fixtures);
    let incoming = pool_owner(ExplicitConsumer::Tracker, 9);
    let result =
        snapshot.analyze_tier_feasibility(feasibility_request(incoming, vec![pk(2)], 5));
    assert_eq!(
        result,
        TierFeasibilityResult::NoEvictionNeeded {
            incoming_physical_added: 1,
            projected_final_len: 2,
        }
    );
}

#[test]
fn tier_feasibility_tracker_tier_alone_suffices() {
    let t1 = pool_owner(ExplicitConsumer::Tracker, 1);
    let t2 = pool_owner(ExplicitConsumer::Tracker, 2);
    let fixtures = [(t1.clone(), 1, vec![pk(1)]), (t2.clone(), 2, vec![pk(2)])];
    let snapshot = snapshot_from_fixtures(&fixtures);
    let incoming = pool_owner(ExplicitConsumer::Momentum, 9);
    let result = snapshot.analyze_tier_feasibility(feasibility_request(
        incoming,
        vec![pk(10), pk(11)],
        2,
    ));
    assert_feasible(&result, EvictionTier::Tracker, 2, 2, &[pk(1), pk(2)]);
}

#[test]
fn tier_feasibility_jointly_shared_tracker_pubkeys_suffice() {
    let shared = pk(50);
    let t1 = pool_owner(ExplicitConsumer::Tracker, 1);
    let t2 = pool_owner(ExplicitConsumer::Tracker, 2);
    let fixtures = [
        (t1.clone(), 1, vec![shared]),
        (t2.clone(), 2, vec![shared, pk(2)]),
    ];
    let snapshot = snapshot_from_fixtures(&fixtures);
    let incoming = pool_owner(ExplicitConsumer::Momentum, 9);
    let result =
        snapshot.analyze_tier_feasibility(feasibility_request(incoming, vec![pk(10)], 2));
    assert_feasible(&result, EvictionTier::Tracker, 1, 1, &[pk(2), shared]);
}

#[test]
fn tier_feasibility_tracker_insufficient_arb_cumulative_suffices() {
    let shared = pk(50);
    let tracker = pool_owner(ExplicitConsumer::Tracker, 1);
    let arb = pool_owner(ExplicitConsumer::Arb, 2);
    let fixtures = [
        (tracker.clone(), 1, vec![pk(1), shared]),
        (arb.clone(), 2, vec![shared, pk(3)]),
    ];
    let snapshot = snapshot_from_fixtures(&fixtures);
    let incoming = pool_owner(ExplicitConsumer::Momentum, 9);
    let result = snapshot.analyze_tier_feasibility(feasibility_request(
        incoming,
        vec![pk(10), pk(11)],
        2,
    ));
    assert_feasible(&result, EvictionTier::Arb, 3, 2, &[pk(1), pk(3), shared]);
}

#[test]
fn tier_feasibility_incoming_tracker_cannot_open_arb_or_momentum() {
    let tracker = pool_owner(ExplicitConsumer::Tracker, 1);
    let arb = pool_owner(ExplicitConsumer::Arb, 2);
    let momentum = pool_owner(ExplicitConsumer::Momentum, 3);
    let fixtures = [
        (tracker.clone(), 1, vec![pk(1)]),
        (arb.clone(), 2, vec![pk(2)]),
        (momentum.clone(), 3, vec![pk(3)]),
    ];
    let snapshot = snapshot_from_fixtures(&fixtures);
    let incoming = pool_owner(ExplicitConsumer::Tracker, 9);
    let result = snapshot.analyze_tier_feasibility(feasibility_request(
        incoming.clone(),
        vec![pk(10), pk(11)],
        2,
    ));
    match &result {
        TierFeasibilityResult::RejectedProtected {
            maximally_freeable_pubkeys,
            ..
        } => assert_eq!(maximally_freeable_pubkeys, &[pk(1)]),
        other => panic!("expected RejectedProtected, got {other:?}"),
    }
    let feasible_only_tracker =
        snapshot.analyze_tier_feasibility(feasibility_request(incoming, vec![pk(10)], 3));
    assert_feasible(
        &feasible_only_tracker,
        EvictionTier::Tracker,
        1,
        1,
        &[pk(1)],
    );
}

#[test]
fn tier_feasibility_incoming_arb_cannot_open_momentum() {
    let tracker = pool_owner(ExplicitConsumer::Tracker, 1);
    let arb = pool_owner(ExplicitConsumer::Arb, 2);
    let momentum = pool_owner(ExplicitConsumer::Momentum, 3);
    let fixtures = [
        (tracker.clone(), 1, vec![pk(1)]),
        (arb.clone(), 2, vec![pk(2)]),
        (momentum.clone(), 3, vec![pk(3)]),
    ];
    let snapshot = snapshot_from_fixtures(&fixtures);
    let incoming = pool_owner(ExplicitConsumer::Arb, 9);
    let result = snapshot.analyze_tier_feasibility(feasibility_request(
        incoming,
        vec![pk(10), pk(11), pk(12)],
        2,
    ));
    match &result {
        TierFeasibilityResult::RejectedProtected {
            maximally_freeable_pubkeys,
            ..
        } => assert_eq!(maximally_freeable_pubkeys, &[pk(1), pk(2)]),
        other => panic!("expected RejectedProtected, got {other:?}"),
    }
}

#[test]
fn tier_feasibility_wallet_never_maximally_freeable() {
    let wallet = pool_owner(ExplicitConsumer::Wallet, 1);
    let tracker = pool_owner(ExplicitConsumer::Tracker, 2);
    let shared = pk(50);
    let fixtures = [
        (wallet.clone(), 1, vec![shared, pk(1)]),
        (tracker.clone(), 2, vec![pk(2)]),
    ];
    let snapshot = snapshot_from_fixtures(&fixtures);
    let incoming = pool_owner(ExplicitConsumer::Momentum, 9);
    let result =
        snapshot.analyze_tier_feasibility(feasibility_request(incoming, vec![pk(10)], 3));
    match &result {
        TierFeasibilityResult::Feasible {
            opened_through,
            maximally_freeable_pubkeys,
            required_to_free,
            ..
        } => {
            assert_eq!(*opened_through, EvictionTier::Tracker);
            assert_eq!(*required_to_free, 1);
            assert_eq!(maximally_freeable_pubkeys, &[pk(2)]);
            assert!(!maximally_freeable_pubkeys.contains(&shared));
            assert!(!maximally_freeable_pubkeys.contains(&pk(1)));
        }
        other => panic!("expected Feasible, got {other:?}"),
    }
}

#[test]
fn tier_feasibility_mixed_tracker_arb_pubkey_freeable_only_at_arb_tier() {
    let shared = pk(50);
    let tracker = pool_owner(ExplicitConsumer::Tracker, 1);
    let arb = pool_owner(ExplicitConsumer::Arb, 2);
    let fixtures = [
        (tracker.clone(), 1, vec![shared, pk(1)]),
        (arb.clone(), 2, vec![shared]),
    ];
    let snapshot = snapshot_from_fixtures(&fixtures);
    let incoming = pool_owner(ExplicitConsumer::Momentum, 9);

    let tracker_only = snapshot.analyze_tier_feasibility(feasibility_request(
        incoming.clone(),
        vec![pk(10)],
        2,
    ));
    match &tracker_only {
        TierFeasibilityResult::Feasible {
            opened_through,
            maximally_freeable_pubkeys,
            ..
        } => {
            assert_eq!(*opened_through, EvictionTier::Tracker);
            assert_eq!(maximally_freeable_pubkeys, &[pk(1)]);
            assert!(!maximally_freeable_pubkeys.contains(&shared));
        }
        other => panic!("expected Feasible at Tracker, got {other:?}"),
    }

    let needs_arb = snapshot.analyze_tier_feasibility(feasibility_request(
        incoming,
        vec![pk(10), pk(11)],
        2,
    ));
    assert_feasible(&needs_arb, EvictionTier::Arb, 2, 2, &[pk(1), shared]);
}

#[test]
fn tier_feasibility_incoming_overlap_never_counts_as_free() {
    let tracker = pool_owner(ExplicitConsumer::Tracker, 1);
    let fixtures = [(tracker.clone(), 1, vec![pk(1), pk(2)])];
    let snapshot = snapshot_from_fixtures(&fixtures);
    let incoming = pool_owner(ExplicitConsumer::Momentum, 9);
    let overlap = pk(1);
    let result = snapshot.analyze_tier_feasibility(feasibility_request(
        incoming,
        vec![overlap, pk(10)],
        2,
    ));
    match &result {
        TierFeasibilityResult::Feasible {
            maximally_freeable_pubkeys,
            ..
        } => {
            assert!(!maximally_freeable_pubkeys.contains(&overlap));
            assert_eq!(maximally_freeable_pubkeys, &[pk(2)]);
        }
        other => panic!("expected Feasible, got {other:?}"),
    }
}

#[test]
fn tier_feasibility_protected_rejection_reports_exact_maximal_pubkeys() {
    let wallet = pool_owner(ExplicitConsumer::Wallet, 1);
    let momentum = pool_owner(ExplicitConsumer::Momentum, 2);
    let fixtures = [
        (wallet.clone(), 1, vec![pk(1)]),
        (momentum.clone(), 2, vec![pk(2), pk(3)]),
    ];
    let snapshot = snapshot_from_fixtures(&fixtures);
    let incoming = pool_owner(ExplicitConsumer::Momentum, 9);
    let result = snapshot.analyze_tier_feasibility(feasibility_request(
        incoming,
        vec![pk(10), pk(11)],
        1,
    ));
    match &result {
        TierFeasibilityResult::RejectedProtected {
            required_to_free,
            maximally_freeable_pubkeys,
            ..
        } => {
            assert_eq!(*required_to_free, 4);
            assert_eq!(maximally_freeable_pubkeys, &[pk(2), pk(3)]);
        }
        other => panic!("expected RejectedProtected, got {other:?}"),
    }
}

#[test]
fn tier_feasibility_deterministic_under_permuted_incoming_order() {
    let t1 = pool_owner(ExplicitConsumer::Tracker, 1);
    let t2 = pool_owner(ExplicitConsumer::Tracker, 2);
    let fixtures = [(t1.clone(), 1, vec![pk(1)]), (t2.clone(), 2, vec![pk(2)])];
    let snapshot = snapshot_from_fixtures(&fixtures);
    let incoming = pool_owner(ExplicitConsumer::Momentum, 9);
    let a = snapshot.analyze_tier_feasibility(feasibility_request(
        incoming.clone(),
        vec![pk(10), pk(11), pk(12)],
        1,
    ));
    let b = snapshot.analyze_tier_feasibility(feasibility_request(
        incoming,
        vec![pk(12), pk(10), pk(11)],
        1,
    ));
    assert_eq!(a, b);
}

#[test]
fn tier_feasibility_rejects_duplicate_empty_and_existing_incoming() {
    let tracker = pool_owner(ExplicitConsumer::Tracker, 1);
    let fixtures = [(tracker.clone(), 1, vec![pk(1)])];
    let snapshot = snapshot_from_fixtures(&fixtures);
    let incoming = pool_owner(ExplicitConsumer::Momentum, 9);

    assert_eq!(
        snapshot.analyze_tier_feasibility(feasibility_request(incoming.clone(), vec![], 5)),
        TierFeasibilityResult::RejectedInvalidInput
    );
    assert_eq!(
        snapshot.analyze_tier_feasibility(feasibility_request(tracker.clone(), vec![pk(2)], 5)),
        TierFeasibilityResult::RejectedInvalidInput
    );

    let dup = snapshot.analyze_tier_feasibility(feasibility_request(
        incoming.clone(),
        vec![pk(2), pk(2)],
        5,
    ));
    assert!(matches!(
        dup,
        TierFeasibilityResult::NoEvictionNeeded { .. }
    ));
}

#[test]
fn tier_feasibility_usize_max_checked_fail_closed() {
    let tracker = pool_owner(ExplicitConsumer::Tracker, 1);
    let snapshot = EvictionPlanningSnapshot::test_only(
        usize::MAX,
        vec![OwnerPlanningRecord {
            owner: tracker.clone(),
            last_touch: 1,
            pubkeys: vec![pk(1)],
        }],
        vec![PubkeyOwnerIndex {
            pubkey: pk(1),
            refcount: 1,
            owners: vec![tracker],
        }],
    );
    let incoming = pool_owner(ExplicitConsumer::Momentum, 9);
    let result =
        snapshot.analyze_tier_feasibility(feasibility_request(incoming, vec![pk(2)], 0));
    assert_eq!(result, TierFeasibilityResult::InternalInvariantViolation);
}

#[test]
fn tier_feasibility_exhaustive_oracle_matches_small_fixture_graphs() {
    let shared_tracker_arb = pk(11);
    let shared_tracker_momentum = pk(50);
    let wallet_only = pk(20);
    let tracker_only = pk(1);

    let graphs: Vec<Vec<FixtureRow>> = vec![
        vec![
            (
                pool_owner(ExplicitConsumer::Tracker, 1),
                1,
                vec![tracker_only],
            ),
            (pool_owner(ExplicitConsumer::Arb, 2), 2, vec![pk(2)]),
        ],
        vec![
            (
                pool_owner(ExplicitConsumer::Tracker, 1),
                1,
                vec![pk(10), shared_tracker_arb],
            ),
            (
                pool_owner(ExplicitConsumer::Arb, 2),
                2,
                vec![shared_tracker_arb, pk(12)],
            ),
            (
                pool_owner(ExplicitConsumer::Momentum, 3),
                3,
                vec![pk(12), shared_tracker_momentum],
            ),
        ],
        vec![
            (
                pool_owner(ExplicitConsumer::Wallet, 1),
                1,
                vec![wallet_only, pk(21)],
            ),
            (
                pool_owner(ExplicitConsumer::Tracker, 2),
                2,
                vec![pk(21), shared_tracker_momentum],
            ),
            (
                pool_owner(ExplicitConsumer::Arb, 3),
                3,
                vec![shared_tracker_momentum, shared_tracker_arb],
            ),
        ],
        vec![
            (
                pool_owner(ExplicitConsumer::Tracker, 4),
                4,
                vec![shared_tracker_arb],
            ),
            (
                pool_owner(ExplicitConsumer::Arb, 5),
                5,
                vec![shared_tracker_arb, pk(30)],
            ),
            (
                pool_owner(ExplicitConsumer::Momentum, 6),
                6,
                vec![pk(30), pk(31)],
            ),
        ],
    ];

    let incoming_owners = [
        pool_owner(ExplicitConsumer::Tracker, 50),
        pool_owner(ExplicitConsumer::Arb, 51),
        pool_owner(ExplicitConsumer::Momentum, 52),
        pool_owner(ExplicitConsumer::Wallet, 53),
    ];

    let incoming_key_matrix = [
        vec![pk(100)],
        vec![pk(101), pk(102)],
        vec![pk(103)],
        vec![tracker_only],
        vec![shared_tracker_arb],
        vec![shared_tracker_momentum],
        vec![wallet_only],
        vec![pk(100), tracker_only],
        vec![pk(101), shared_tracker_arb],
        vec![pk(102), shared_tracker_momentum],
        vec![pk(103), wallet_only],
        vec![tracker_only, shared_tracker_arb, shared_tracker_momentum],
    ];

    for fixtures in graphs {
        let snapshot = snapshot_from_fixtures(&fixtures);
        let oracle = TierFeasibilityOracle::from_fixtures(&fixtures);
        for incoming_owner in &incoming_owners {
            if fixtures.iter().any(|(o, _, _)| o == incoming_owner) {
                continue;
            }
            for keys in &incoming_key_matrix {
                for cap in [0usize, 1, 2, 3, 5] {
                    let request =
                        feasibility_request(incoming_owner.clone(), keys.clone(), cap);
                    let actual = snapshot.analyze_tier_feasibility(request);
                    let expected = oracle.analyze(incoming_owner, keys, cap);
                    assert_eq!(
                        actual, expected,
                        "fixtures={fixtures:?} incoming={incoming_owner:?} keys={keys:?} cap={cap}"
                    );
                }
            }
        }
    }
}


fn victim_request(
    incoming_owner: ExplicitOwner,
    incoming_pubkeys: Vec<Pubkey>,
    cap: usize,
) -> VictimSelectionRequest {
    VictimSelectionRequest {
        incoming_owner,
        incoming_pubkeys,
        cap,
    }
}

fn assert_planned(
    result: &VictimSelectionResult,
    victims: &[ExplicitOwner],
    physical_freed: &[Pubkey],
    opened_through: EvictionTier,
    incoming_physical_added: usize,
    projected_final_len: usize,
) {
    match result {
        VictimSelectionResult::Planned(plan) => {
            assert_eq!(plan.victims.as_slice(), victims);
            assert_eq!(plan.physical_freed.as_slice(), physical_freed);
            assert_eq!(plan.opened_through, opened_through);
            assert_eq!(plan.incoming_physical_added, incoming_physical_added);
            assert_eq!(plan.projected_final_len, projected_final_len);
        }
        other => panic!("expected Planned, got {other:?}"),
    }
}

#[test]
fn victim_selection_no_eviction_needed() {
    let tracker = pool_owner(ExplicitConsumer::Tracker, 1);
    let fixtures = [(tracker.clone(), 1, vec![pk(1)])];
    let snapshot = snapshot_from_fixtures(&fixtures);
    let incoming = pool_owner(ExplicitConsumer::Tracker, 9);
    let result = select_eviction_victims(&snapshot, victim_request(incoming, vec![pk(2)], 5));
    assert_eq!(
        result,
        VictimSelectionResult::NoEvictionNeeded {
            incoming_physical_added: 1,
            projected_final_len: 2,
        }
    );
}

#[test]
fn victim_selection_tracker_before_arb_momentum() {
    let tracker = pool_owner(ExplicitConsumer::Tracker, 1);
    let arb = pool_owner(ExplicitConsumer::Arb, 2);
    let momentum = pool_owner(ExplicitConsumer::Momentum, 3);
    let fixtures = [
        (momentum.clone(), 30, vec![pk(3)]),
        (arb.clone(), 20, vec![pk(2)]),
        (tracker.clone(), 10, vec![pk(1)]),
    ];
    let snapshot = snapshot_from_fixtures(&fixtures);
    let incoming = pool_owner(ExplicitConsumer::Momentum, 9);
    let result = select_eviction_victims(&snapshot, victim_request(incoming, vec![pk(10)], 3));
    assert_planned(
        &result,
        std::slice::from_ref(&tracker),
        &[pk(1)],
        EvictionTier::Tracker,
        1,
        3,
    );
}

#[test]
fn victim_selection_same_tier_true_lru_and_owner_tie_break() {
    let t1 = pool_owner(ExplicitConsumer::Tracker, 1);
    let t2 = pool_owner(ExplicitConsumer::Tracker, 2);
    let fixtures = [
        (t1.clone(), 100, vec![pk(1)]),
        (t2.clone(), 200, vec![pk(2)]),
    ];
    let snapshot = snapshot_from_fixtures(&fixtures);
    let incoming = pool_owner(ExplicitConsumer::Momentum, 9);
    let result = select_eviction_victims(&snapshot, victim_request(incoming, vec![pk(10)], 2));
    assert_planned(
        &result,
        std::slice::from_ref(&t1),
        &[pk(1)],
        EvictionTier::Tracker,
        1,
        2,
    );
}

#[test]
fn victim_selection_wallet_never_victim() {
    let wallet = pool_owner(ExplicitConsumer::Wallet, 1);
    let tracker = pool_owner(ExplicitConsumer::Tracker, 2);
    let shared = pk(50);
    let fixtures = [
        (wallet.clone(), 1, vec![shared, pk(1)]),
        (tracker.clone(), 2, vec![pk(2)]),
    ];
    let snapshot = snapshot_from_fixtures(&fixtures);
    let incoming = pool_owner(ExplicitConsumer::Momentum, 9);
    let result = select_eviction_victims(&snapshot, victim_request(incoming, vec![pk(10)], 3));
    match &result {
        VictimSelectionResult::Planned(plan) => {
            assert!(!plan.victims.contains(&wallet));
            assert_eq!(plan.victims, vec![tracker.clone()]);
        }
        other => panic!("expected Planned, got {other:?}"),
    }
}

#[test]
fn victim_selection_zero_marginal_preserve_shared_incoming() {
    let shared = pk(50);
    let a = pool_owner(ExplicitConsumer::Tracker, 1);
    let b = pool_owner(ExplicitConsumer::Tracker, 2);
    let fixtures = [(a.clone(), 1, vec![shared]), (b.clone(), 2, vec![pk(2)])];
    let snapshot = snapshot_from_fixtures(&fixtures);
    let incoming = pool_owner(ExplicitConsumer::Momentum, 9);
    let result =
        select_eviction_victims(&snapshot, victim_request(incoming, vec![shared, pk(10)], 2));
    assert_planned(
        &result,
        std::slice::from_ref(&b),
        &[pk(2)],
        EvictionTier::Tracker,
        1,
        2,
    );
    assert!(!matches!(&result, VictimSelectionResult::Planned(p) if p.victims.contains(&a)));
}

#[test]
fn victim_selection_joint_shared_requires_both_owners() {
    let shared = pk(50);
    let a = pool_owner(ExplicitConsumer::Tracker, 1);
    let b = pool_owner(ExplicitConsumer::Tracker, 2);
    let fixtures = [(a.clone(), 1, vec![shared]), (b.clone(), 2, vec![shared])];
    let snapshot = snapshot_from_fixtures(&fixtures);
    let incoming = pool_owner(ExplicitConsumer::Momentum, 9);
    let result = select_eviction_victims(&snapshot, victim_request(incoming, vec![pk(10)], 1));
    assert_planned(
        &result,
        &[a.clone(), b.clone()],
        &[shared],
        EvictionTier::Tracker,
        1,
        1,
    );
}

#[test]
fn victim_selection_lower_tier_joint_when_higher_tier_positive_exists() {
    let shared_low = pk(50);
    let shared_high = pk(51);
    let t_joint = pool_owner(ExplicitConsumer::Tracker, 1);
    let t_pos = pool_owner(ExplicitConsumer::Tracker, 2);
    let m_pos = pool_owner(ExplicitConsumer::Momentum, 3);
    let fixtures = [
        (t_joint.clone(), 1, vec![shared_low]),
        (
            pool_owner(ExplicitConsumer::Tracker, 4),
            4,
            vec![shared_low],
        ),
        (t_pos.clone(), 2, vec![pk(1)]),
        (m_pos.clone(), 3, vec![shared_high, pk(2)]),
        (
            pool_owner(ExplicitConsumer::Momentum, 5),
            5,
            vec![shared_high],
        ),
    ];
    let snapshot = snapshot_from_fixtures(&fixtures);
    let incoming = pool_owner(ExplicitConsumer::Momentum, 9);
    let result =
        select_eviction_victims(&snapshot, victim_request(incoming, vec![pk(10), pk(11)], 3));
    match &result {
        VictimSelectionResult::Planned(plan) => {
            assert_eq!(plan.victims[0], t_pos);
            assert!(!plan.victims.contains(&t_joint));
        }
        other => panic!("expected Planned, got {other:?}"),
    }
}

#[test]
fn victim_selection_incoming_overlap_never_freed() {
    let tracker = pool_owner(ExplicitConsumer::Tracker, 1);
    let fixtures = [(tracker.clone(), 1, vec![pk(1), pk(2)])];
    let snapshot = snapshot_from_fixtures(&fixtures);
    let incoming = pool_owner(ExplicitConsumer::Momentum, 9);
    let overlap = pk(1);
    let result = select_eviction_victims(
        &snapshot,
        victim_request(incoming, vec![overlap, pk(10)], 2),
    );
    match &result {
        VictimSelectionResult::Planned(plan) => {
            assert!(!plan.physical_freed.contains(&overlap));
            assert_eq!(plan.physical_freed, vec![pk(2)]);
        }
        other => panic!("expected Planned, got {other:?}"),
    }
}

#[test]
fn victim_selection_mixed_tracker_arb_shared_minimal_opened_tier() {
    let shared = pk(50);
    let tracker = pool_owner(ExplicitConsumer::Tracker, 1);
    let arb = pool_owner(ExplicitConsumer::Arb, 2);
    let fixtures = [
        (tracker.clone(), 1, vec![shared, pk(1)]),
        (arb.clone(), 2, vec![shared]),
    ];
    let snapshot = snapshot_from_fixtures(&fixtures);
    let incoming = pool_owner(ExplicitConsumer::Momentum, 9);
    let result =
        select_eviction_victims(&snapshot, victim_request(incoming, vec![pk(10), pk(11)], 2));
    assert_planned(
        &result,
        &[tracker.clone(), arb.clone()],
        &[pk(1), shared],
        EvictionTier::Arb,
        2,
        2,
    );
}

#[test]
fn victim_selection_multiple_joint_packages_deterministic_tie_break() {
    let shared_a = pk(60);
    let shared_b = pk(61);
    let t1 = pool_owner(ExplicitConsumer::Tracker, 1);
    let t2 = pool_owner(ExplicitConsumer::Tracker, 2);
    let t3 = pool_owner(ExplicitConsumer::Tracker, 3);
    let t4 = pool_owner(ExplicitConsumer::Tracker, 4);
    let fixtures = [
        (t1.clone(), 10, vec![shared_a]),
        (t2.clone(), 20, vec![shared_a]),
        (t3.clone(), 30, vec![shared_b]),
        (t4.clone(), 40, vec![shared_b]),
    ];
    let snapshot = snapshot_from_fixtures(&fixtures);
    let incoming = pool_owner(ExplicitConsumer::Momentum, 9);
    let result =
        select_eviction_victims(&snapshot, victim_request(incoming, vec![pk(10), pk(11)], 3));
    assert_planned(
        &result,
        &[t1.clone(), t2.clone()],
        &[shared_a],
        EvictionTier::Tracker,
        2,
        3,
    );
}

#[test]
fn victim_selection_snapshot_invariant_under_fixture_permutations() {
    let shared = pk(50);
    let t1 = pool_owner(ExplicitConsumer::Tracker, 1);
    let t2 = pool_owner(ExplicitConsumer::Tracker, 2);
    let arb = pool_owner(ExplicitConsumer::Arb, 3);
    let fixtures = [
        (t1.clone(), 10, vec![pk(1), shared]),
        (t2.clone(), 20, vec![pk(2)]),
        (arb.clone(), 30, vec![shared, pk(3)]),
    ];
    let incoming = pool_owner(ExplicitConsumer::Momentum, 9);
    let request = victim_request(incoming, vec![pk(10), pk(11)], 3);

    let baseline_snapshot = snapshot_from_fixtures(&fixtures);
    let baseline = select_eviction_victims(&baseline_snapshot, request.clone());

    let row_perms = all_permutations(&(0..fixtures.len()).collect::<Vec<_>>());
    for row_perm in &row_perms {
        let perm_fixtures: Vec<FixtureRow> = row_perm
            .iter()
            .map(|&idx| {
                let (owner, touch, pubkeys) = &fixtures[idx];
                (owner.clone(), *touch, pubkeys.clone())
            })
            .collect();

        let pubkey_orders: Vec<Vec<usize>> = perm_fixtures
            .iter()
            .map(|(_, _, pubkeys)| {
                let mut order: Vec<usize> = (0..pubkeys.len()).collect();
                order.reverse();
                order
            })
            .collect();
        let permuted_pubkeys: Vec<FixtureRow> = perm_fixtures
            .iter()
            .enumerate()
            .map(|(row_idx, (owner, touch, pubkeys))| {
                let ordered: Vec<Pubkey> = pubkey_orders[row_idx]
                    .iter()
                    .map(|&key_idx| pubkeys[key_idx])
                    .collect();
                (owner.clone(), *touch, ordered)
            })
            .collect();

        for lru_perm in all_permutations(&(0..permuted_pubkeys.len()).collect::<Vec<_>>()) {
            let snapshot = snapshot_from_permuted(&permuted_pubkeys, &lru_perm).unwrap();
            let actual = select_eviction_victims(&snapshot, request.clone());
            assert_eq!(
                actual, baseline,
                "row_perm={row_perm:?} lru_perm={lru_perm:?}"
            );
        }
    }
}

fn all_permutations(items: &[usize]) -> Vec<Vec<usize>> {
    let n = items.len();
    if n == 0 {
        return vec![vec![]];
    }
    if n > 8 {
        return vec![items.to_vec(), items.iter().rev().copied().collect()];
    }
    let mut out = Vec::new();
    let mut used = vec![false; n];
    let mut current = Vec::with_capacity(n);
    permute_dfs(items, &mut used, &mut current, &mut out);
    out
}

fn permute_dfs(
    items: &[usize],
    used: &mut [bool],
    current: &mut Vec<usize>,
    out: &mut Vec<Vec<usize>>,
) {
    if current.len() == items.len() {
        out.push(current.clone());
        return;
    }
    for (idx, &item) in items.iter().enumerate() {
        if used[idx] {
            continue;
        }
        used[idx] = true;
        current.push(item);
        permute_dfs(items, used, current, out);
        current.pop();
        used[idx] = false;
    }
}

fn snapshot_from_permuted(
    fixtures: &[FixtureRow],
    lru_order: &[usize],
) -> Result<EvictionPlanningSnapshot, SnapshotBuildError> {
    let mut ownership = ExplicitOwnership::new();
    for (owner, _, pubkeys) in fixtures {
        upsert(&mut ownership, owner.clone(), pubkeys.iter().copied());
    }
    let lru_entries: Vec<OwnerLruEntry> = lru_order
        .iter()
        .map(|&idx| {
            let (owner, touch, _) = &fixtures[idx];
            lru(owner.clone(), *touch)
        })
        .collect();
    EvictionPlanningSnapshot::from_ownership(&ownership, lru_entries.to_vec())
}

#[test]
fn victim_selection_exact_deltas_after_multiple_rounds() {
    let shared = pk(50);
    let t1 = pool_owner(ExplicitConsumer::Tracker, 1);
    let t2 = pool_owner(ExplicitConsumer::Tracker, 2);
    let t3 = pool_owner(ExplicitConsumer::Tracker, 3);
    let fixtures = [
        (t1.clone(), 1, vec![pk(1)]),
        (t2.clone(), 2, vec![pk(2)]),
        (t3.clone(), 3, vec![shared]),
        (pool_owner(ExplicitConsumer::Tracker, 4), 4, vec![shared]),
    ];
    let snapshot = snapshot_from_fixtures(&fixtures);
    let incoming = pool_owner(ExplicitConsumer::Momentum, 9);
    let result =
        select_eviction_victims(&snapshot, victim_request(incoming, vec![pk(10), pk(11)], 3));
    match &result {
        VictimSelectionResult::Planned(plan) => {
            assert_eq!(plan.physical_freed.len(), 2);
            assert_eq!(plan.projected_final_len, 3);
            assert_eq!(
                snapshot.physical_len() + plan.incoming_physical_added
                    - plan.physical_freed.len(),
                plan.projected_final_len
            );
        }
        other => panic!("expected Planned, got {other:?}"),
    }
}

#[test]
fn victim_selection_protected_and_invalid_unchanged() {
    let wallet = pool_owner(ExplicitConsumer::Wallet, 1);
    let momentum = pool_owner(ExplicitConsumer::Momentum, 2);
    let fixtures = [
        (wallet.clone(), 1, vec![pk(1)]),
        (momentum.clone(), 2, vec![pk(2), pk(3)]),
    ];
    let snapshot = snapshot_from_fixtures(&fixtures);
    let incoming = pool_owner(ExplicitConsumer::Momentum, 9);
    let protected = select_eviction_victims(
        &snapshot,
        victim_request(incoming.clone(), vec![pk(10), pk(11)], 1),
    );
    assert!(matches!(
        protected,
        VictimSelectionResult::RejectedProtected { .. }
    ));

    assert_eq!(
        select_eviction_victims(&snapshot, victim_request(incoming, vec![], 5)),
        VictimSelectionResult::RejectedInvalidInput
    );
}

#[test]
fn victim_selection_adversarial_hypergraph_overlapping_packages() {
    let s1 = pk(1);
    let s2 = pk(2);
    let s3 = pk(3);
    let a = pool_owner(ExplicitConsumer::Tracker, 1);
    let b = pool_owner(ExplicitConsumer::Tracker, 2);
    let c = pool_owner(ExplicitConsumer::Tracker, 3);
    let fixtures = [
        (a.clone(), 1, vec![s1, s2]),
        (b.clone(), 2, vec![s2, s3]),
        (c.clone(), 3, vec![s1, s3]),
    ];
    let snapshot = snapshot_from_fixtures(&fixtures);
    let incoming = pool_owner(ExplicitConsumer::Momentum, 9);
    let result =
        select_eviction_victims(&snapshot, victim_request(incoming, vec![pk(10), pk(11)], 3));
    assert_planned(
        &result,
        &[a.clone(), b.clone(), c.clone()],
        &[s1, s2, s3],
        EvictionTier::Tracker,
        2,
        2,
    );
}

type PolicyOwnerRankKey = (u8, u64, ExplicitOwner);

#[derive(Debug, Clone, PartialEq, Eq, PartialOrd, Ord)]
struct PolicyPackageRankKey {
    max_tier: u8,
    member_keys: Vec<PolicyOwnerRankKey>,
    package_len: usize,
    owners: Vec<ExplicitOwner>,
}

struct IndependentVictimOracle {
    physical_len: usize,
    owner_records: BTreeMap<ExplicitOwner, (u64, Vec<Pubkey>)>,
    pubkey_holders: BTreeMap<Pubkey, BTreeSet<ExplicitOwner>>,
}

#[derive(Debug, Clone, Copy, PartialEq, Eq, PartialOrd, Ord)]
enum PolicyTier {
    Tracker,
    Arb,
    Momentum,
}

impl PolicyTier {
    fn to_eviction_tier(self) -> EvictionTier {
        match self {
            Self::Tracker => EvictionTier::Tracker,
            Self::Arb => EvictionTier::Arb,
            Self::Momentum => EvictionTier::Momentum,
        }
    }

    fn allowed_for_incoming(consumer: ExplicitConsumer) -> &'static [PolicyTier] {
        match consumer {
            ExplicitConsumer::Tracker => &[Self::Tracker],
            ExplicitConsumer::Arb => &[Self::Tracker, Self::Arb],
            ExplicitConsumer::Momentum | ExplicitConsumer::Wallet => {
                &[Self::Tracker, Self::Arb, Self::Momentum]
            }
        }
    }

    fn cumulative_consumers(self) -> &'static [ExplicitConsumer] {
        match self {
            Self::Tracker => &[ExplicitConsumer::Tracker],
            Self::Arb => &[ExplicitConsumer::Tracker, ExplicitConsumer::Arb],
            Self::Momentum => &[
                ExplicitConsumer::Tracker,
                ExplicitConsumer::Arb,
                ExplicitConsumer::Momentum,
            ],
        }
    }
}

struct VictimOracleCase {
    fixtures: Vec<FixtureRow>,
    incoming: ExplicitOwner,
    keys: Vec<Pubkey>,
    cap: usize,
}

impl IndependentVictimOracle {
    fn eviction_rank(consumer: ExplicitConsumer) -> u8 {
        match consumer {
            ExplicitConsumer::Tracker => 0,
            ExplicitConsumer::Arb => 1,
            ExplicitConsumer::Momentum => 2,
            ExplicitConsumer::Wallet => u8::MAX,
        }
    }

    fn from_fixtures(fixtures: &[FixtureRow]) -> Self {
        let mut owner_records = BTreeMap::new();
        let mut pubkey_holders: BTreeMap<Pubkey, BTreeSet<ExplicitOwner>> = BTreeMap::new();
        for (owner, touch, pubkeys) in fixtures {
            let mut normalized = pubkeys.clone();
            normalized.sort();
            normalized.dedup();
            owner_records.insert(owner.clone(), (*touch, normalized.clone()));
            for pubkey in &normalized {
                pubkey_holders
                    .entry(*pubkey)
                    .or_default()
                    .insert(owner.clone());
            }
        }
        Self {
            physical_len: pubkey_holders.len(),
            owner_records,
            pubkey_holders,
        }
    }

    fn incoming_physical_added(&self, incoming: &[Pubkey]) -> usize {
        incoming
            .iter()
            .filter(|pk| !self.pubkey_holders.contains_key(pk))
            .count()
    }

    fn eligible_owners_at_tier(&self, tier: PolicyTier) -> BTreeSet<ExplicitOwner> {
        let cumulative = PolicyTier::cumulative_consumers(tier);
        self.owner_records
            .keys()
            .filter(|owner| {
                owner.consumer != ExplicitConsumer::Wallet
                    && cumulative.contains(&owner.consumer)
            })
            .cloned()
            .collect()
    }

    fn freed_by_victim_subset(
        &self,
        victims: &BTreeSet<ExplicitOwner>,
        incoming: &BTreeSet<Pubkey>,
    ) -> BTreeSet<Pubkey> {
        self.pubkey_holders
            .iter()
            .filter(|(pubkey, holders)| {
                !incoming.contains(pubkey)
                    && holders.iter().all(|owner| victims.contains(owner))
            })
            .map(|(pubkey, _)| *pubkey)
            .collect()
    }

    fn powerset_max_freeable(
        &self,
        allowed: &BTreeSet<ExplicitOwner>,
        incoming: &BTreeSet<Pubkey>,
    ) -> usize {
        let owners: Vec<ExplicitOwner> = allowed.iter().cloned().collect();
        assert!(owners.len() <= 8, "powerset oracle limited to <=8 owners");
        let n = owners.len();
        let mut best = 0usize;
        for mask in 0..(1usize << n) {
            let subset: BTreeSet<ExplicitOwner> = owners
                .iter()
                .enumerate()
                .filter(|(idx, _)| mask & (1 << idx) != 0)
                .map(|(_, owner)| owner.clone())
                .collect();
            best = best.max(self.freed_by_victim_subset(&subset, incoming).len());
        }
        best
    }

    fn powerset_any_subset_frees_enough(
        &self,
        allowed: &BTreeSet<ExplicitOwner>,
        incoming: &BTreeSet<Pubkey>,
        required: usize,
    ) -> bool {
        self.powerset_max_freeable(allowed, incoming) >= required
    }

    fn pubkey_freeable_count_at_tier(
        &self,
        tier: PolicyTier,
        incoming: &BTreeSet<Pubkey>,
    ) -> usize {
        let eligible = self.eligible_owners_at_tier(tier);
        self.pubkey_holders
            .iter()
            .filter(|(pubkey, holders)| {
                !incoming.contains(pubkey)
                    && holders.iter().all(|owner| eligible.contains(owner))
            })
            .count()
    }

    fn sorted_candidates(&self, allowed: &BTreeSet<ExplicitOwner>) -> Vec<ExplicitOwner> {
        let mut candidates: Vec<ExplicitOwner> = allowed.iter().cloned().collect();
        candidates.sort_by(|a, b| {
            let touch_a = self.owner_records.get(a).map(|(t, _)| *t).unwrap_or(0);
            let touch_b = self.owner_records.get(b).map(|(t, _)| *t).unwrap_or(0);
            Self::eviction_rank(a.consumer)
                .cmp(&Self::eviction_rank(b.consumer))
                .then(touch_a.cmp(&touch_b))
                .then(a.cmp(b))
        });
        candidates
    }

    fn owner_pubkeys_map(&self) -> BTreeMap<ExplicitOwner, Vec<Pubkey>> {
        let mut map: BTreeMap<ExplicitOwner, Vec<Pubkey>> = BTreeMap::new();
        for (pubkey, holders) in &self.pubkey_holders {
            for owner in holders {
                map.entry(owner.clone()).or_default().push(*pubkey);
            }
        }
        for pubkeys in map.values_mut() {
            pubkeys.sort();
            pubkeys.dedup();
        }
        map
    }

    fn package_rank_tuple(&self, package: &BTreeSet<ExplicitOwner>) -> PolicyPackageRankKey {
        let max_tier = package
            .iter()
            .map(|owner| Self::eviction_rank(owner.consumer))
            .max()
            .unwrap_or(0);
        let mut member_keys: Vec<PolicyOwnerRankKey> = package
            .iter()
            .map(|owner| {
                let touch = self.owner_records.get(owner).map(|(t, _)| *t).unwrap_or(0);
                (Self::eviction_rank(owner.consumer), touch, owner.clone())
            })
            .collect();
        member_keys.sort();
        let mut owners: Vec<_> = package.iter().cloned().collect();
        owners.sort();
        PolicyPackageRankKey {
            max_tier,
            member_keys,
            package_len: package.len(),
            owners,
        }
    }

    fn compare_packages(
        &self,
        a: &BTreeSet<ExplicitOwner>,
        b: &BTreeSet<ExplicitOwner>,
    ) -> std::cmp::Ordering {
        self.package_rank_tuple(a).cmp(&self.package_rank_tuple(b))
    }

    fn procedural_selection(
        &self,
        allowed: &BTreeSet<ExplicitOwner>,
        incoming: &BTreeSet<Pubkey>,
        required: usize,
    ) -> Option<(Vec<ExplicitOwner>, BTreeSet<Pubkey>)> {
        let candidates = self.sorted_candidates(allowed);
        let owner_pubkeys = self.owner_pubkeys_map();
        let mut projected: BTreeMap<Pubkey, usize> = self
            .pubkey_holders
            .iter()
            .map(|(pubkey, holders)| (*pubkey, holders.len()))
            .collect();
        let mut selected = BTreeSet::new();
        let mut victims = Vec::new();
        let mut freed = BTreeSet::new();

        while freed.len() < required {
            let mut picked_positive = false;
            for owner in &candidates {
                if selected.contains(owner) {
                    continue;
                }
                let positive = owner_pubkeys
                    .get(owner)
                    .into_iter()
                    .flatten()
                    .any(|pubkey| {
                        !incoming.contains(pubkey)
                            && projected.get(pubkey).copied().unwrap_or(0) == 1
                    });
                if positive {
                    selected.insert(owner.clone());
                    victims.push(owner.clone());
                    for pubkey in owner_pubkeys.get(owner).into_iter().flatten() {
                        let prev = projected.get_mut(pubkey).unwrap();
                        if *prev == 0 {
                            continue;
                        }
                        *prev -= 1;
                        if *prev == 0 && !incoming.contains(pubkey) {
                            freed.insert(*pubkey);
                        }
                    }
                    picked_positive = true;
                    break;
                }
            }
            if picked_positive {
                continue;
            }

            let mut packages = BTreeSet::new();
            for (pubkey, holders) in &self.pubkey_holders {
                if incoming.contains(pubkey) {
                    continue;
                }
                let count = projected.get(pubkey).copied().unwrap_or(0);
                if count == 0 {
                    continue;
                }
                let remaining: BTreeSet<ExplicitOwner> = holders
                    .iter()
                    .filter(|owner| allowed.contains(*owner) && !selected.contains(*owner))
                    .cloned()
                    .collect();
                if remaining.len() == count && !remaining.is_empty() {
                    packages.insert(remaining);
                }
            }

            let best = packages
                .into_iter()
                .min_by(|a, b| self.compare_packages(a, b))?;

            for owner in &candidates {
                if best.contains(owner) && !selected.contains(owner) {
                    selected.insert(owner.clone());
                    victims.push(owner.clone());
                    for pubkey in owner_pubkeys.get(owner).into_iter().flatten() {
                        let prev = projected.get_mut(pubkey).unwrap();
                        if *prev == 0 {
                            continue;
                        }
                        *prev -= 1;
                        if *prev == 0 && !incoming.contains(pubkey) {
                            freed.insert(*pubkey);
                        }
                    }
                }
            }
        }

        Some((victims, freed))
    }

    fn analyze(
        &self,
        incoming_owner: &ExplicitOwner,
        incoming_pubkeys: &[Pubkey],
        cap: usize,
    ) -> VictimSelectionResult {
        let mut normalized: Vec<Pubkey> = incoming_pubkeys.to_vec();
        normalized.sort();
        normalized.dedup();
        if normalized.is_empty() {
            return VictimSelectionResult::RejectedInvalidInput;
        }
        if self.owner_records.contains_key(incoming_owner) {
            return VictimSelectionResult::RejectedInvalidInput;
        }

        let incoming_set: BTreeSet<Pubkey> = normalized.iter().copied().collect();
        let incoming_added = self.incoming_physical_added(&normalized);
        let projected = match self.physical_len.checked_add(incoming_added) {
            Some(value) => value,
            None => return VictimSelectionResult::InternalInvariantViolation,
        };
        if projected <= cap {
            return VictimSelectionResult::NoEvictionNeeded {
                incoming_physical_added: incoming_added,
                projected_final_len: projected,
            };
        }
        let required = match projected.checked_sub(cap) {
            Some(value) => value,
            None => return VictimSelectionResult::InternalInvariantViolation,
        };

        let allowed_tiers = PolicyTier::allowed_for_incoming(incoming_owner.consumer);
        let mut opened = None;
        for tier in allowed_tiers {
            if self.pubkey_freeable_count_at_tier(*tier, &incoming_set) >= required {
                opened = Some((*tier, self.eligible_owners_at_tier(*tier)));
                break;
            }
        }

        let Some((tier, allowed)) = opened else {
            let max_tier = *allowed_tiers.last().unwrap_or(&PolicyTier::Tracker);
            let max_allowed = self.eligible_owners_at_tier(max_tier);
            assert!(
                !self.powerset_any_subset_frees_enough(&max_allowed, &incoming_set, required),
                "RejectedProtected but powerset found feasible eligible subset"
            );
            return VictimSelectionResult::RejectedProtected {
                incoming_physical_added: incoming_added,
                required_to_free: required,
            };
        };

        assert!(
            self.powerset_any_subset_frees_enough(&allowed, &incoming_set, required),
            "opened tier but powerset found no feasible eligible subset"
        );

        let Some((victims, freed)) =
            self.procedural_selection(&allowed, &incoming_set, required)
        else {
            return VictimSelectionResult::InternalInvariantViolation;
        };

        let mut physical_freed: Vec<Pubkey> = freed.into_iter().collect();
        physical_freed.sort();
        let projected_final_len = self
            .physical_len
            .checked_add(incoming_added)
            .and_then(|value| value.checked_sub(physical_freed.len()))
            .unwrap_or(0);

        VictimSelectionResult::Planned(VictimSelectionPlan {
            victims,
            physical_freed,
            incoming_physical_added: incoming_added,
            projected_final_len,
            opened_through: tier.to_eviction_tier(),
        })
    }
}

fn victim_oracle_test_cases() -> Vec<VictimOracleCase> {
    let shared = pk(50);
    let shared_ab = pk(51);
    let wallet = pool_owner(ExplicitConsumer::Wallet, 1);
    let tracker_a = pool_owner(ExplicitConsumer::Tracker, 1);
    let tracker_b = pool_owner(ExplicitConsumer::Tracker, 2);
    let tracker_c = pool_owner(ExplicitConsumer::Tracker, 3);
    let arb_a = pool_owner(ExplicitConsumer::Arb, 4);
    let momentum_a = pool_owner(ExplicitConsumer::Momentum, 5);
    let incoming_tracker = pool_owner(ExplicitConsumer::Tracker, 90);
    let incoming_arb = pool_owner(ExplicitConsumer::Arb, 91);
    let incoming_momentum = pool_owner(ExplicitConsumer::Momentum, 92);

    vec![
        VictimOracleCase {
            fixtures: vec![
                (tracker_a.clone(), 1, vec![pk(1)]),
                (arb_a.clone(), 2, vec![pk(2)]),
            ],
            incoming: incoming_momentum.clone(),
            keys: vec![pk(100)],
            cap: 5,
        },
        VictimOracleCase {
            fixtures: vec![
                (tracker_a.clone(), 1, vec![pk(1)]),
                (arb_a.clone(), 2, vec![pk(2)]),
                (momentum_a.clone(), 3, vec![pk(3)]),
            ],
            incoming: incoming_momentum.clone(),
            keys: vec![pk(100)],
            cap: 2,
        },
        VictimOracleCase {
            fixtures: vec![
                (tracker_a.clone(), 1, vec![shared]),
                (tracker_b.clone(), 2, vec![shared]),
            ],
            incoming: incoming_momentum.clone(),
            keys: vec![pk(100)],
            cap: 1,
        },
        VictimOracleCase {
            fixtures: vec![
                (tracker_a.clone(), 1, vec![shared, pk(2)]),
                (arb_a.clone(), 3, vec![shared]),
            ],
            incoming: incoming_momentum.clone(),
            keys: vec![pk(100), pk(101)],
            cap: 2,
        },
        VictimOracleCase {
            fixtures: vec![
                (wallet.clone(), 1, vec![pk(10)]),
                (tracker_a.clone(), 2, vec![pk(11)]),
            ],
            incoming: incoming_momentum.clone(),
            keys: vec![pk(100)],
            cap: 2,
        },
        VictimOracleCase {
            fixtures: vec![(tracker_a.clone(), 1, vec![pk(1), pk(2)])],
            incoming: incoming_momentum.clone(),
            keys: vec![pk(1), pk(100)],
            cap: 2,
        },
        VictimOracleCase {
            fixtures: vec![
                (tracker_a.clone(), 1, vec![pk(1), shared_ab]),
                (arb_a.clone(), 2, vec![shared_ab]),
            ],
            incoming: incoming_momentum.clone(),
            keys: vec![pk(100), pk(101)],
            cap: 2,
        },
        VictimOracleCase {
            fixtures: vec![
                (tracker_a.clone(), 1, vec![pk(1), pk(2)]),
                (tracker_b.clone(), 2, vec![pk(2), pk(3)]),
                (tracker_c.clone(), 3, vec![pk(1), pk(3)]),
            ],
            incoming: incoming_momentum.clone(),
            keys: vec![pk(100), pk(101)],
            cap: 3,
        },
        VictimOracleCase {
            fixtures: vec![
                (tracker_a.clone(), 1, vec![shared]),
                (tracker_b.clone(), 2, vec![pk(2)]),
            ],
            incoming: incoming_momentum.clone(),
            keys: vec![shared, pk(100)],
            cap: 2,
        },
        VictimOracleCase {
            fixtures: vec![
                (wallet.clone(), 1, vec![pk(1)]),
                (momentum_a.clone(), 2, vec![pk(2), pk(3)]),
            ],
            incoming: incoming_momentum.clone(),
            keys: vec![pk(10), pk(11)],
            cap: 1,
        },
        VictimOracleCase {
            fixtures: vec![
                (tracker_a.clone(), 1, vec![pk(1)]),
                (arb_a.clone(), 2, vec![pk(2)]),
                (momentum_a.clone(), 3, vec![pk(3)]),
            ],
            incoming: incoming_tracker.clone(),
            keys: vec![pk(100), pk(101)],
            cap: 2,
        },
        VictimOracleCase {
            fixtures: vec![
                (tracker_a.clone(), 1, vec![pk(1)]),
                (arb_a.clone(), 2, vec![pk(2)]),
                (momentum_a.clone(), 3, vec![pk(3)]),
            ],
            incoming: incoming_arb.clone(),
            keys: vec![pk(100), pk(101), pk(102)],
            cap: 2,
        },
        VictimOracleCase {
            fixtures: vec![
                (tracker_a.clone(), 10, vec![pk(60)]),
                (tracker_b.clone(), 20, vec![pk(60)]),
                (tracker_c.clone(), 30, vec![pk(61)]),
                (pool_owner(ExplicitConsumer::Tracker, 6), 40, vec![pk(61)]),
            ],
            incoming: incoming_momentum.clone(),
            keys: vec![pk(100), pk(101)],
            cap: 3,
        },
    ]
}

#[test]
fn victim_selection_powerset_oracle_matches_production_on_deterministic_graphs() {
    for case in victim_oracle_test_cases() {
        assert!(
            case.fixtures.len() <= 8,
            "powerset oracle requires <=8 owners"
        );
        let snapshot = snapshot_from_fixtures(&case.fixtures);
        let oracle = IndependentVictimOracle::from_fixtures(&case.fixtures);
        let request = victim_request(case.incoming.clone(), case.keys.clone(), case.cap);
        let actual = select_eviction_victims(&snapshot, request);
        let expected = oracle.analyze(&case.incoming, &case.keys, case.cap);
        assert_eq!(
            actual, expected,
            "fixtures={:?} incoming={:?} keys={:?} cap={}",
            case.fixtures, case.incoming, case.keys, case.cap
        );
    }
}

fn assert_cap_shrink_planned(
    result: &CapShrinkSelectionResult,
    victims: &[ExplicitOwner],
    physical_freed: &[Pubkey],
    opened_through: EvictionTier,
    projected_final_len: usize,
) {
    match result {
        CapShrinkSelectionResult::Planned(plan) => {
            assert_eq!(plan.victims.as_slice(), victims);
            assert_eq!(plan.physical_freed.as_slice(), physical_freed);
            assert_eq!(plan.opened_through, opened_through);
            assert_eq!(plan.projected_final_len, projected_final_len);
        }
        other => panic!("expected planned cap shrink, got {other:?}"),
    }
}

#[test]
fn cap_shrink_selector_no_shrink_needed_when_within_cap() {
    let tracker = pool_owner(ExplicitConsumer::Tracker, 1);
    let fixtures = [(tracker, 1, vec![pk(1)])];
    let snapshot = snapshot_from_fixtures(&fixtures);
    assert_eq!(
        select_cap_shrink_victims(&snapshot, 5),
        CapShrinkSelectionResult::NoShrinkNeeded
    );
}

#[test]
fn cap_shrink_selector_evicts_tracker_before_arb() {
    let tracker = pool_owner(ExplicitConsumer::Tracker, 1);
    let arb = pool_owner(ExplicitConsumer::Arb, 2);
    let fixtures = [
        (tracker.clone(), 10, vec![pk(1)]),
        (arb.clone(), 20, vec![pk(2)]),
    ];
    let snapshot = snapshot_from_fixtures(&fixtures);
    assert_cap_shrink_planned(
        &select_cap_shrink_victims(&snapshot, 1),
        &[tracker],
        &[pk(1)],
        EvictionTier::Tracker,
        1,
    );
}

#[test]
fn cap_shrink_selector_true_lru_within_tier() {
    let t_old = pool_owner(ExplicitConsumer::Tracker, 1);
    let t_new = pool_owner(ExplicitConsumer::Tracker, 2);
    let fixtures = [
        (t_old.clone(), 10, vec![pk(1)]),
        (t_new.clone(), 20, vec![pk(2)]),
    ];
    let snapshot = snapshot_from_fixtures(&fixtures);
    assert_cap_shrink_planned(
        &select_cap_shrink_victims(&snapshot, 1),
        &[t_old],
        &[pk(1)],
        EvictionTier::Tracker,
        1,
    );
}

#[test]
fn cap_shrink_selector_joint_shared_victims() {
    let shared_a = pk(60);
    let shared_b = pk(61);
    let t1 = pool_owner(ExplicitConsumer::Tracker, 1);
    let t2 = pool_owner(ExplicitConsumer::Tracker, 2);
    let t3 = pool_owner(ExplicitConsumer::Tracker, 3);
    let t4 = pool_owner(ExplicitConsumer::Tracker, 4);
    let fixtures = [
        (t1.clone(), 10, vec![shared_a]),
        (t2.clone(), 20, vec![shared_a]),
        (t3.clone(), 30, vec![shared_b]),
        (t4.clone(), 40, vec![shared_b]),
    ];
    let snapshot = snapshot_from_fixtures(&fixtures);
    assert_cap_shrink_planned(
        &select_cap_shrink_victims(&snapshot, 1),
        &[t1.clone(), t2.clone()],
        &[shared_a],
        EvictionTier::Tracker,
        1,
    );
}

#[test]
fn cap_shrink_selector_wallet_never_victim() {
    let wallet = pool_owner(ExplicitConsumer::Wallet, 1);
    let shared = pk(50);
    let tracker = pool_owner(ExplicitConsumer::Tracker, 2);
    let fixtures = [
        (wallet.clone(), 1, vec![shared, pk(1)]),
        (tracker.clone(), 10, vec![shared, pk(2)]),
    ];
    let snapshot = snapshot_from_fixtures(&fixtures);
    match select_cap_shrink_victims(&snapshot, 2) {
        CapShrinkSelectionResult::Planned(plan) => {
            assert!(!plan.victims.contains(&wallet));
        }
        other => panic!("expected planned shrink, got {other:?}"),
    }
}

#[test]
fn cap_shrink_selector_protected_when_wallet_exceeds_target() {
    let wallet = pool_owner(ExplicitConsumer::Wallet, 1);
    let fixtures = [(wallet, 1, vec![pk(1), pk(2), pk(3)])];
    let snapshot = snapshot_from_fixtures(&fixtures);
    assert_eq!(
        select_cap_shrink_victims(&snapshot, 2),
        CapShrinkSelectionResult::RejectedProtected {
            required_to_free: 1
        }
    );
}

#[test]
fn large_graph_build_stats_match_constructor_work() {
    const OWNER_COUNT: usize = 400;
    const KEYS_PER_OWNER: usize = 3;

    let mut fixtures = Vec::with_capacity(OWNER_COUNT);
    for seed in 0..OWNER_COUNT {
        let owner = ExplicitOwner {
            consumer: ExplicitConsumer::Tracker,
            owner_key: ExplicitOwnerKey::Generic(seed as u64),
        };
        let pubkeys: Vec<Pubkey> = (0..KEYS_PER_OWNER)
            .map(|k| pk(((seed * KEYS_PER_OWNER + k) % 250) as u8))
            .collect();
        fixtures.push((owner, seed as u64, pubkeys));
    }

    let oracle = FixtureOracle::from_fixtures(&fixtures);
    let ownership = fixtures_to_ownership(&fixtures);
    let mut stats = BuildStats::default();
    let snapshot = EvictionPlanningSnapshot::from_ownership_with_stats(
        &ownership,
        fixtures_to_lru(&fixtures),
        &mut stats,
    )
    .unwrap();

    let total_edges = OWNER_COUNT * KEYS_PER_OWNER;
    assert_eq!(stats.owner_records_built, OWNER_COUNT as u64);
    assert_eq!(stats.group_key_edges, total_edges as u64);
    assert_eq!(stats.reverse_index_inserts, total_edges as u64);
    assert_eq!(
        stats.validation_reads,
        1 + oracle.physical_len() as u64,
        "one pubkey-list compare plus one refcount read per physical pubkey"
    );
    assert_eq!(snapshot.owners().len(), OWNER_COUNT);
    oracle.assert_matches(&snapshot);
}

#[test]
fn victim_selection_stats_track_real_work() {
    let shared = pk(50);
    let t1 = pool_owner(ExplicitConsumer::Tracker, 1);
    let t2 = pool_owner(ExplicitConsumer::Tracker, 2);
    let fixtures = [(t1.clone(), 1, vec![shared]), (t2.clone(), 2, vec![shared])];
    let snapshot = snapshot_from_fixtures(&fixtures);
    let incoming = pool_owner(ExplicitConsumer::Momentum, 9);
    let mut stats = SelectorStats::default();
    let _ = select_eviction_victims_with_stats(
        &snapshot,
        victim_request(incoming, vec![pk(10)], 1),
        &mut stats,
    );
    assert_eq!(stats.initial_edges, 2, "one shared edge per owner");
    assert!(stats.candidate_evaluations > 0);
    assert_eq!(stats.incremental_refcount_updates, 2);
    assert!(stats.package_evaluations > 0);
}

#[test]
fn work_is_counted_only_where_there_is_any() {
    let owner = pool_owner(ExplicitConsumer::Tracker, 1);
    let fixtures = [(owner.clone(), 1, vec![pk(1), pk(2)])];
    let ownership = fixtures_to_ownership(&fixtures);
    let mut build = BuildStats::default();
    assert!(EvictionPlanningSnapshot::from_ownership_with_stats(&ownership, vec![], &mut build)
        .is_err());
    assert_eq!(build, BuildStats::default());

    let snapshot = snapshot_from_fixtures(&fixtures);
    let mut work = SelectorStats::default();
    assert_eq!(
        select_cap_shrink_victims_with_stats(&snapshot, 2, &mut work),
        CapShrinkSelectionResult::NoShrinkNeeded
    );
    assert_eq!(work, SelectorStats::default());
    let planned = select_cap_shrink_victims_with_stats(&snapshot, 1, &mut work);
    assert!(matches!(planned, CapShrinkSelectionResult::Planned(_)));
    assert_eq!(
        work,
        SelectorStats {
            initial_edges: 2,
            candidate_evaluations: 1,
            incremental_refcount_updates: 2,
            package_evaluations: 0,
        }
    );
}

#[test]
fn shared_address_takes_a_look_at_each_owner_and_one_package() {
    let fixtures = [
        (pool_owner(ExplicitConsumer::Tracker, 1), 1, vec![pk(50)]),
        (pool_owner(ExplicitConsumer::Tracker, 2), 2, vec![pk(50)]),
    ];
    let snapshot = snapshot_from_fixtures(&fixtures);
    let mut stats = SelectorStats::default();
    let _ = select_eviction_victims_with_stats(
        &snapshot,
        victim_request(pool_owner(ExplicitConsumer::Momentum, 9), vec![pk(10)], 1),
        &mut stats,
    );
    assert_eq!(
        stats,
        SelectorStats {
            initial_edges: 2,
            candidate_evaluations: 2,
            incremental_refcount_updates: 2,
            package_evaluations: 1,
        }
    );
}
