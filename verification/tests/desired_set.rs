use track::desired_set::{ConsumerId, DesiredExplicitSet, symmetric_diff};
use track::pubkey::Pubkey;

fn unique() -> Pubkey {
    Pubkey::new_from_array(solana_sdk::pubkey::Pubkey::new_unique().to_bytes())
}

#[test]
fn phase2a_desired_set_refcount_wallet_never_evicted_by_momentum() {
    let wallet_pk = unique();
    let momentum_pks: Vec<Pubkey> = (0..4).map(|_| unique()).collect();
    let mut set = DesiredExplicitSet::new(3);

    assert!(set.insert(wallet_pk, ConsumerId::Wallet, None));
    for pk in &momentum_pks[..2] {
        assert!(set.insert(*pk, ConsumerId::Momentum, None));
    }
    assert_eq!(set.len(), 3);

    // Third momentum insert must evict a momentum row, not the wallet pin.
    assert!(set.insert(momentum_pks[2], ConsumerId::Momentum, None));
    assert!(set.contains(&wallet_pk));
    assert!(!set.contains(&momentum_pks[0]) || !set.contains(&momentum_pks[1]));
    assert!(set.contains(&momentum_pks[2]));

    let mut refcount = DesiredExplicitSet::new(10);
    let shared = unique();
    assert!(refcount.insert(shared, ConsumerId::Wallet, None));
    assert!(!refcount.insert(shared, ConsumerId::Momentum, None));
    assert!(!refcount.remove(shared, ConsumerId::Momentum));
    assert!(refcount.contains(&shared));
    assert!(refcount.remove(shared, ConsumerId::Wallet));
    assert!(!refcount.contains(&shared));
}

#[test]
fn symmetric_diff_detects_add_and_remove() {
    let a: Vec<Pubkey> = vec![unique(), unique()];
    let mut b = a.clone();
    let added = unique();
    b.push(added);
    let removed: Pubkey = *a.iter().next().unwrap();
    b.retain(|k| *k != removed);
    let delta = symmetric_diff(&a, &b);
    assert_eq!(delta.len(), 2);
    assert!(delta.contains(&added));
    assert!(delta.contains(&removed));
}

#[test]
fn address_of_the_wallet_makes_room_for_nobody() {
    let mut set = DesiredExplicitSet::new(2);
    let first = unique();
    let second = unique();
    assert!(set.insert(first, ConsumerId::Wallet, None));
    assert!(set.insert(second, ConsumerId::Wallet, None));
    for consumer in [
        ConsumerId::Wallet,
        ConsumerId::Momentum,
        ConsumerId::Arb,
        ConsumerId::Tracker,
    ] {
        assert!(!set.insert(unique(), consumer, None));
    }
    assert_eq!(set.len(), 2);
    assert!(set.contains(&first) && set.contains(&second));
}

#[test]
fn least_protected_addresses_go_first_when_the_cap_shrinks() {
    let mut set = DesiredExplicitSet::new(4);
    let wallet = unique();
    let momentum = unique();
    let arb = unique();
    let tracker = unique();
    assert!(set.insert(tracker, ConsumerId::Tracker, None));
    assert!(set.insert(arb, ConsumerId::Arb, Some(unique())));
    assert!(set.insert(momentum, ConsumerId::Momentum, None));
    assert!(set.insert(wallet, ConsumerId::Wallet, None));
    set.set_max_explicit_pubkeys(3);
    assert!(!set.contains(&tracker));
    set.set_max_explicit_pubkeys(2);
    assert!(!set.contains(&arb));
    assert_eq!(set.len(), 2);
    // The cap is never less than one.
    set.set_max_explicit_pubkeys(0);
    assert_eq!(set.max_explicit_pubkeys(), 1);
    assert_eq!(set.snapshot_pubkeys(), vec![wallet]);
    set.clear();
    assert!(set.is_empty());
}

#[test]
fn protection_follows_the_consumers_that_remain() {
    let mut set = DesiredExplicitSet::new(1);
    let shared = unique();
    assert!(set.insert(shared, ConsumerId::Tracker, None));
    assert!(!set.insert(shared, ConsumerId::Wallet, None));
    assert!(!set.insert(unique(), ConsumerId::Momentum, None));
    assert!(!set.remove(shared, ConsumerId::Wallet));
    assert_eq!(
        set.consumers_of(&shared),
        Some([ConsumerId::Tracker].as_slice())
    );
    let other = unique();
    assert!(set.insert(other, ConsumerId::Momentum, None));
    assert_eq!(set.snapshot_pubkeys(), vec![other]);
    assert_eq!(set.consumers_of(&shared), None);
    assert!(!set.remove(shared, ConsumerId::Tracker));
}

#[test]
fn newcomer_takes_no_place_of_a_better_protected_address() {
    let mut set = DesiredExplicitSet::new(2);
    let momentum = unique();
    let arb = unique();
    assert!(set.insert(momentum, ConsumerId::Momentum, None));
    assert!(set.insert(arb, ConsumerId::Arb, None));
    assert!(!set.insert(unique(), ConsumerId::Tracker, None));
    let other = unique();
    assert!(set.insert(other, ConsumerId::Arb, None));
    assert!(set.contains(&momentum));
    assert!(set.contains(&other));
    assert!(!set.contains(&arb));
}

#[test]
fn set_never_holds_more_than_its_cap() {
    let consumers = [
        ConsumerId::Tracker,
        ConsumerId::Arb,
        ConsumerId::Momentum,
        ConsumerId::Wallet,
    ];
    let mut set = DesiredExplicitSet::new(0);
    assert_eq!(set.max_explicit_pubkeys(), 1);
    for cap in [1usize, 5, 3, 0] {
        set.set_max_explicit_pubkeys(cap);
        assert!(set.len() <= set.max_explicit_pubkeys());
        for round in 0..8usize {
            let pk = unique();
            set.insert(pk, consumers[round % 4], None);
            assert!(set.len() <= set.max_explicit_pubkeys());
            if round % 3 == 0 {
                set.remove(pk, consumers[round % 4]);
                assert!(set.len() <= set.max_explicit_pubkeys());
            }
        }
    }
    set.clear();
    assert!(set.is_empty());
}
