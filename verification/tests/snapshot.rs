use track::desired_set::ConsumerId;
use track::explicit_ownership::{ExplicitConsumer, ExplicitOwnerKey, OwnerGroupSnapshot};
use track::pubkey::Pubkey;
use track::snapshot::{
    demand_row_of, explicit_owner_key_to_snapshot, owner_group_of, owner_group_snapshot_to_disk,
    owner_groups_of_rows, owner_key_of_kind, rows_to_owner_group_snapshots,
    snapshot_owner_group_to_domain, snapshot_owner_key_to_domain, stored_owner_key,
    ExplicitAccountKind,
    ExplicitSetSnapshot, ExplicitSnapshotRow, SnapshotConsumer, SnapshotOwnerGroup,
    SnapshotOwnerKey, EXPLICIT_SET_SNAPSHOT_VERSION, EXPLICIT_SET_SNAPSHOT_VERSION_V1,
};

fn outside_key() -> solana_sdk::pubkey::Pubkey {
    solana_sdk::pubkey::Pubkey::new_unique()
}

fn key_of(outside: &solana_sdk::pubkey::Pubkey) -> Pubkey {
    Pubkey::new_from_array(outside.to_bytes())
}

fn row(
    pubkey: String,
    consumer: SnapshotConsumer,
    pool: Option<String>,
) -> ExplicitSnapshotRow {
    ExplicitSnapshotRow {
        pubkey,
        consumer,
        pool,
        kind: ExplicitAccountKind::Vault,
    }
}

#[test]
fn explicit_set_snapshot_v1_rows_restore_owner_groups() {
    let mut snap = ExplicitSetSnapshot::new(None, 0);
    snap.version = EXPLICIT_SET_SNAPSHOT_VERSION_V1;
    let pool = outside_key();
    let vault = outside_key();
    snap.rows.push(ExplicitSnapshotRow {
        pubkey: vault.to_string(),
        consumer: SnapshotConsumer::Momentum,
        pool: Some(pool.to_string()),
        kind: ExplicitAccountKind::Vault,
    });
    let groups = snap.to_owner_group_snapshots();
    assert_eq!(groups.len(), 1);
    assert_eq!(groups[0].owner_key, ExplicitOwnerKey::Pool(key_of(&pool)));
    assert_eq!(groups[0].pubkeys, vec![key_of(&vault)]);
}

#[test]
fn versions_one_and_two_can_be_read() {
    let mut snap = ExplicitSetSnapshot::new(Some("run".to_string()), 7);
    assert_eq!(snap.version, EXPLICIT_SET_SNAPSHOT_VERSION);
    assert_eq!(snap.saved_at_unix, 7);
    assert!(snap.is_compatible());
    snap.version = 1;
    assert!(snap.is_compatible());
    snap.version = 99;
    assert!(!snap.is_compatible());
}

#[test]
fn owner_groups_read_back_what_was_stored() {
    let keys: Vec<ExplicitOwnerKey> = vec![
        ExplicitOwnerKey::Wallet,
        ExplicitOwnerKey::Pool(key_of(&outside_key())),
        ExplicitOwnerKey::Mint(key_of(&outside_key())),
        ExplicitOwnerKey::Generic(0),
        ExplicitOwnerKey::Generic(u64::MAX),
    ];
    let consumers = [
        ExplicitConsumer::Wallet,
        ExplicitConsumer::Momentum,
        ExplicitConsumer::Arb,
        ExplicitConsumer::Tracker,
    ];
    let mut snap = ExplicitSetSnapshot::new(None, 0);
    let mut groups: Vec<OwnerGroupSnapshot> = Vec::new();
    for owner_key in keys {
        for consumer in consumers {
            let group = OwnerGroupSnapshot {
                consumer,
                owner_key,
                pubkeys: vec![key_of(&outside_key()), key_of(&outside_key())],
            };
            let stored = owner_group_snapshot_to_disk(&group);
            assert_eq!(snapshot_owner_group_to_domain(&stored), Some(group.clone()));
            snap.owner_groups.push(stored);
            groups.push(group);
        }
    }
    assert_eq!(snap.to_owner_group_snapshots(), groups);
    assert_eq!(snap.explicit_pubkey_count(), 40);
}

#[test]
fn addresses_are_stored_in_base_58() {
    let system = ExplicitOwnerKey::Pool(Pubkey::new_from_array([0; 32]));
    let stored = explicit_owner_key_to_snapshot(&system);
    assert_eq!(stored.kind, "pool");
    assert_eq!(
        stored.pubkey,
        Some("11111111111111111111111111111111".to_string())
    );
    let mut bytes = [0u8; 32];
    bytes[31] = 58;
    let stored = explicit_owner_key_to_snapshot(&ExplicitOwnerKey::Mint(Pubkey::new_from_array(
        bytes,
    )));
    assert_eq!(
        stored.pubkey,
        Some("111111111111111111111111111111121".to_string())
    );
    let stored = explicit_owner_key_to_snapshot(&ExplicitOwnerKey::Generic(1204));
    assert_eq!(stored.kind, "generic");
    assert_eq!(stored.pubkey, Some("1204".to_string()));
}

#[test]
fn unreadable_owner_keys_are_refused() {
    let key = |kind: &str, text: Option<&str>| SnapshotOwnerKey {
        kind: kind.to_string(),
        pubkey: text.map(|t| t.to_string()),
    };
    assert_eq!(snapshot_owner_key_to_domain(&key("account", None)), None);
    assert_eq!(snapshot_owner_key_to_domain(&key("pool", None)), None);
    assert_eq!(snapshot_owner_key_to_domain(&key("pool", Some("0OIl"))), None);
    assert_eq!(snapshot_owner_key_to_domain(&key("mint", Some("abc"))), None);
    assert_eq!(snapshot_owner_key_to_domain(&key("generic", Some("-1"))), None);
    assert_eq!(
        snapshot_owner_key_to_domain(&key("generic", Some("18446744073709551616"))),
        None
    );
    assert_eq!(
        snapshot_owner_key_to_domain(&key("generic", Some("+007"))),
        Some(ExplicitOwnerKey::Generic(7))
    );
    assert_eq!(
        snapshot_owner_key_to_domain(&key("wallet", Some("anything"))),
        Some(ExplicitOwnerKey::Wallet)
    );
}

#[test]
fn group_without_a_readable_address_is_refused() {
    let readable = outside_key();
    let mut group = SnapshotOwnerGroup {
        consumer: SnapshotConsumer::Arb,
        owner: SnapshotOwnerKey {
            kind: "wallet".to_string(),
            pubkey: None,
        },
        pubkeys: vec!["not an address".to_string()],
    };
    assert_eq!(snapshot_owner_group_to_domain(&group), None);
    group.pubkeys.push(readable.to_string());
    assert_eq!(
        snapshot_owner_group_to_domain(&group).map(|g| g.pubkeys),
        Some(vec![key_of(&readable)])
    );
}

#[test]
fn rows_are_grouped_by_wallet_pool_and_mint() {
    let pool = outside_key();
    let a = outside_key();
    let b = outside_key();
    let rows = vec![
        row(a.to_string(), SnapshotConsumer::Wallet, Some("unreadable".to_string())),
        row(b.to_string(), SnapshotConsumer::Wallet, None),
        row(a.to_string(), SnapshotConsumer::Momentum, Some(pool.to_string())),
        row(a.to_string(), SnapshotConsumer::Momentum, Some(pool.to_string())),
        row(b.to_string(), SnapshotConsumer::Arb, None),
        row(b.to_string(), SnapshotConsumer::Arb, Some("unreadable".to_string())),
        row("unreadable".to_string(), SnapshotConsumer::Tracker, None),
    ];
    let mut both = vec![key_of(&a), key_of(&b)];
    both.sort();
    assert_eq!(
        rows_to_owner_group_snapshots(&rows),
        vec![
            OwnerGroupSnapshot {
                consumer: ExplicitConsumer::Wallet,
                owner_key: ExplicitOwnerKey::Wallet,
                pubkeys: both,
            },
            OwnerGroupSnapshot {
                consumer: ExplicitConsumer::Momentum,
                owner_key: ExplicitOwnerKey::Pool(key_of(&pool)),
                pubkeys: vec![key_of(&a)],
            },
            OwnerGroupSnapshot {
                consumer: ExplicitConsumer::Arb,
                owner_key: ExplicitOwnerKey::Mint(key_of(&b)),
                pubkeys: vec![key_of(&b)],
            },
        ]
    );
}

#[test]
fn rows_count_only_without_groups() {
    let mut snap = ExplicitSetSnapshot::new(None, 0);
    snap.rows.push(row(
        outside_key().to_string(),
        SnapshotConsumer::Tracker,
        None,
    ));
    assert_eq!(snap.explicit_pubkey_count(), 1);
    snap.owner_groups.push(SnapshotOwnerGroup {
        consumer: SnapshotConsumer::Arb,
        owner: SnapshotOwnerKey {
            kind: "wallet".to_string(),
            pubkey: None,
        },
        pubkeys: vec!["a".to_string(), "b".to_string(), "c".to_string()],
    });
    assert_eq!(snap.explicit_pubkey_count(), 3);
}

fn pk(seed: u8) -> Pubkey {
    Pubkey::new_from_array([seed; 32])
}

#[test]
fn kind_decides_what_the_text_of_a_key_is() {
    let address = Some(pk(4));
    let number = Some(12);
    let key = |kind: &str| owner_key_of_kind(&kind.to_string(), address, number);
    assert_eq!(key("wallet"), Some(ExplicitOwnerKey::Wallet));
    assert_eq!(key("pool"), Some(ExplicitOwnerKey::Pool(pk(4))));
    assert_eq!(key("mint"), Some(ExplicitOwnerKey::Mint(pk(4))));
    assert_eq!(key("generic"), Some(ExplicitOwnerKey::Generic(12)));
    assert_eq!(key("Pool"), None);
    assert_eq!(owner_key_of_kind(&"pool".to_string(), None, number), None);
    assert_eq!(owner_key_of_kind(&"generic".to_string(), address, None), None);
    assert_eq!(
        owner_key_of_kind(&"wallet".to_string(), None, None),
        Some(ExplicitOwnerKey::Wallet)
    );
    assert_eq!(
        stored_owner_key(&ExplicitOwnerKey::Mint(pk(4)), Some("text".to_string())),
        SnapshotOwnerKey {
            kind: "mint".to_string(),
            pubkey: Some("text".to_string()),
        }
    );
}

#[test]
fn group_keeps_the_addresses_that_could_be_read() {
    let read = [None, Some(pk(2)), None, Some(pk(1)), Some(pk(2))];
    assert_eq!(
        owner_group_of(
            SnapshotConsumer::Arb,
            Some(ExplicitOwnerKey::Generic(3)),
            &read
        ),
        Some(OwnerGroupSnapshot {
            consumer: ExplicitConsumer::Arb,
            owner_key: ExplicitOwnerKey::Generic(3),
            pubkeys: vec![pk(2), pk(1), pk(2)],
        })
    );
    assert_eq!(owner_group_of(SnapshotConsumer::Arb, None, &read), None);
    assert_eq!(
        owner_group_of(
            SnapshotConsumer::Arb,
            Some(ExplicitOwnerKey::Wallet),
            &[None]
        ),
        None
    );
}

#[test]
fn row_needs_its_address_and_off_the_wallet_its_pool() {
    let address = Some(pk(1));
    assert_eq!(
        demand_row_of(SnapshotConsumer::Wallet, address, Some(None)),
        Some((pk(1), ConsumerId::Wallet, None))
    );
    assert_eq!(
        demand_row_of(SnapshotConsumer::Momentum, address, Some(Some(pk(2)))),
        Some((pk(1), ConsumerId::Momentum, Some(pk(2))))
    );
    assert_eq!(
        demand_row_of(SnapshotConsumer::Tracker, address, None),
        Some((pk(1), ConsumerId::Tracker, None))
    );
    assert_eq!(
        demand_row_of(SnapshotConsumer::Arb, address, Some(None)),
        None
    );
    assert_eq!(
        demand_row_of(SnapshotConsumer::Wallet, None, None),
        None
    );
}

#[test]
fn demand_rows_are_grouped_by_owner_in_order() {
    let groups = owner_groups_of_rows(&[
        (pk(9), ConsumerId::Arb, Some(pk(5))),
        (pk(3), ConsumerId::Wallet, None),
        (pk(8), ConsumerId::Arb, Some(pk(5))),
        (pk(9), ConsumerId::Arb, Some(pk(5))),
    ]);
    assert_eq!(groups.len(), 2);
    assert_eq!(groups[0].consumer, ExplicitConsumer::Wallet);
    assert_eq!(groups[0].pubkeys, vec![pk(3)]);
    assert_eq!(groups[1].owner_key, ExplicitOwnerKey::Pool(pk(5)));
    assert_eq!(groups[1].pubkeys, vec![pk(8), pk(9)]);
}
