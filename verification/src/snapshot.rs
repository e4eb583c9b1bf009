//! The explicit subscription set as it is stored between runs.

use crate::admission_wiring;
use crate::admission_wiring::rows_to_owner_groups;
use crate::decimal;
use crate::desired_set::ConsumerId;
use crate::explicit_ownership::{
    ExplicitConsumer, ExplicitOwner, ExplicitOwnerKey, OwnerGroupSnapshot,
};
use crate::ordered;
use crate::ordered::Ranked;
use crate::pubkey::Pubkey;
use std::str::FromStr;
use vstd::prelude::*;
use vstd::std_specs::convert::FromSpecImpl;

verus! {

/// Format version of stored snapshots, with complete owner groups.
pub const EXPLICIT_SET_SNAPSHOT_VERSION: u32 = 2;

/// The older format, with rows only, can still be read.
pub const EXPLICIT_SET_SNAPSHOT_VERSION_V1: u32 = 1;

/// Where a snapshot is stored unless the environment says otherwise.
pub const EXPLICIT_SET_SNAPSHOT_DEFAULT_PATH: &'static str =
    "/var/lib/ironcrab/explicit_set.snapshot";

/// How often a snapshot is written.
pub const MARKET_DATA_EXPLICIT_SET_SNAPSHOT_INTERVAL_SECS: u64 = 300;

/// How many entries of the pool-to-mint map a snapshot keeps.
pub const EXPLICIT_SET_SNAPSHOT_POOL_MINT_MAP_CAP: usize = 50_000;

/// The consumer of a stored row or group.
#[derive(Debug, Clone, Copy, PartialEq, Eq, Structural)]
pub enum SnapshotConsumer {
    Wallet,
    Momentum,
    Arb,
    Tracker,
}

/// The stored form of a consumer of demand rows.
pub open spec fn stored_consumer_id(c: ConsumerId) -> SnapshotConsumer {
    match c {
        ConsumerId::Wallet => SnapshotConsumer::Wallet,
        ConsumerId::Momentum => SnapshotConsumer::Momentum,
        ConsumerId::Arb => SnapshotConsumer::Arb,
        ConsumerId::Tracker => SnapshotConsumer::Tracker,
    }
}

/// The stored form of a consumer of owner groups.
pub open spec fn stored_consumer(c: ExplicitConsumer) -> SnapshotConsumer {
    match c {
        ExplicitConsumer::Wallet => SnapshotConsumer::Wallet,
        ExplicitConsumer::Momentum => SnapshotConsumer::Momentum,
        ExplicitConsumer::Arb => SnapshotConsumer::Arb,
        ExplicitConsumer::Tracker => SnapshotConsumer::Tracker,
    }
}

/// The consumer of owner groups that a stored one stands for.
pub open spec fn read_consumer(c: SnapshotConsumer) -> ExplicitConsumer {
    match c {
        SnapshotConsumer::Wallet => ExplicitConsumer::Wallet,
        SnapshotConsumer::Momentum => ExplicitConsumer::Momentum,
        SnapshotConsumer::Arb => ExplicitConsumer::Arb,
        SnapshotConsumer::Tracker => ExplicitConsumer::Tracker,
    }
}

/// The consumer of demand rows that a stored one stands for.
pub open spec fn read_consumer_id(c: SnapshotConsumer) -> ConsumerId {
    match c {
        SnapshotConsumer::Wallet => ConsumerId::Wallet,
        SnapshotConsumer::Momentum => ConsumerId::Momentum,
        SnapshotConsumer::Arb => ConsumerId::Arb,
        SnapshotConsumer::Tracker => ConsumerId::Tracker,
    }
}

impl From<ConsumerId> for SnapshotConsumer {
    fn from(c: ConsumerId) -> (r: Self) {
        match c {
            ConsumerId::Wallet => SnapshotConsumer::Wallet,
            ConsumerId::Momentum => SnapshotConsumer::Momentum,
            ConsumerId::Arb => SnapshotConsumer::Arb,
            ConsumerId::Tracker => SnapshotConsumer::Tracker,
        }
    }
}

impl FromSpecImpl<ConsumerId> for SnapshotConsumer {
    open spec fn obeys_from_spec() -> bool {
        true
    }

    open spec fn from_spec(c: ConsumerId) -> Self {
        stored_consumer_id(c)
    }
}

impl From<ExplicitConsumer> for SnapshotConsumer {
    fn from(c: ExplicitConsumer) -> (r: Self) {
        match c {
            ExplicitConsumer::Wallet => SnapshotConsumer::Wallet,
            ExplicitConsumer::Momentum => SnapshotConsumer::Momentum,
            ExplicitConsumer::Arb => SnapshotConsumer::Arb,
            ExplicitConsumer::Tracker => SnapshotConsumer::Tracker,
        }
    }
}

impl FromSpecImpl<ExplicitConsumer> for SnapshotConsumer {
    open spec fn obeys_from_spec() -> bool {
        true
    }

    open spec fn from_spec(c: ExplicitConsumer) -> Self {
        stored_consumer(c)
    }
}

fn snapshot_consumer_to_domain(c: SnapshotConsumer) -> (r: ExplicitConsumer)
    ensures
        r == read_consumer(c),
{
    match c {
        SnapshotConsumer::Wallet => ExplicitConsumer::Wallet,
        SnapshotConsumer::Momentum => ExplicitConsumer::Momentum,
        SnapshotConsumer::Arb => ExplicitConsumer::Arb,
        SnapshotConsumer::Tracker => ExplicitConsumer::Tracker,
    }
}

fn snapshot_consumer_to_row(c: SnapshotConsumer) -> (r: ConsumerId)
    ensures
        r == read_consumer_id(c),
{
    match c {
        SnapshotConsumer::Wallet => ConsumerId::Wallet,
        SnapshotConsumer::Momentum => ConsumerId::Momentum,
        SnapshotConsumer::Arb => ConsumerId::Arb,
        SnapshotConsumer::Tracker => ConsumerId::Tracker,
    }
}

/// What an account of a stored row is.
#[derive(Debug, Clone, Copy, PartialEq, Eq, Structural)]
pub enum ExplicitAccountKind {
    Mint,
    Vault,
    BinArray,
    WalletToken,
}

/// A stored row of the older format.
#[derive(Debug, Clone, PartialEq, Eq)]
pub struct ExplicitSnapshotRow {
    pub pubkey: String,
    pub consumer: SnapshotConsumer,
    pub pool: Option<String>,
    pub kind: ExplicitAccountKind,
}

/// A stored owner key: what kind it is, and its address or number as text.
#[derive(Debug, Clone, PartialEq, Eq)]
pub struct SnapshotOwnerKey {
    pub kind: String,
    pub pubkey: Option<String>,
}

/// A stored owner group.
#[derive(Debug, Clone, PartialEq, Eq)]
pub struct SnapshotOwnerGroup {
    pub consumer: SnapshotConsumer,
    pub owner: SnapshotOwnerKey,
    pub pubkeys: Vec<String>,
}

/// A stored snapshot.
#[derive(Debug, Clone, PartialEq, Eq)]
pub struct ExplicitSetSnapshot {
    pub version: u32,
    pub saved_at_unix: u64,
    pub run_id: Option<String>,
    pub rows: Vec<ExplicitSnapshotRow>,
    pub owner_groups: Vec<SnapshotOwnerGroup>,
    pub pool_mint_map: Vec<(String, String)>,
    pub momentum_pools: Vec<String>,
    pub arb_pools: Vec<String>,
}

/// The text of an address, in base 58.
pub uninterp spec fn address_text(bytes: Seq<u8>) -> Seq<char>;

/// The address that a text stands for in base 58, if it is one of an address.
pub uninterp spec fn parsed_address(text: Seq<char>) -> Option<Seq<u8>>;

/// `Pubkey::to_string` of `solana_sdk`, its `Display` in base 58. Believed of it: the text
/// depends on the bytes alone, and `Pubkey::from_str` reads the same bytes back from it. Which
/// digits it has is not stated.
#[verifier::external_body]
fn address_to_string(bytes: &[u8; 32]) -> (text: String)
    ensures
        text@ == address_text(bytes@),
        parsed_address(text@) == Some(bytes@),
{
    solana_sdk::pubkey::Pubkey::new_from_array(*bytes).to_string()
}

/// `Pubkey::from_str` of `solana_sdk`, which reads base 58. Believed of it: whether the text
/// is one of an address, and of which, depends on the text alone. Which texts are is not stated,
/// but for those that `Pubkey::to_string` writes.
#[verifier::external_body]
fn address_from_str(text: &str) -> (bytes: Option<[u8; 32]>)
    ensures
        match bytes {
            Some(b) => parsed_address(text@) == Some(b@),
            None => parsed_address(text@) is None,
        },
{
    match solana_sdk::pubkey::Pubkey::from_str(text) {
        Ok(key) => Some(key.to_bytes()),
        Err(_) => None,
    }
}

/// The address with the given bytes.
pub open spec fn pubkey_of(bytes: Seq<u8>) -> Pubkey {
    choose|pk: Pubkey| pk.bytes@ == bytes
}

/// The address that a text stands for.
pub open spec fn read_pubkey(text: Seq<char>) -> Option<Pubkey> {
    match parsed_address(text) {
        Some(bytes) => Some(pubkey_of(bytes)),
        None => None,
    }
}

proof fn lemma_read_pubkey(text: Seq<char>, pk: Pubkey)
    requires
        parsed_address(text) == Some(pk.bytes@),
    ensures
        read_pubkey(text) == Some(pk),
{
    let read = pubkey_of(pk.bytes@);
    assert(read.bytes@ == pk.bytes@);
    assert(read.rank() == pk.rank());
    Pubkey::rank_injective(read, pk);
}

fn parse_pubkey(text: &str) -> (r: Option<Pubkey>)
    ensures
        r == read_pubkey(text@),
{
    match address_from_str(text) {
        Some(bytes) => {
            let pk = Pubkey { bytes };
            proof {
                lemma_read_pubkey(text@, pk);
            }
            Some(pk)
        },
        None => None,
    }
}

/// The stored kind of an owner key.
pub open spec fn key_kind(key: ExplicitOwnerKey) -> Seq<char> {
    match key {
        ExplicitOwnerKey::Wallet => "wallet"@,
        ExplicitOwnerKey::Pool(_) => "pool"@,
        ExplicitOwnerKey::Mint(_) => "mint"@,
        ExplicitOwnerKey::Generic(_) => "generic"@,
    }
}

/// The stored text of an owner key.
pub open spec fn key_text(key: ExplicitOwnerKey) -> Option<Seq<char>> {
    match key {
        ExplicitOwnerKey::Wallet => None,
        ExplicitOwnerKey::Pool(pk) => Some(address_text(pk.bytes@)),
        ExplicitOwnerKey::Mint(pk) => Some(address_text(pk.bytes@)),
        ExplicitOwnerKey::Generic(id) => Some(decimal::decimal(id as nat)),
    }
}

/// The text of a stored key, if it has one.
pub open spec fn text_of(key: SnapshotOwnerKey) -> Option<Seq<char>> {
    match key.pubkey {
        Some(text) => Some(text@),
        None => None,
    }
}

/// The owner key of a kind, given what its text reads as: an address, a number.
pub open spec fn key_of_kind(
    kind: Seq<char>,
    address: Option<Pubkey>,
    number: Option<u64>,
) -> Option<ExplicitOwnerKey> {
    if kind == "wallet"@ {
        Some(ExplicitOwnerKey::Wallet)
    } else if kind == "pool"@ {
        match address {
            Some(pk) => Some(ExplicitOwnerKey::Pool(pk)),
            None => None,
        }
    } else if kind == "mint"@ {
        match address {
            Some(pk) => Some(ExplicitOwnerKey::Mint(pk)),
            None => None,
        }
    } else if kind == "generic"@ {
        match number {
            Some(id) => Some(ExplicitOwnerKey::Generic(id)),
            None => None,
        }
    } else {
        None
    }
}

/// The owner key that a stored one stands for.
pub open spec fn read_owner_key(key: SnapshotOwnerKey) -> Option<ExplicitOwnerKey> {
    match text_of(key) {
        Some(text) => key_of_kind(key.kind@, read_pubkey(text), decimal::parsed(text)),
        None => key_of_kind(key.kind@, None, None),
    }
}

proof fn lemma_kinds_differ()
    ensures
        "wallet"@ != "pool"@,
        "wallet"@ != "mint"@,
        "wallet"@ != "generic"@,
        "pool"@ != "mint"@,
        "pool"@ != "generic"@,
        "mint"@ != "generic"@,
{
    reveal_strlit("wallet");
    reveal_strlit("pool");
    reveal_strlit("mint");
    reveal_strlit("generic");
    assert("pool"@[0] == 'p');
    assert("mint"@[0] == 'm');
    assert("wallet"@.len() == 6);
    assert("generic"@.len() == 7);
    assert("pool"@.len() == 4);
    assert("mint"@.len() == 4);
}

/// The stored form of an owner key with this text.
pub fn stored_owner_key(key: &ExplicitOwnerKey, text: Option<String>) -> (r: SnapshotOwnerKey)
    ensures
        r.kind@ == key_kind(*key),
        r.pubkey == text,
{
    let kind = match key {
        ExplicitOwnerKey::Wallet => "wallet",
        ExplicitOwnerKey::Pool(_) => "pool",
        ExplicitOwnerKey::Mint(_) => "mint",
        ExplicitOwnerKey::Generic(_) => "generic",
    };
    SnapshotOwnerKey { kind: kind.to_owned(), pubkey: text }
}

/// Stores an owner key; reading it back gives the key.
pub fn explicit_owner_key_to_snapshot(key: &ExplicitOwnerKey) -> (r: SnapshotOwnerKey)
    ensures
        r.kind@ == key_kind(*key),
        text_of(r) == key_text(*key),
        read_owner_key(r) == Some(*key),
{
    proof {
        lemma_kinds_differ();
    }
    let text = match key {
        ExplicitOwnerKey::Wallet => None,
        ExplicitOwnerKey::Pool(pk) | ExplicitOwnerKey::Mint(pk) => {
            let text = address_to_string(&pk.bytes);
            proof {
                lemma_read_pubkey(text@, *pk);
            }
            Some(text)
        },
        ExplicitOwnerKey::Generic(id) => {
            proof {
                decimal::decimal_reads_back(*id);
            }
            Some(decimal::to_decimal(*id))
        },
    };
    stored_owner_key(key, text)
}

fn is_kind(kind: &String, name: &str) -> (r: bool)
    ensures
        r == (kind@ == name@),
{
    let name = name.to_owned();
    *kind == name
}

/// The owner key of a kind whose text read as this address and this number; none where the
/// kind is unknown or the text is not of that kind.
pub fn owner_key_of_kind(kind: &String, address: Option<Pubkey>, number: Option<u64>) -> (r: Option<
    ExplicitOwnerKey,
>)
    ensures
        r == key_of_kind(kind@, address, number),
{
    if is_kind(kind, "wallet") {
        Some(ExplicitOwnerKey::Wallet)
    } else if is_kind(kind, "pool") {
        match address {
            Some(pk) => Some(ExplicitOwnerKey::Pool(pk)),
            None => None,
        }
    } else if is_kind(kind, "mint") {
        match address {
            Some(pk) => Some(ExplicitOwnerKey::Mint(pk)),
            None => None,
        }
    } else if is_kind(kind, "generic") {
        match number {
            Some(id) => Some(ExplicitOwnerKey::Generic(id)),
            None => None,
        }
    } else {
        None
    }
}

/// Reads a stored owner key; none where the kind is unknown or the text is not of that kind.
pub fn snapshot_owner_key_to_domain(key: &SnapshotOwnerKey) -> (r: Option<ExplicitOwnerKey>)
    ensures
        r == read_owner_key(*key),
{
    match &key.pubkey {
        Some(text) => owner_key_of_kind(
            &key.kind,
            parse_pubkey(text.as_str()),
            decimal::parse_decimal(text.as_str()),
        ),
        None => owner_key_of_kind(&key.kind, None, None),
    }
}

/// What some texts read as, one by one.
pub open spec fn read_each(texts: Seq<String>) -> Seq<Option<Pubkey>> {
    texts.map_values(|text: String| read_pubkey(text@))
}

/// The addresses that could be read, in their order.
pub open spec fn readable(read: Seq<Option<Pubkey>>) -> Seq<Pubkey>
    decreases read.len(),
{
    if read.len() == 0 {
        Seq::empty()
    } else {
        match read.last() {
            Some(pk) => readable(read.drop_last()).push(pk),
            None => readable(read.drop_last()),
        }
    }
}

/// The group of a key and addresses that were read: none where the key could not be read or
/// none of the addresses could.
pub open spec fn group_of(
    consumer: SnapshotConsumer,
    owner_key: Option<ExplicitOwnerKey>,
    read: Seq<Option<Pubkey>>,
) -> Option<(ExplicitOwner, Seq<Pubkey>)> {
    match owner_key {
        Some(owner_key) => if readable(read).len() == 0 {
            None
        } else {
            Some((ExplicitOwner { consumer: read_consumer(consumer), owner_key }, readable(read)))
        },
        None => None,
    }
}

/// The group that a stored one stands for.
pub open spec fn read_group(group: SnapshotOwnerGroup) -> Option<(ExplicitOwner, Seq<Pubkey>)> {
    group_of(group.consumer, read_owner_key(group.owner), read_each(group.pubkeys@))
}

/// A group as its owner and addresses.
pub open spec fn group_view(group: OwnerGroupSnapshot) -> (ExplicitOwner, Seq<Pubkey>) {
    (group.owner(), group.pubkeys@)
}

/// The group of a key and addresses that were read.
pub fn owner_group_of(
    consumer: SnapshotConsumer,
    owner_key: Option<ExplicitOwnerKey>,
    read: &[Option<Pubkey>],
) -> (r: Option<OwnerGroupSnapshot>)
    ensures
        match r {
            Some(g) => group_of(consumer, owner_key, read@) == Some(group_view(g)),
            None => group_of(consumer, owner_key, read@) is None,
        },
{
    let owner_key = match owner_key {
        Some(owner_key) => owner_key,
        None => {
            return None;
        },
    };
    let mut pubkeys: Vec<Pubkey> = Vec::new();
    let mut i: usize = 0;
    while i < read.len()
        invariant
            i <= read@.len(),
            pubkeys@ == readable(read@.take(i as int)),
        decreases read@.len() - i,
    {
        proof {
            let t = read@.take(i + 1);
            assert(t.drop_last() =~= read@.take(i as int));
            assert(t.last() == read@[i as int]);
        }
        if let Some(pk) = read[i] {
            pubkeys.push(pk);
        }
        i += 1;
    }
    assert(read@.take(i as int) =~= read@);
    if pubkeys.len() == 0 {
        return None;
    }
    Some(
        OwnerGroupSnapshot { consumer: snapshot_consumer_to_domain(consumer), owner_key, pubkeys },
    )
}

/// Reads a stored owner group.
pub fn snapshot_owner_group_to_domain(group: &SnapshotOwnerGroup) -> (r: Option<
    OwnerGroupSnapshot,
>)
    ensures
        match r {
            Some(g) => read_group(*group) == Some(group_view(g)),
            None => read_group(*group) is None,
        },
{
    let mut read: Vec<Option<Pubkey>> = Vec::new();
    let mut i: usize = 0;
    while i < group.pubkeys.len()
        invariant
            i <= group.pubkeys@.len(),
            read@ =~= read_each(group.pubkeys@.take(i as int)),
        decreases group.pubkeys@.len() - i,
    {
        read.push(parse_pubkey(group.pubkeys[i].as_str()));
        i += 1;
    }
    assert(group.pubkeys@.take(i as int) =~= group.pubkeys@);
    owner_group_of(group.consumer, snapshot_owner_key_to_domain(&group.owner), read.as_slice())
}

/// Stores an owner group; reading it back gives the group, unless it is empty.
pub fn owner_group_snapshot_to_disk(group: &OwnerGroupSnapshot) -> (r: SnapshotOwnerGroup)
    ensures
        r.consumer == stored_consumer(group.consumer),
        r.owner.kind@ == key_kind(group.owner_key),
        text_of(r.owner) == key_text(group.owner_key),
        r.pubkeys@.len() == group.pubkeys@.len(),
        forall|i: int|
            0 <= i < r.pubkeys@.len() ==> (#[trigger] r.pubkeys@[i])@ == address_text(
                group.pubkeys@[i].bytes@,
            ),
        group.pubkeys@.len() > 0 ==> read_group(r) == Some(group_view(*group)),
{
    let mut pubkeys: Vec<String> = Vec::new();
    let mut i: usize = 0;
    while i < group.pubkeys.len()
        invariant
            i <= group.pubkeys@.len(),
            pubkeys@.len() == i,
            forall|j: int|
                0 <= j < i ==> (#[trigger] pubkeys@[j])@ == address_text(group.pubkeys@[j].bytes@),
            readable(read_each(pubkeys@)) == group.pubkeys@.take(i as int),
        decreases group.pubkeys@.len() - i,
    {
        let pk = group.pubkeys[i];
        let text = address_to_string(&pk.bytes);
        let ghost before = pubkeys@;
        proof {
            lemma_read_pubkey(text@, pk);
        }
        pubkeys.push(text);
        proof {
            assert(read_each(pubkeys@).drop_last() =~= read_each(before));
            assert(read_each(pubkeys@).last() == Some(pk));
            assert(group.pubkeys@.take(i + 1) =~= group.pubkeys@.take(i as int).push(pk));
        }
        i += 1;
    }
    assert(group.pubkeys@.take(i as int) =~= group.pubkeys@);
    SnapshotOwnerGroup {
        consumer: SnapshotConsumer::from(group.consumer),
        owner: explicit_owner_key_to_snapshot(&group.owner_key),
        pubkeys,
    }
}

/// The demand row of a consumer whose address, and whose pool if it names one, read as these:
/// none where the address could not be read, or, off the wallet, the pool.
pub open spec fn row_of(
    consumer: SnapshotConsumer,
    address: Option<Pubkey>,
    pool: Option<Option<Pubkey>>,
) -> Option<(Pubkey, ConsumerId, Option<Pubkey>)> {
    match address {
        None => None,
        Some(pk) => if consumer is Wallet {
            Some((pk, ConsumerId::Wallet, None))
        } else {
            match pool {
                Some(Some(pool)) => Some((pk, read_consumer_id(consumer), Some(pool))),
                Some(None) => None,
                None => Some((pk, read_consumer_id(consumer), None)),
            }
        },
    }
}

/// What the pool of a stored row reads as, if it names one.
pub open spec fn read_pool(row: ExplicitSnapshotRow) -> Option<Option<Pubkey>> {
    match row.pool {
        Some(text) => Some(read_pubkey(text@)),
        None => None,
    }
}

/// The demand row that a stored row stands for.
pub open spec fn read_row(row: ExplicitSnapshotRow) -> Option<(Pubkey, ConsumerId, Option<Pubkey>)> {
    row_of(row.consumer, read_pubkey(row.pubkey@), read_pool(row))
}

/// The demand rows among some stored rows, in their order.
pub open spec fn read_rows(rows: Seq<ExplicitSnapshotRow>) -> Seq<
    (Pubkey, ConsumerId, Option<Pubkey>),
>
    decreases rows.len(),
{
    if rows.len() == 0 {
        Seq::empty()
    } else {
        let rest = read_rows(rows.drop_last());
        match read_row(rows.last()) {
            Some(row) => rest.push(row),
            None => rest,
        }
    }
}

/// The demand row of a consumer whose address and pool were read.
pub fn demand_row_of(
    consumer: SnapshotConsumer,
    address: Option<Pubkey>,
    pool: Option<Option<Pubkey>>,
) -> (r: Option<(Pubkey, ConsumerId, Option<Pubkey>)>)
    ensures
        r == row_of(consumer, address, pool),
{
    let pk = match address {
        Some(pk) => pk,
        None => {
            return None;
        },
    };
    if consumer == SnapshotConsumer::Wallet {
        return Some((pk, ConsumerId::Wallet, None));
    }
    match pool {
        Some(Some(pool)) => Some((pk, snapshot_consumer_to_row(consumer), Some(pool))),
        Some(None) => None,
        None => Some((pk, snapshot_consumer_to_row(consumer), None)),
    }
}

fn parse_row(row: &ExplicitSnapshotRow) -> (r: Option<(Pubkey, ConsumerId, Option<Pubkey>)>)
    ensures
        r == read_row(*row),
{
    let pool = match &row.pool {
        Some(text) => Some(parse_pubkey(text.as_str())),
        None => None,
    };
    demand_row_of(row.consumer, parse_pubkey(row.pubkey.as_str()), pool)
}

/// The owners of some groups.
pub open spec fn group_owners(groups: Seq<OwnerGroupSnapshot>) -> Seq<ExplicitOwner> {
    groups.map_values(|g: OwnerGroupSnapshot| g.owner())
}

/// `groups` are the demand rows by owner: one group per owner, in owner order, each with the
/// addresses of its rows in order.
pub open spec fn groups_rows(
    groups: Seq<OwnerGroupSnapshot>,
    rows: Seq<(Pubkey, ConsumerId, Option<Pubkey>)>,
) -> bool {
    &&& ordered::lists(group_owners(groups), admission_wiring::rows_owners(rows))
    &&& forall|i: int|
        0 <= i < groups.len() ==> ordered::lists(
            (#[trigger] groups[i]).pubkeys@,
            admission_wiring::rows_keys(rows, groups[i].owner()),
        )
}

/// Groups demand rows by owner: the wallet, a pool, or a mint by itself.
pub fn owner_groups_of_rows(rows: &[(Pubkey, ConsumerId, Option<Pubkey>)]) -> (r: Vec<
    OwnerGroupSnapshot,
>)
    ensures
        groups_rows(r@, rows@),
{
    let groups = rows_to_owner_groups(rows);
    let mut out: Vec<OwnerGroupSnapshot> = Vec::new();
    let mut k: usize = 0;
    while k < groups.len()
        invariant
            k <= groups@.len(),
            out@.len() == k,
            forall|j: int|
                0 <= j < k ==> group_view(#[trigger] out@[j]) == (groups@[j].0, groups@[j].1@),
        decreases groups@.len() - k,
    {
        let owner = groups[k].0;
        let pubkeys = ordered::copy_keys(groups[k].1.as_slice());
        out.push(
            OwnerGroupSnapshot { consumer: owner.consumer, owner_key: owner.owner_key, pubkeys },
        );
        k += 1;
    }
    proof {
        assert(group_owners(out@) =~= admission_wiring::list_owners(groups@));
        assert forall|j: int| 0 <= j < out@.len() implies ordered::lists(
            (#[trigger] out@[j]).pubkeys@,
            admission_wiring::rows_keys(rows@, out@[j].owner()),
        ) by {
            assert(group_view(out@[j]) == (groups@[j].0, groups@[j].1@));
        }
    }
    out
}

/// Groups the rows of the older format by owner.
pub fn rows_to_owner_group_snapshots(rows: &[ExplicitSnapshotRow]) -> (r: Vec<OwnerGroupSnapshot>)
    ensures
        groups_rows(r@, read_rows(rows@)),
{
    let mut demand: Vec<(Pubkey, ConsumerId, Option<Pubkey>)> = Vec::new();
    let mut i: usize = 0;
    while i < rows.len()
        invariant
            i <= rows@.len(),
            demand@ == read_rows(rows@.take(i as int)),
        decreases rows@.len() - i,
    {
        proof {
            let t = rows@.take(i + 1);
            assert(t.drop_last() =~= rows@.take(i as int));
            assert(t.last() == rows@[i as int]);
        }
        if let Some(row) = parse_row(&rows[i]) {
            demand.push(row);
        }
        i += 1;
    }
    assert(rows@.take(i as int) =~= rows@);
    owner_groups_of_rows(demand.as_slice())
}

/// How many addresses some stored groups hold in all.
pub open spec fn total_pubkeys(groups: Seq<SnapshotOwnerGroup>) -> nat
    decreases groups.len(),
{
    if groups.len() == 0 {
        0
    } else {
        total_pubkeys(groups.drop_last()) + groups.last().pubkeys@.len()
    }
}

proof fn lemma_total_grows(groups: Seq<SnapshotOwnerGroup>, i: int)
    requires
        0 <= i <= groups.len(),
    ensures
        total_pubkeys(groups.take(i)) <= total_pubkeys(groups),
    decreases groups.len() - i,
{
    if i == groups.len() {
        assert(groups.take(i) =~= groups);
    } else {
        lemma_total_grows(groups, i + 1);
        assert(groups.take(i + 1).drop_last() =~= groups.take(i));
    }
}

/// The groups that can be read among some stored ones, in their order.
pub open spec fn read_groups(groups: Seq<SnapshotOwnerGroup>) -> Seq<(ExplicitOwner, Seq<Pubkey>)>
    decreases groups.len(),
{
    if groups.len() == 0 {
        Seq::empty()
    } else {
        let rest = read_groups(groups.drop_last());
        match read_group(groups.last()) {
            Some(g) => rest.push(g),
            None => rest,
        }
    }
}

/// Groups as owners and addresses.
pub open spec fn group_views(groups: Seq<OwnerGroupSnapshot>) -> Seq<(ExplicitOwner, Seq<Pubkey>)> {
    groups.map_values(|g: OwnerGroupSnapshot| group_view(g))
}

impl ExplicitSetSnapshot {
    /// An empty snapshot of the current format, saved at the given time.
    pub fn new(run_id: Option<String>, saved_at_unix: u64) -> (r: Self)
        ensures
            r.version == EXPLICIT_SET_SNAPSHOT_VERSION,
            r.saved_at_unix == saved_at_unix,
            r.run_id == run_id,
            r.rows@.len() == 0,
            r.owner_groups@.len() == 0,
            r.pool_mint_map@.len() == 0,
            r.momentum_pools@.len() == 0,
            r.arb_pools@.len() == 0,
    {
        ExplicitSetSnapshot {
            version: EXPLICIT_SET_SNAPSHOT_VERSION,
            saved_at_unix,
            run_id,
            rows: Vec::new(),
            owner_groups: Vec::new(),
            pool_mint_map: Vec::new(),
            momentum_pools: Vec::new(),
            arb_pools: Vec::new(),
        }
    }

    /// Whether the snapshot is of a format that can be read.
    pub fn is_compatible(&self) -> (r: bool)
        ensures
            r == (self.version == 1 || self.version == 2),
    {
        self.version == EXPLICIT_SET_SNAPSHOT_VERSION_V1 || self.version
            == EXPLICIT_SET_SNAPSHOT_VERSION
    }

    /// How many addresses the groups hold or, without groups, how many rows there are.
    pub fn explicit_pubkey_count(&self) -> (n: usize)
        requires
            total_pubkeys(self.owner_groups@) <= usize::MAX,
        ensures
            n == if self.owner_groups@.len() > 0 {
                total_pubkeys(self.owner_groups@)
            } else {
                self.rows@.len()
            },
    {
        if self.owner_groups.len() == 0 {
            return self.rows.len();
        }
        let mut total: usize = 0;
        let mut i: usize = 0;
        while i < self.owner_groups.len()
            invariant
                i <= self.owner_groups@.len(),
                total == total_pubkeys(self.owner_groups@.take(i as int)),
                total_pubkeys(self.owner_groups@) <= usize::MAX,
            decreases self.owner_groups@.len() - i,
        {
            proof {
                lemma_total_grows(self.owner_groups@, i + 1);
                let t = self.owner_groups@.take(i + 1);
                assert(t.drop_last() =~= self.owner_groups@.take(i as int));
                assert(t.last() == self.owner_groups@[i as int]);
            }
            total += self.owner_groups[i].pubkeys.len();
            i += 1;
        }
        assert(self.owner_groups@.take(i as int) =~= self.owner_groups@);
        total
    }

    /// The groups of the snapshot: those stored that can be read or, without any stored, the
    /// rows by owner.
    pub fn to_owner_group_snapshots(&self) -> (r: Vec<OwnerGroupSnapshot>)
        ensures
            self.owner_groups@.len() > 0 ==> group_views(r@) == read_groups(self.owner_groups@),
            self.owner_groups@.len() == 0 ==> groups_rows(r@, read_rows(self.rows@)),
    {
        if self.owner_groups.len() == 0 {
            return rows_to_owner_group_snapshots(self.rows.as_slice());
        }
        let mut out: Vec<OwnerGroupSnapshot> = Vec::new();
        let mut i: usize = 0;
        while i < self.owner_groups.len()
            invariant
                i <= self.owner_groups@.len(),
                group_views(out@) == read_groups(self.owner_groups@.take(i as int)),
            decreases self.owner_groups@.len() - i,
        {
            proof {
                let t = self.owner_groups@.take(i + 1);
                assert(t.drop_last() =~= self.owner_groups@.take(i as int));
                assert(t.last() == self.owner_groups@[i as int]);
            }
            let ghost before = out@;
            if let Some(group) = snapshot_owner_group_to_domain(&self.owner_groups[i]) {
                let ghost g = group;
                out.push(group);
                assert(group_views(out@) =~= group_views(before).push(group_view(g)));
            }
            i += 1;
        }
        assert(self.owner_groups@.take(i as int) =~= self.owner_groups@);
        out
    }
}

/// Groups that are each stored so that they read back are read back in their order.
pub proof fn stored_groups_read_back(
    stored: Seq<SnapshotOwnerGroup>,
    groups: Seq<OwnerGroupSnapshot>,
)
    requires
        stored.len() == groups.len(),
        forall|i: int|
            0 <= i < stored.len() ==> read_group(#[trigger] stored[i]) == Some(
                group_view(groups[i]),
            ),
    ensures
        read_groups(stored) == group_views(groups),
    decreases stored.len(),
{
    if stored.len() == 0 {
        assert(group_views(groups) =~= Seq::empty());
    } else {
        let s = stored.drop_last();
        let g = groups.drop_last();
        assert forall|i: int| 0 <= i < s.len() implies read_group(#[trigger] s[i]) == Some(
            group_view(g[i]),
        ) by {
            assert(s[i] == stored[i]);
        }
        stored_groups_read_back(s, g);
        assert(read_group(stored[stored.len() - 1]) == Some(group_view(groups[groups.len() - 1])));
        assert(group_views(groups) =~= group_views(g).push(group_view(groups.last())));
    }
}

/// Each consumer is stored under its own name and read back as itself, from rows and groups
/// alike.
pub proof fn consumers_keep_their_names(id: ConsumerId, c: ExplicitConsumer, s: SnapshotConsumer)
    ensures
        stored_consumer_id(id) is Wallet <==> id is Wallet,
        stored_consumer_id(id) is Momentum <==> id is Momentum,
        stored_consumer_id(id) is Arb <==> id is Arb,
        stored_consumer_id(id) is Tracker <==> id is Tracker,
        stored_consumer(c) is Wallet <==> c is Wallet,
        stored_consumer(c) is Momentum <==> c is Momentum,
        stored_consumer(c) is Arb <==> c is Arb,
        stored_consumer(c) is Tracker <==> c is Tracker,
        read_consumer_id(stored_consumer_id(id)) == id,
        read_consumer(stored_consumer(c)) == c,
        stored_consumer_id(read_consumer_id(s)) == s,
        stored_consumer(read_consumer(s)) == s,
{
}

/// Which owner key a stored one stands for: the wallet by its kind alone, a pool or a mint by its
/// kind and its address, a generic key by its kind and its number; none otherwise.
pub proof fn stored_key_reads_by_its_kind(
    kind: Seq<char>,
    address: Option<Pubkey>,
    number: Option<u64>,
)
    ensures
        ({
            let key = key_of_kind(kind, address, number);
            &&& key == Some(ExplicitOwnerKey::Wallet) <==> kind == "wallet"@
            &&& kind == "pool"@ ==> match address {
                Some(pk) => key == Some(ExplicitOwnerKey::Pool(pk)),
                None => key is None,
            }
            &&& kind == "mint"@ ==> match address {
                Some(pk) => key == Some(ExplicitOwnerKey::Mint(pk)),
                None => key is None,
            }
            &&& kind == "generic"@ ==> match number {
                Some(id) => key == Some(ExplicitOwnerKey::Generic(id)),
                None => key is None,
            }
            &&& kind != "wallet"@ && kind != "pool"@ && kind != "mint"@ && kind != "generic"@
                ==> key is None
        }),
{
    lemma_kinds_differ();
}

/// Which stored row stands for a demand row: one whose address can be read and, off the wallet,
/// whose pool can be read if it names one. The wallet has no pool; the other rows keep theirs.
pub proof fn row_is_read_when_its_texts_are(
    consumer: SnapshotConsumer,
    address: Option<Pubkey>,
    pool: Option<Option<Pubkey>>,
)
    ensures
        row_of(consumer, address, pool) is Some <==> address is Some && (consumer is Wallet
            || pool != Some(None::<Pubkey>)),
        row_of(consumer, address, pool) matches Some(row) ==> {
            &&& Some(row.0) == address
            &&& row.1 is Wallet <==> consumer is Wallet
            &&& row.1 is Momentum <==> consumer is Momentum
            &&& row.1 is Arb <==> consumer is Arb
            &&& row.1 is Tracker <==> consumer is Tracker
            &&& consumer is Wallet ==> row.2 is None
            &&& !(consumer is Wallet) && pool is None ==> row.2 is None
            &&& !(consumer is Wallet) && pool is Some ==> Some(row.2) == pool
        },
{
}

/// Reading addresses, rows and groups leaves out just what cannot be read, and keeps the order.
pub proof fn reading_keeps_what_can_be_read(
    read: Seq<Option<Pubkey>>,
    rows: Seq<ExplicitSnapshotRow>,
    groups: Seq<SnapshotOwnerGroup>,
)
    ensures
        readable(read) == read.filter(|r: Option<Pubkey>| r is Some).map_values(
            |r: Option<Pubkey>| r->0,
        ),
        read_rows(rows) == rows.filter(
            |row: ExplicitSnapshotRow| read_row(row) is Some,
        ).map_values(|row: ExplicitSnapshotRow| read_row(row)->0),
        read_groups(groups) == groups.filter(
            |g: SnapshotOwnerGroup| read_group(g) is Some,
        ).map_values(|g: SnapshotOwnerGroup| read_group(g)->0),
    decreases read.len(), rows.len(), groups.len(),
{
    reveal(Seq::filter);
    if read.len() > 0 {
        reading_keeps_what_can_be_read(read.drop_last(), rows, groups);
    } else if rows.len() > 0 {
        reading_keeps_what_can_be_read(read, rows.drop_last(), groups);
    } else if groups.len() > 0 {
        reading_keeps_what_can_be_read(read, rows, groups.drop_last());
    }
}

/// A stored group stands for one if its key can be read and at least one of its addresses can;
/// the group is then of the stored consumer and that key, with the addresses that can be read.
pub proof fn group_is_read_when_its_texts_are(
    consumer: SnapshotConsumer,
    owner_key: Option<ExplicitOwnerKey>,
    read: Seq<Option<Pubkey>>,
)
    ensures
        group_of(consumer, owner_key, read) is Some <==> owner_key is Some && exists|i: int|
            0 <= i < read.len() && (#[trigger] read[i]) is Some,
        group_of(consumer, owner_key, read) matches Some(g) ==> {
            &&& Some(g.0.owner_key) == owner_key
            &&& stored_consumer(g.0.consumer) == consumer
            &&& forall|pk: Pubkey| #[trigger] g.1.contains(pk) <==> read.contains(Some(pk))
        },
    decreases read.len(),
{
    lemma_readable(read);
    if readable(read).len() > 0 {
        let pk = readable(read)[0];
        assert(readable(read).contains(pk));
        let i = choose|i: int| 0 <= i < read.len() && read[i] == Some(pk);
        assert(read[i] is Some);
    }
    if exists|i: int| 0 <= i < read.len() && (#[trigger] read[i]) is Some {
        let i = choose|i: int| 0 <= i < read.len() && (#[trigger] read[i]) is Some;
        assert(read.contains(Some(read[i]->0)));
        assert(readable(read).contains(read[i]->0));
    }
}

proof fn lemma_readable(read: Seq<Option<Pubkey>>)
    ensures
        forall|pk: Pubkey| #[trigger] readable(read).contains(pk) <==> read.contains(Some(pk)),
    decreases read.len(),
{
    if read.len() > 0 {
        let rest = read.drop_last();
        lemma_readable(rest);
        assert forall|pk: Pubkey| #[trigger] readable(read).contains(pk) <==> read.contains(
            Some(pk),
        ) by {
            if read.contains(Some(pk)) {
                let i = choose|i: int| 0 <= i < read.len() && read[i] == Some(pk);
                if i < rest.len() {
                    assert(rest[i] == Some(pk));
                    assert(readable(rest).contains(pk));
                    let j = choose|j: int| 0 <= j < readable(rest).len() && readable(rest)[j] == pk;
                    assert(readable(read)[j] == pk);
                } else {
                    assert(readable(read).last() == pk);
                    assert(readable(read)[readable(read).len() - 1] == pk);
                }
            }
            if readable(read).contains(pk) {
                let j = choose|j: int| 0 <= j < readable(read).len() && readable(read)[j] == pk;
                if j < readable(rest).len() {
                    assert(readable(rest)[j] == pk);
                    assert(readable(rest).contains(pk));
                    let i = choose|i: int| 0 <= i < rest.len() && rest[i] == Some(pk);
                    assert(read[i] == Some(pk));
                } else {
                    assert(read[read.len() - 1] == Some(pk));
                }
            }
        }
    }
}

/// Grouping demand rows loses none and adds none: each row's address is in the one group of the
/// row's owner, and each address of a group is that of a row of the group's owner.
pub proof fn groups_hold_just_the_rows(
    groups: Seq<OwnerGroupSnapshot>,
    rows: Seq<(Pubkey, ConsumerId, Option<Pubkey>)>,
)
    requires
        groups_rows(groups, rows),
    ensures
        forall|i: int|
            0 <= i < rows.len() ==> exists|g: int|
                0 <= g < groups.len() && (#[trigger] groups[g]).owner()
                    == admission_wiring::row_owner(#[trigger] rows[i])
                    && groups[g].pubkeys@.contains(rows[i].0),
        forall|g: int, pk: Pubkey|
            0 <= g < groups.len() && #[trigger] groups[g].pubkeys@.contains(pk) ==> exists|i: int|
                0 <= i < rows.len() && admission_wiring::row_owner(#[trigger] rows[i])
                    == groups[g].owner() && rows[i].0 == pk,
        forall|g: int, h: int|
            0 <= g < h < groups.len() ==> (#[trigger] groups[g]).owner() != (
            #[trigger] groups[h]).owner(),
{
    let owners = group_owners(groups);
    let all = admission_wiring::rows_owners(rows);
    ordered::lemma_sorted_no_duplicates(owners);
    assert forall|i: int| 0 <= i < rows.len() implies exists|g: int|
        0 <= g < groups.len() && (#[trigger] groups[g]).owner() == admission_wiring::row_owner(
            #[trigger] rows[i],
        ) && groups[g].pubkeys@.contains(rows[i].0) by {
        let o = admission_wiring::row_owner(rows[i]);
        let mapped = rows.map_values(
            |r: (Pubkey, ConsumerId, Option<Pubkey>)| admission_wiring::row_owner(r),
        );
        assert(mapped[i] == o);
        assert(all.contains(o));
        assert(owners.to_set().contains(o));
        let g = choose|g: int| 0 <= g < owners.len() && owners[g] == o;
        assert(groups[g].owner() == o);
        assert(admission_wiring::rows_keys(rows, o).contains(rows[i].0));
        assert(groups[g].pubkeys@.to_set().contains(rows[i].0));
    }
    assert forall|g: int, pk: Pubkey|
        0 <= g < groups.len() && #[trigger] groups[g].pubkeys@.contains(pk) implies exists|i: int|
        0 <= i < rows.len() && admission_wiring::row_owner(#[trigger] rows[i])
            == groups[g].owner() && rows[i].0 == pk by {
        assert(groups[g].pubkeys@.to_set().contains(pk));
        assert(admission_wiring::rows_keys(rows, groups[g].owner()).contains(pk));
    }
    assert forall|g: int, h: int| 0 <= g < h < groups.len() implies (
    #[trigger] groups[g]).owner() != (#[trigger] groups[h]).owner() by {
        assert(owners[g] != owners[h]);
    }
}

} // verus!
