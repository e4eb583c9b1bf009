//! Owner groups of explicitly tracked addresses, with shared-address refcounts.
//!
//! Pure local state: no cap, priority or eviction.

use crate::aged_key::Bounded;
use crate::ordered;
use crate::ordered::Ranked;
use crate::owner_index;
use crate::owner_index::OwnerIndex;
use crate::pubkey;
use crate::pubkey::Pubkey;
use vstd::prelude::*;

verus! {

/// Who wants a group tracked.
#[derive(Debug, Clone, Copy, PartialEq, Eq, PartialOrd, Ord, Hash, Structural)]
pub enum ExplicitConsumer {
    Wallet,
    Momentum,
    Arb,
    Tracker,
}

/// Which group of a consumer.
#[derive(Debug, Clone, Copy, PartialEq, Eq, PartialOrd, Ord, Hash)]
pub enum ExplicitOwnerKey {
    Wallet,
    Pool(Pubkey),
    Mint(Pubkey),
    /// An identity that is not an address.
    Generic(u64),
}

/// A consumer and one of its groups.
#[derive(Debug, Clone, Copy, PartialEq, Eq, PartialOrd, Ord, Hash)]
pub struct ExplicitOwner {
    pub consumer: ExplicitConsumer,
    pub owner_key: ExplicitOwnerKey,
}

/// 256 to the `n`.
pub open spec fn byte_span(n: nat) -> int
    decreases n,
{
    if n == 0 {
        1
    } else {
        256 * byte_span((n - 1) as nat)
    }
}

proof fn lemma_big_endian_bound(s: Seq<u8>)
    ensures
        0 <= pubkey::big_endian(s) < byte_span(s.len()),
    decreases s.len(),
{
    if s.len() > 0 {
        lemma_big_endian_bound(s.drop_last());
    }
}

/// How many addresses there are.
pub open spec fn address_span() -> int {
    byte_span(32)
}

pub proof fn lemma_address_span(key: Pubkey)
    ensures
        0 <= key.rank() < address_span(),
{
    lemma_big_endian_bound(key.bytes@);
}

impl ExplicitOwnerKey {
    /// Wallet, then pools, then mints, then generic keys.
    pub open spec fn position(self) -> int {
        match self {
            ExplicitOwnerKey::Wallet => 0,
            ExplicitOwnerKey::Pool(k) => 1 + k.rank(),
            ExplicitOwnerKey::Mint(k) => 1 + address_span() + k.rank(),
            ExplicitOwnerKey::Generic(n) => 1 + address_span() + address_span() + n,
        }
    }

    /// More than any position.
    pub open spec fn span() -> int {
        2 + address_span() + address_span() + u64::MAX
    }

    pub proof fn lemma_position(self)
        ensures
            0 <= self.position() < Self::span(),
            match self {
                ExplicitOwnerKey::Pool(k) => 0 <= k.rank() < address_span(),
                ExplicitOwnerKey::Mint(k) => 0 <= k.rank() < address_span(),
                _ => address_span() > 0,
            },
    {
        lemma_big_endian_bound(Seq::new(32, |i: int| 0u8));
        match self {
            ExplicitOwnerKey::Pool(k) => lemma_big_endian_bound(k.bytes@),
            ExplicitOwnerKey::Mint(k) => lemma_big_endian_bound(k.bytes@),
            _ => {},
        }
    }

    fn before(&self, other: &Self) -> (r: bool)
        ensures
            r == (self.position() < other.position()),
    {
        proof {
            self.lemma_position();
            other.lemma_position();
        }
        match (self, other) {
            (ExplicitOwnerKey::Wallet, ExplicitOwnerKey::Wallet) => false,
            (ExplicitOwnerKey::Wallet, _) => true,
            (_, ExplicitOwnerKey::Wallet) => false,
            (ExplicitOwnerKey::Pool(a), ExplicitOwnerKey::Pool(b)) => a.precedes(b),
            (ExplicitOwnerKey::Pool(_), _) => true,
            (_, ExplicitOwnerKey::Pool(_)) => false,
            (ExplicitOwnerKey::Mint(a), ExplicitOwnerKey::Mint(b)) => a.precedes(b),
            (ExplicitOwnerKey::Mint(_), _) => true,
            (_, ExplicitOwnerKey::Mint(_)) => false,
            (ExplicitOwnerKey::Generic(a), ExplicitOwnerKey::Generic(b)) => *a < *b,
        }
    }

    /// Whether the two keys are the same.
    pub fn same(&self, other: &Self) -> (r: bool)
        ensures
            r == (*self == *other),
    {
        match (self, other) {
            (ExplicitOwnerKey::Wallet, ExplicitOwnerKey::Wallet) => true,
            (ExplicitOwnerKey::Pool(a), ExplicitOwnerKey::Pool(b)) => a.same(b),
            (ExplicitOwnerKey::Mint(a), ExplicitOwnerKey::Mint(b)) => a.same(b),
            (ExplicitOwnerKey::Generic(a), ExplicitOwnerKey::Generic(b)) => *a == *b,
            _ => false,
        }
    }
}

impl ExplicitConsumer {
    /// Wallet, momentum, arb, tracker.
    pub open spec fn position(self) -> int {
        match self {
            ExplicitConsumer::Wallet => 0,
            ExplicitConsumer::Momentum => 1,
            ExplicitConsumer::Arb => 2,
            ExplicitConsumer::Tracker => 3,
        }
    }

    fn order(&self) -> (r: u8)
        ensures
            r == self.position(),
    {
        match self {
            ExplicitConsumer::Wallet => 0,
            ExplicitConsumer::Momentum => 1,
            ExplicitConsumer::Arb => 2,
            ExplicitConsumer::Tracker => 3,
        }
    }
}

impl Ranked for ExplicitOwner {
    /// By consumer, then by key.
    open spec fn rank(self) -> int {
        let base = match self.consumer {
            ExplicitConsumer::Wallet => 0,
            ExplicitConsumer::Momentum => ExplicitOwnerKey::span(),
            ExplicitConsumer::Arb => ExplicitOwnerKey::span() + ExplicitOwnerKey::span(),
            ExplicitConsumer::Tracker => ExplicitOwnerKey::span() + ExplicitOwnerKey::span()
                + ExplicitOwnerKey::span(),
        };
        base + self.owner_key.position()
    }

    proof fn rank_injective(a: Self, b: Self) {
        a.owner_key.lemma_position();
        b.owner_key.lemma_position();
        assert(a.consumer == b.consumer);
        match (a.owner_key, b.owner_key) {
            (ExplicitOwnerKey::Pool(x), ExplicitOwnerKey::Pool(y)) => Pubkey::rank_injective(x, y),
            (ExplicitOwnerKey::Mint(x), ExplicitOwnerKey::Mint(y)) => Pubkey::rank_injective(x, y),
            _ => {},
        }
    }

    fn precedes(&self, other: &Self) -> (before: bool) {
        proof {
            self.owner_key.lemma_position();
            other.owner_key.lemma_position();
        }
        let a: u8 = self.consumer.order();
        let b: u8 = other.consumer.order();
        if a == b {
            self.owner_key.before(&other.owner_key)
        } else {
            a < b
        }
    }

    fn same(&self, other: &Self) -> (equal: bool) {
        self.consumer == other.consumer && self.owner_key.same(&other.owner_key)
    }
}

impl Bounded for ExplicitOwner {
    open spec fn span() -> int {
        ExplicitOwnerKey::span() + ExplicitOwnerKey::span() + ExplicitOwnerKey::span()
            + ExplicitOwnerKey::span()
    }

    proof fn within_span(self) {
        self.owner_key.lemma_position();
    }
}

/// Owners rank by consumer first and by key within a consumer.
pub proof fn owner_order_is_consumer_then_key(a: ExplicitOwner, b: ExplicitOwner)
    ensures
        (a.rank() < b.rank()) == (a.consumer.position() < b.consumer.position() || (a.consumer
            == b.consumer && a.owner_key.position() < b.owner_key.position())),
{
    a.owner_key.lemma_position();
    b.owner_key.lemma_position();
}

/// One owner group at a point in time.
#[derive(Debug, Clone, PartialEq, Eq)]
pub struct OwnerGroupSnapshot {
    pub consumer: ExplicitConsumer,
    pub owner_key: ExplicitOwnerKey,
    pub pubkeys: Vec<Pubkey>,
}

impl OwnerGroupSnapshot {
    pub open spec fn owner(self) -> ExplicitOwner {
        ExplicitOwner { consumer: self.consumer, owner_key: self.owner_key }
    }

    fn from_owner(owner: &ExplicitOwner, pubkeys: &[Pubkey]) -> (r: Self)
        ensures
            r.owner() == *owner,
            r.pubkeys@ == pubkeys@,
    {
        OwnerGroupSnapshot {
            consumer: owner.consumer,
            owner_key: owner.owner_key,
            pubkeys: ordered::copy_keys(pubkeys),
        }
    }
}

/// `snapshots` lists exactly the groups of `groups`, by owner.
pub open spec fn snapshots_list(
    snapshots: Seq<OwnerGroupSnapshot>,
    groups: Map<ExplicitOwner, Seq<Pubkey>>,
) -> bool {
    let owners = snapshots.map_values(|s: OwnerGroupSnapshot| s.owner());
    &&& ordered::lists(owners, groups.dom())
    &&& forall|i: int|
        0 <= i < snapshots.len() ==> (#[trigger] snapshots[i]).pubkeys@
            == groups[snapshots[i].owner()]
}

/// Empty owner groups are invalid input and change nothing.
#[derive(Debug, Clone, Copy, PartialEq, Eq, Structural)]
pub struct EmptyOwnerGroupError;

/// What an ownership change did to the set of tracked addresses.
#[derive(Debug, Clone, PartialEq, Eq)]
pub enum GroupChange {
    /// First group of this owner.
    NewGroup { physical_added: Vec<Pubkey> },
    /// The group already held these addresses.
    Unchanged,
    /// The group was replaced.
    Replaced { physical_added: Vec<Pubkey>, physical_removed: Vec<Pubkey> },
}

/// `change` says what turned `before` into `after` at `owner`.
pub open spec fn describes(
    change: GroupChange,
    before: Map<ExplicitOwner, Seq<Pubkey>>,
    after: Map<ExplicitOwner, Seq<Pubkey>>,
    owner: ExplicitOwner,
) -> bool {
    let added = ordered::in_order(owner_index::newly_physical(before, after));
    let removed = ordered::in_order(owner_index::newly_physical(after, before));
    match change {
        GroupChange::NewGroup { physical_added } => !before.dom().contains(owner)
            && physical_added@ == added,
        GroupChange::Unchanged => before.dom().contains(owner) && before[owner] == after[owner],
        GroupChange::Replaced { physical_added, physical_removed } => {
            &&& before.dom().contains(owner)
            &&& before[owner] != after[owner]
            &&& physical_added@ == added
            &&& physical_removed@ == removed
        },
    }
}

/// Owner groups with shared-address refcounts.
#[derive(Debug, Clone)]
pub struct ExplicitOwnership {
    index: OwnerIndex<ExplicitOwner>,
}

impl View for ExplicitOwnership {
    type V = Map<ExplicitOwner, Seq<Pubkey>>;

    closed spec fn view(&self) -> Map<ExplicitOwner, Seq<Pubkey>> {
        self.index@
    }
}

impl Default for ExplicitOwnership {
    fn default() -> (r: Self)
        ensures
            r.wf(),
            r@ =~= Map::<ExplicitOwner, Seq<Pubkey>>::empty(),
    {
        Self::new()
    }
}

impl ExplicitOwnership {
    pub closed spec fn wf(&self) -> bool {
        self.index.wf()
    }

    /// What a well-formed store guarantees of its groups.
    pub proof fn lemma_wf(&self)
        requires
            self.wf(),
        ensures
            owner_index::groups_ok(self@),
            owner_index::physical(self@).finite(),
            owner_index::physical(self@).len() <= usize::MAX,
            self@.dom().len() <= usize::MAX,
    {
        self.index.lemma_physical();
        assert(self.index.owners.keys.len() == self.index.owners.keys@.len());
        assert(self.index.groups.keys.len() == self.index.groups.keys@.len());
    }

    pub fn new() -> (r: Self)
        ensures
            r.wf(),
            r@ =~= Map::<ExplicitOwner, Seq<Pubkey>>::empty(),
    {
        ExplicitOwnership { index: OwnerIndex::new() }
    }

    /// A copy with the same groups.
    pub fn duplicate(&self) -> (r: Self)
        requires
            self.wf(),
        ensures
            r.wf(),
            r@ =~= self@,
    {
        ExplicitOwnership { index: self.index.duplicate() }
    }

    /// Number of tracked addresses.
    pub fn len(&self) -> (n: usize)
        requires
            self.wf(),
        ensures
            n == owner_index::physical(self@).len(),
    {
        self.index.len()
    }

    pub fn is_empty(&self) -> (r: bool)
        requires
            self.wf(),
        ensures
            r == (owner_index::physical(self@) =~= Set::empty()),
    {
        proof {
            self.index.lemma_physical();
            if owner_index::physical(self@).len() == 0 {
                assert(owner_index::physical(self@) =~= Set::empty());
            }
        }
        self.len() == 0
    }

    pub fn contains(&self, pubkey: &Pubkey) -> (r: bool)
        requires
            self.wf(),
        ensures
            r == owner_index::physical(self@).contains(*pubkey),
    {
        self.index.contains(pubkey)
    }

    /// Whether `owner` has a group.
    pub fn contains_owner(&self, owner: &ExplicitOwner) -> (r: bool)
        requires
            self.wf(),
        ensures
            r == self@.dom().contains(*owner),
    {
        self.index.contains_owner(owner)
    }

    /// Addresses of `owner`, or `None` if it has no group.
    pub fn owner_group(&self, owner: &ExplicitOwner) -> (r: Option<&[Pubkey]>)
        requires
            self.wf(),
        ensures
            match r {
                Some(keys) => self@.dom().contains(*owner) && keys@ == self@[*owner],
                None => !self@.dom().contains(*owner),
            },
    {
        self.index.group(owner)
    }

    /// Number of distinct owners of `pubkey`.
    pub fn owner_refcount(&self, pubkey: &Pubkey) -> (n: usize)
        requires
            self.wf(),
        ensures
            n == owner_index::owners_of(self@, *pubkey).len(),
    {
        self.index.refcount(pubkey)
    }

    /// The owners of `pubkey`, in order.
    pub fn owners_of_pubkey(&self, pubkey: &Pubkey) -> (r: Vec<ExplicitOwner>)
        requires
            self.wf(),
        ensures
            ordered::lists(r@, owner_index::owners_of(self@, *pubkey)),
    {
        self.index.owners(pubkey)
    }

    /// All owners, in order.
    pub fn owners(&self) -> (r: Vec<ExplicitOwner>)
        requires
            self.wf(),
        ensures
            ordered::lists(r@, self@.dom()),
    {
        self.index.all_owners()
    }

    /// All tracked addresses, in order.
    pub fn snapshot_pubkeys(&self) -> (r: Vec<Pubkey>)
        requires
            self.wf(),
        ensures
            ordered::lists(r@, owner_index::physical(self@)),
    {
        self.index.pubkeys()
    }

    /// All owner groups, by owner.
    pub fn snapshot_owner_groups(&self) -> (r: Vec<OwnerGroupSnapshot>)
        requires
            self.wf(),
        ensures
            snapshots_list(r@, self@),
    {
        let owners = self.index.all_owners();
        let mut out: Vec<OwnerGroupSnapshot> = Vec::new();
        let mut i: usize = 0;
        while i < owners.len()
            invariant
                self.wf(),
                ordered::lists(owners@, self@.dom()),
                0 <= i <= owners@.len(),
                out@.len() == i,
                forall|j: int|
                    0 <= j < i ==> (#[trigger] out@[j]).owner() == owners@[j] && out@[j].pubkeys@
                        == self@[owners@[j]],
            decreases owners@.len() - i,
        {
            proof {
                assert(owners@.to_set().contains(owners@[i as int]));
            }
            match self.index.group(&owners[i]) {
                Some(keys) => {
                    out.push(OwnerGroupSnapshot::from_owner(&owners[i], keys));
                },
                None => {},
            }
            i = i + 1;
        }
        proof {
            let names = out@.map_values(|s: OwnerGroupSnapshot| s.owner());
            assert(names =~= owners@);
        }
        out
    }

    pub fn clear(&mut self)
        ensures
            final(self).wf(),
            final(self)@ =~= Map::<ExplicitOwner, Seq<Pubkey>>::empty(),
    {
        self.index.clear();
    }

    /// Inserts or replaces the group of `owner`; an empty group is refused.
    pub fn upsert_group(&mut self, owner: ExplicitOwner, pubkeys: Vec<Pubkey>) -> (r: Result<
        GroupChange,
        EmptyOwnerGroupError,
    >)
        requires
            old(self).wf(),
        ensures
            final(self).wf(),
            match r {
                Err(_) => pubkeys@.len() == 0 && final(self)@ == old(self)@,
                Ok(change) => {
                    &&& pubkeys@.len() > 0
                    &&& final(self)@ =~= old(self)@.insert(
                        owner,
                        ordered::in_order(pubkeys@.to_set()),
                    )
                    &&& describes(change, old(self)@, final(self)@, owner)
                },
            },
    {
        let normalized = ordered::normalize(pubkeys.as_slice());
        if normalized.len() == 0 {
            return Err(EmptyOwnerGroupError);
        }
        proof {
            ordered::lemma_in_order(normalized@, pubkeys@.to_set());
            assert(pubkeys@.len() > 0) by {
                if pubkeys@.len() == 0 {
                    assert(normalized@.to_set().contains(normalized@[0]));
                }
            }
        }
        let ghost g0 = self@;
        let ghost g1 = self@.insert(owner, normalized@);
        let previous: Option<Vec<Pubkey>> = match self.index.group(&owner) {
            Some(keys) => Some(ordered::copy_keys(keys)),
            None => None,
        };
        match previous {
            None => {
                let physical_added = self.absent_keys(normalized.as_slice());
                proof {
                    lemma_added(g0, owner, normalized@, physical_added@);
                }
                self.index.put(owner, normalized);
                Ok(GroupChange::NewGroup { physical_added })
            },
            Some(existing) => {
                if ordered::same_keys(existing.as_slice(), normalized.as_slice()) {
                    proof {
                        assert(g0 =~= g1);
                    }
                    return Ok(GroupChange::Unchanged);
                }
                let physical_added = self.absent_keys(normalized.as_slice());
                let physical_removed = self.released_keys(
                    &owner,
                    existing.as_slice(),
                    normalized.as_slice(),
                );
                proof {
                    lemma_added(g0, owner, normalized@, physical_added@);
                    ordered::lemma_in_order(
                        physical_removed@,
                        owner_index::newly_physical(g1, g0),
                    );
                }
                self.index.put(owner, normalized);
                Ok(GroupChange::Replaced { physical_added, physical_removed })
            },
        }
    }

    /// The keys that no group holds.
    fn absent_keys(&self, keys: &[Pubkey]) -> (r: Vec<Pubkey>)
        requires
            self.wf(),
            ordered::sorted(keys@),
        ensures
            ordered::lists(r@, keys@.to_set().difference(owner_index::physical(self@))),
    {
        let mut out: Vec<Pubkey> = Vec::new();
        let mut i: usize = 0;
        while i < keys.len()
            invariant
                self.wf(),
                0 <= i <= keys@.len(),
                ordered::lists(
                    out@,
                    keys@.take(i as int).to_set().difference(owner_index::physical(self@)),
                ),
            decreases keys@.len() - i,
        {
            let ghost before = keys@.take(i as int);
            if !self.contains(&keys[i]) {
                let _ = ordered::add_key(&mut out, keys[i]);
            }
            proof {
                ordered::lemma_take_step(keys@, i as int);
            }
            i = i + 1;
        }
        proof {
            assert(keys@.take(i as int) =~= keys@);
        }
        out
    }

    /// The keys of `existing` that only `owner` holds and `kept` does not keep.
    fn released_keys(&self, owner: &ExplicitOwner, existing: &[Pubkey], kept: &[Pubkey]) -> (r: Vec<
        Pubkey,
    >)
        requires
            self.wf(),
            self@.dom().contains(*owner),
            existing@ == self@[*owner],
            ordered::sorted(kept@),
        ensures
            ordered::lists(
                r@,
                owner_index::newly_physical(self@.insert(*owner, kept@), self@),
            ),
    {
        let ghost g0 = self@;
        let ghost g1 = self@.insert(*owner, kept@);
        let mut out: Vec<Pubkey> = Vec::new();
        let mut i: usize = 0;
        while i < existing.len()
            invariant
                self.wf(),
                self@ == g0,
                g1 == g0.insert(*owner, kept@),
                g0.dom().contains(*owner),
                existing@ == g0[*owner],
                ordered::sorted(kept@),
                0 <= i <= existing@.len(),
                ordered::lists(
                    out@,
                    existing@.take(i as int).to_set().intersect(
                        owner_index::newly_physical(g1, g0),
                    ),
                ),
            decreases existing@.len() - i,
        {
            let key: Pubkey = existing[i];
            proof {
                assert(existing@.contains(key));
                assert(owner_index::owners_of(g0, key).contains(*owner));
                self.index.lemma_refs(key);
                lemma_released(g0, *owner, kept@, key);
            }
            if !ordered::has(kept, &key) && self.owner_refcount(&key) == 1 {
                let _ = ordered::add_key(&mut out, key);
            }
            proof {
                ordered::lemma_take_step(existing@, i as int);
            }
            i = i + 1;
        }
        proof {
            assert(existing@.take(i as int) =~= existing@);
            assert(existing@.to_set().intersect(owner_index::newly_physical(g1, g0))
                =~= owner_index::newly_physical(g1, g0)) by {
                assert forall|k: Pubkey| owner_index::newly_physical(g1, g0).contains(
                    k,
                ) implies existing@.to_set().contains(k) by {
                    let o = choose|o: ExplicitOwner|
                        g0.dom().contains(o) && #[trigger] g0[o].contains(k);
                    if o != *owner {
                        assert(g1.dom().contains(o) && g1[o].contains(k));
                    }
                }
            }
        }
        out
    }

    /// Removes the group of `owner`; returns it, or `None` if there is none.
    pub fn remove_group(&mut self, owner: &ExplicitOwner) -> (r: Option<OwnerGroupSnapshot>)
        requires
            old(self).wf(),
        ensures
            final(self).wf(),
            final(self)@ =~= old(self)@.remove(*owner),
            match r {
                Some(snapshot) => {
                    &&& old(self)@.dom().contains(*owner)
                    &&& snapshot.owner() == *owner
                    &&& snapshot.pubkeys@ == old(self)@[*owner]
                },
                None => !old(self)@.dom().contains(*owner),
            },
    {
        match self.index.take(owner) {
            Some(pubkeys) => Some(
                OwnerGroupSnapshot {
                    consumer: owner.consumer,
                    owner_key: owner.owner_key,
                    pubkeys,
                },
            ),
            None => None,
        }
    }
}

proof fn lemma_added(
    g0: Map<ExplicitOwner, Seq<Pubkey>>,
    owner: ExplicitOwner,
    keys: Seq<Pubkey>,
    added: Seq<Pubkey>,
)
    requires
        ordered::lists(added, keys.to_set().difference(owner_index::physical(g0))),
    ensures
        added == ordered::in_order(owner_index::newly_physical(g0, g0.insert(owner, keys))),
{
    let g1 = g0.insert(owner, keys);
    assert forall|k: Pubkey| owner_index::newly_physical(g0, g1).contains(k)
        == keys.to_set().difference(owner_index::physical(g0)).contains(k) by {
        if owner_index::newly_physical(g0, g1).contains(k) {
            let o = choose|o: ExplicitOwner| g1.dom().contains(o) && #[trigger] g1[o].contains(k);
            if o != owner {
                assert(g0.dom().contains(o) && g0[o].contains(k));
            }
        }
        if keys.contains(k) {
            assert(g1.dom().contains(owner) && g1[owner].contains(k));
        }
    }
    ordered::lemma_in_order(added, owner_index::newly_physical(g0, g1));
}

proof fn lemma_released(
    g0: Map<ExplicitOwner, Seq<Pubkey>>,
    owner: ExplicitOwner,
    kept: Seq<Pubkey>,
    key: Pubkey,
)
    requires
        g0.dom().contains(owner),
        g0[owner].contains(key),
        owner_index::owners_of(g0, key).finite(),
    ensures
        owner_index::newly_physical(g0.insert(owner, kept), g0).contains(key) == (!kept.contains(
            key,
        ) && owner_index::owners_of(g0, key).len() == 1),
{
    let g1 = g0.insert(owner, kept);
    let owners = owner_index::owners_of(g0, key);
    assert(owners.contains(owner));
    assert(owner_index::physical(g0).contains(key));
    assert(owners.remove(owner).len() + 1 == owners.len());
    if owner_index::physical(g1).contains(key) {
        let o = choose|o: ExplicitOwner| g1.dom().contains(o) && #[trigger] g1[o].contains(key);
        if o != owner {
            assert(owners.remove(owner).contains(o));
        }
    } else {
        if kept.contains(key) {
            assert(g1.dom().contains(owner) && g1[owner].contains(key));
        }
        if owners.len() != 1 {
            let rest = owners.remove(owner);
            assert(rest.len() > 0);
            let o = rest.choose();
            assert(rest.contains(o));
            assert(g1.dom().contains(o) && g1[o].contains(key));
        }
    }
}

/// The refcount of an address is zero exactly when no group holds it.
pub proof fn refcount_zero_iff_untracked(groups: Map<ExplicitOwner, Seq<Pubkey>>, pubkey: Pubkey)
    requires
        owner_index::groups_ok(groups),
    ensures
        (owner_index::owners_of(groups, pubkey).len() == 0) == !owner_index::physical(
            groups,
        ).contains(pubkey),
{
    let owners = owner_index::owners_of(groups, pubkey);
    owner_index::lemma_physical_owner(groups, pubkey);
    assert(owners.subset_of(groups.dom()));
    vstd::set_lib::lemma_len_subset(owners, groups.dom());
    if owners.len() == 0 {
        assert(owners =~= Set::empty());
    }
}

/// An address with another owner survives the removal of one owner's group; the last owner's
/// removal takes it out.
pub proof fn removal_keeps_shared_addresses(
    groups: Map<ExplicitOwner, Seq<Pubkey>>,
    owner: ExplicitOwner,
    pubkey: Pubkey,
)
    requires
        owner_index::groups_ok(groups),
        groups.dom().contains(owner),
        groups[owner].contains(pubkey),
    ensures
        owner_index::physical(groups.remove(owner)).contains(pubkey) == (owner_index::owners_of(
            groups,
            pubkey,
        ).len() > 1),
        owner_index::owners_of(groups.remove(owner), pubkey) =~= owner_index::owners_of(
            groups,
            pubkey,
        ).remove(owner),
{
    let g1 = groups.remove(owner);
    let owners = owner_index::owners_of(groups, pubkey);
    assert(owners.subset_of(groups.dom()));
    vstd::set_lib::lemma_len_subset(owners, groups.dom());
    assert(owners.contains(owner));
    let rest = owner_index::owners_of(g1, pubkey);
    assert(rest =~= owners.remove(owner));
    assert(owner_index::groups_ok(g1));
    refcount_zero_iff_untracked(g1, pubkey);
}

} // verus!
