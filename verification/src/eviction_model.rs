//! What victim selection computes, stated over owner groups and touch stamps.

use crate::aged_key::AgedKey;
use crate::explicit_ownership::{ExplicitConsumer, ExplicitOwner};
use crate::ordered;
use crate::ordered::Ranked;
use crate::owner_index;
use crate::pubkey::Pubkey;
use vstd::prelude::*;

verus! {

/// Owner groups.
pub type Groups = Map<ExplicitOwner, Seq<Pubkey>>;

/// Last-touch stamps.
pub type Stamps = Map<ExplicitOwner, u64>;

/// How far eviction may reach: each tier also opens the ones before it, never the wallet.
#[derive(Debug, Clone, Copy, PartialEq, Eq, PartialOrd, Ord, Structural)]
pub enum EvictionTier {
    Tracker,
    Arb,
    Momentum,
}

impl EvictionTier {
    /// Whether groups of `consumer` may be evicted at this tier.
    pub open spec fn opens(self, consumer: ExplicitConsumer) -> bool {
        match consumer {
            ExplicitConsumer::Wallet => false,
            ExplicitConsumer::Tracker => true,
            ExplicitConsumer::Arb => self != EvictionTier::Tracker,
            ExplicitConsumer::Momentum => self == EvictionTier::Momentum,
        }
    }

    /// Whether an incoming group of `consumer` may open this tier.
    pub open spec fn allowed_for(self, consumer: ExplicitConsumer) -> bool {
        match consumer {
            ExplicitConsumer::Tracker => self == EvictionTier::Tracker,
            ExplicitConsumer::Arb => self != EvictionTier::Momentum,
            ExplicitConsumer::Momentum | ExplicitConsumer::Wallet => true,
        }
    }

    /// The last tier an incoming group of `consumer` may open.
    pub open spec fn last_for(consumer: ExplicitConsumer) -> EvictionTier {
        match consumer {
            ExplicitConsumer::Tracker => EvictionTier::Tracker,
            ExplicitConsumer::Arb => EvictionTier::Arb,
            ExplicitConsumer::Momentum | ExplicitConsumer::Wallet => EvictionTier::Momentum,
        }
    }

    /// Tracker, arb, momentum.
    pub open spec fn level(self) -> int {
        match self {
            EvictionTier::Tracker => 0,
            EvictionTier::Arb => 1,
            EvictionTier::Momentum => 2,
        }
    }
}

/// Eviction priority of a consumer: lower goes first.
pub open spec fn priority(consumer: ExplicitConsumer) -> u8 {
    match consumer {
        ExplicitConsumer::Tracker => 0,
        ExplicitConsumer::Arb => 1,
        ExplicitConsumer::Momentum => 2,
        ExplicitConsumer::Wallet => u8::MAX,
    }
}

/// Where an owner stands in eviction order: priority, then last touch, then identity.
pub type EvictionKey = AgedKey<ExplicitOwner>;

/// The eviction key of `owner`.
pub open spec fn key_of(stamps: Stamps, owner: ExplicitOwner) -> EvictionKey {
    EvictionKey { priority: priority(owner.consumer), last_touch: stamps[owner], owner }
}

/// The eviction keys of a set of owners.
pub open spec fn keys_of(stamps: Stamps, owners: Set<ExplicitOwner>) -> Set<EvictionKey> {
    Set::new(|k: EvictionKey| owners.contains(k.owner) && k == key_of(stamps, k.owner))
}

/// A set of owners, in eviction order.
pub open spec fn by_eviction(stamps: Stamps, owners: Set<ExplicitOwner>) -> Seq<EvictionKey> {
    ordered::in_order(keys_of(stamps, owners))
}

/// The owners of a list of keys.
pub open spec fn owners_in(keys: Seq<EvictionKey>) -> Seq<ExplicitOwner> {
    keys.map_values(|k: EvictionKey| k.owner)
}

/// The owners that `tier` lets go.
pub open spec fn evictable(groups: Groups, tier: EvictionTier) -> Set<ExplicitOwner> {
    groups.dom().filter(|o: ExplicitOwner| tier.opens(o.consumer))
}

/// The owners of `pubkey` that are not among `gone`.
pub open spec fn remaining(groups: Groups, gone: Set<ExplicitOwner>, pubkey: Pubkey) -> Set<
    ExplicitOwner,
> {
    owner_index::owners_of(groups, pubkey).difference(gone)
}

/// The addresses freed when `gone` leave: no owner remains and the newcomer does not want them.
pub open spec fn freed(groups: Groups, gone: Set<ExplicitOwner>, incoming: Set<Pubkey>) -> Set<
    Pubkey,
> {
    owner_index::physical(groups).filter(
        |pk: Pubkey|
            !incoming.contains(pk) && owner_index::owners_of(groups, pk).subset_of(gone),
    )
}

/// Letting `owner` go now would free an address by itself.
pub open spec fn frees_alone(
    groups: Groups,
    gone: Set<ExplicitOwner>,
    incoming: Set<Pubkey>,
    owner: ExplicitOwner,
) -> bool {
    exists|pk: Pubkey|
        !incoming.contains(pk) && #[trigger] remaining(groups, gone, pk) =~= set![owner]
}

/// `package` is what still holds some wanted-back address, and the tier lets all of it go.
pub open spec fn is_package(
    groups: Groups,
    tier: EvictionTier,
    gone: Set<ExplicitOwner>,
    incoming: Set<Pubkey>,
    package: Set<ExplicitOwner>,
) -> bool {
    &&& package != Set::<ExplicitOwner>::empty()
    &&& package.subset_of(evictable(groups, tier))
    &&& exists|pk: Pubkey|
        !incoming.contains(pk) && #[trigger] remaining(groups, gone, pk) =~= package
}

/// Lexicographic order of key lists; a proper prefix comes first.
pub open spec fn lex_before(a: Seq<EvictionKey>, b: Seq<EvictionKey>) -> bool {
    exists|i: int|
        #![trigger a.take(i)]
        0 <= i <= a.len() && i < b.len() && a.take(i) == b.take(i) && (i == a.len() || a[i].rank()
            < b[i].rank())
}

/// The highest priority in a key list, zero when it is empty.
pub open spec fn top_priority(keys: Seq<EvictionKey>) -> u8
    decreases keys.len(),
{
    if keys.len() == 0 {
        0
    } else if keys.last().priority > top_priority(keys.drop_last()) {
        keys.last().priority
    } else {
        top_priority(keys.drop_last())
    }
}

/// Package order: by the most protected consumer in it, then lexicographically.
pub open spec fn list_before(a: Seq<EvictionKey>, b: Seq<EvictionKey>) -> bool {
    top_priority(a) < top_priority(b) || (top_priority(a) == top_priority(b) && lex_before(a, b))
}

pub open spec fn package_before(stamps: Stamps, a: Set<ExplicitOwner>, b: Set<ExplicitOwner>) -> bool {
    list_before(by_eviction(stamps, a), by_eviction(stamps, b))
}

pub proof fn lemma_lex_transitive(a: Seq<EvictionKey>, b: Seq<EvictionKey>, c: Seq<EvictionKey>)
    requires
        lex_before(a, b),
        lex_before(b, c),
    ensures
        lex_before(a, c),
{
    let i = choose|i: int|
        #![trigger a.take(i)]
        0 <= i <= a.len() && i < b.len() && a.take(i) == b.take(i) && (i == a.len() || a[i].rank()
            < b[i].rank());
    let j = choose|j: int|
        #![trigger b.take(j)]
        0 <= j <= b.len() && j < c.len() && b.take(j) == c.take(j) && (j == b.len() || b[j].rank()
            < c[j].rank());
    let m = if i < j {
        i
    } else {
        j
    };
    assert(a.take(m) =~= a.take(i).take(m));
    assert(b.take(m) =~= b.take(i).take(m));
    assert(b.take(m) =~= b.take(j).take(m));
    assert(c.take(m) =~= c.take(j).take(m));
    if i < j {
        assert(b.take(j)[i] == c.take(j)[i]);
    } else if j < i {
        assert(a.take(i)[j] == b.take(i)[j]);
    }
    assert(a.take(m) == c.take(m));
}

proof fn lemma_first_difference(a: Seq<EvictionKey>, b: Seq<EvictionKey>, n: int) -> (r: int)
    requires
        0 <= n <= a.len(),
        n <= b.len(),
        a.take(n) == b.take(n),
        a != b,
    ensures
        0 <= r <= a.len(),
        r <= b.len(),
        a.take(r) == b.take(r),
        r < a.len() || r < b.len(),
        r < a.len() && r < b.len() ==> a[r] != b[r],
    decreases a.len() - n,
{
    if n == a.len() || n == b.len() {
        if n == a.len() && n == b.len() {
            assert(a =~= a.take(n));
            assert(b =~= b.take(n));
        }
        n
    } else if a[n] != b[n] {
        n
    } else {
        assert(a.take(n + 1) =~= a.take(n).push(a[n]));
        assert(b.take(n + 1) =~= b.take(n).push(b[n]));
        lemma_first_difference(a, b, n + 1)
    }
}

pub proof fn lemma_lex_total(a: Seq<EvictionKey>, b: Seq<EvictionKey>)
    ensures
        a != b ==> lex_before(a, b) || lex_before(b, a),
{
    if a != b {
        assert(a.take(0) =~= b.take(0));
        let i = lemma_first_difference(a, b, 0);
        if i < a.len() && i < b.len() && a[i].rank() == b[i].rank() {
            EvictionKey::rank_injective(a[i], b[i]);
        }
        assert(a.take(i) == b.take(i));
    }
}

pub proof fn lemma_lex_irreflexive(a: Seq<EvictionKey>)
    ensures
        !lex_before(a, a),
{
}

/// The first owner, in eviction order, that frees an address alone.
pub open spec fn is_first_alone(
    groups: Groups,
    stamps: Stamps,
    tier: EvictionTier,
    gone: Set<ExplicitOwner>,
    incoming: Set<Pubkey>,
    owner: ExplicitOwner,
) -> bool {
    &&& evictable(groups, tier).contains(owner)
    &&& !gone.contains(owner)
    &&& frees_alone(groups, gone, incoming, owner)
    &&& forall|o: ExplicitOwner| #[trigger]
        evictable(groups, tier).contains(o) && !gone.contains(o) && frees_alone(
            groups,
            gone,
            incoming,
            o,
        ) ==> key_of(stamps, owner).rank() <= key_of(stamps, o).rank()
}

/// The first package in package order.
pub open spec fn is_first_package(
    groups: Groups,
    stamps: Stamps,
    tier: EvictionTier,
    gone: Set<ExplicitOwner>,
    incoming: Set<Pubkey>,
    package: Set<ExplicitOwner>,
) -> bool {
    &&& is_package(groups, tier, gone, incoming, package)
    &&& forall|other: Set<ExplicitOwner>| #[trigger]
        is_package(groups, tier, gone, incoming, other) ==> !package_before(stamps, other, package)
}

pub open spec fn some_alone(
    groups: Groups,
    tier: EvictionTier,
    gone: Set<ExplicitOwner>,
    incoming: Set<Pubkey>,
) -> bool {
    exists|o: ExplicitOwner|
        evictable(groups, tier).contains(o) && !gone.contains(o) && #[trigger] frees_alone(
            groups,
            gone,
            incoming,
            o,
        )
}

pub open spec fn some_package(
    groups: Groups,
    tier: EvictionTier,
    gone: Set<ExplicitOwner>,
    incoming: Set<Pubkey>,
) -> bool {
    exists|p: Set<ExplicitOwner>| is_package(groups, tier, gone, incoming, p)
}

/// The owners picked in one round: one that frees an address alone if there is any, else the
/// first package.
pub open spec fn round(
    groups: Groups,
    stamps: Stamps,
    tier: EvictionTier,
    gone: Set<ExplicitOwner>,
    incoming: Set<Pubkey>,
) -> Seq<ExplicitOwner> {
    if some_alone(groups, tier, gone, incoming) {
        seq![choose|o: ExplicitOwner| is_first_alone(groups, stamps, tier, gone, incoming, o)]
    } else {
        owners_in(
            by_eviction(
                stamps,
                choose|p: Set<ExplicitOwner>|
                    is_first_package(groups, stamps, tier, gone, incoming, p),
            ),
        )
    }
}

/// Every set of keyed owners has an eviction order.
pub proof fn lemma_by_eviction(stamps: Stamps, owners: Set<ExplicitOwner>)
    requires
        owners.finite(),
    ensures
        ordered::lists(by_eviction(stamps, owners), keys_of(stamps, owners)),
        owners_in(by_eviction(stamps, owners)).to_set() =~= owners,
        owners_in(by_eviction(stamps, owners)).no_duplicates(),
{
    lemma_keys_finite(stamps, owners);
    let keys = by_eviction(stamps, owners);
    ordered::lemma_in_order_lists(keys_of(stamps, owners));
    lemma_listed_owners(stamps, owners, keys);
}

pub proof fn lemma_listed_owners(
    stamps: Stamps,
    owners: Set<ExplicitOwner>,
    keys: Seq<EvictionKey>,
)
    requires
        ordered::lists(keys, keys_of(stamps, owners)),
    ensures
        owners_in(keys).to_set() =~= owners,
        owners_in(keys).no_duplicates(),
{
    let names = owners_in(keys);
    assert forall|o: ExplicitOwner| owners.contains(o) implies names.to_set().contains(o) by {
        let k = key_of(stamps, o);
        assert(keys_of(stamps, owners).contains(k));
        assert(keys.to_set().contains(k));
        let i = choose|i: int| 0 <= i < keys.len() && keys[i] == k;
        assert(names[i] == o);
    }
    assert forall|o: ExplicitOwner| names.to_set().contains(o) implies owners.contains(o) by {
        let i = choose|i: int| 0 <= i < names.len() && names[i] == o;
        assert(keys.to_set().contains(keys[i]));
    }
    assert forall|i: int, j: int| 0 <= i < names.len() && 0 <= j < names.len() && i
        != j implies names[i] != names[j] by {
        assert(keys.to_set().contains(keys[i]));
        assert(keys.to_set().contains(keys[j]));
        if i < j {
            assert(keys[i].rank() < keys[j].rank());
        } else {
            assert(keys[j].rank() < keys[i].rank());
        }
    }
}

proof fn lemma_keys_finite(stamps: Stamps, owners: Set<ExplicitOwner>)
    requires
        owners.finite(),
    ensures
        keys_of(stamps, owners).finite(),
    decreases owners.len(),
{
    if owners.len() == 0 {
        assert(owners =~= Set::empty());
        assert(keys_of(stamps, owners) =~= Set::empty());
    } else {
        let o = owners.choose();
        lemma_keys_finite(stamps, owners.remove(o));
        assert(keys_of(stamps, owners) =~= keys_of(stamps, owners.remove(o)).insert(
            key_of(stamps, o),
        ));
    }
}

proof fn lemma_least_owner(stamps: Stamps, owners: Set<ExplicitOwner>) -> (least: ExplicitOwner)
    requires
        owners.finite(),
        owners.len() > 0,
    ensures
        owners.contains(least),
        forall|o: ExplicitOwner| #[trigger]
            owners.contains(o) ==> key_of(stamps, least).rank() <= key_of(stamps, o).rank(),
    decreases owners.len(),
{
    let o = owners.choose();
    let rest = owners.remove(o);
    if rest.len() == 0 {
        assert forall|x: ExplicitOwner| #[trigger] owners.contains(x) implies x == o by {
            if x != o {
                assert(rest.contains(x));
            }
        }
        o
    } else {
        let m = lemma_least_owner(stamps, rest);
        let least = if key_of(stamps, m).rank() <= key_of(stamps, o).rank() {
            m
        } else {
            o
        };
        assert forall|x: ExplicitOwner| #[trigger] owners.contains(x) implies key_of(
            stamps,
            least,
        ).rank() <= key_of(stamps, x).rank() by {
            if x != o {
                assert(rest.contains(x));
            }
        }
        least
    }
}

pub proof fn lemma_first_alone(
    groups: Groups,
    stamps: Stamps,
    tier: EvictionTier,
    gone: Set<ExplicitOwner>,
    incoming: Set<Pubkey>,
)
    requires
        groups.dom().finite(),
        some_alone(groups, tier, gone, incoming),
    ensures
        exists|o: ExplicitOwner| is_first_alone(groups, stamps, tier, gone, incoming, o),
{
    let able = evictable(groups, tier).filter(
        |o: ExplicitOwner| !gone.contains(o) && frees_alone(groups, gone, incoming, o),
    );
    let w = choose|o: ExplicitOwner|
        evictable(groups, tier).contains(o) && !gone.contains(o) && #[trigger] frees_alone(
            groups,
            gone,
            incoming,
            o,
        );
    assert(able.contains(w));
    assert(able.finite());
    let least = lemma_least_owner(stamps, able);
    assert forall|o: ExplicitOwner| #[trigger]
        evictable(groups, tier).contains(o) && !gone.contains(o) && frees_alone(
            groups,
            gone,
            incoming,
            o,
        ) implies key_of(stamps, least).rank() <= key_of(stamps, o).rank() by {
        assert(able.contains(o));
    }
    assert(is_first_alone(groups, stamps, tier, gone, incoming, least));
}

/// Only one owner can be first.
pub proof fn lemma_first_alone_unique(
    groups: Groups,
    stamps: Stamps,
    tier: EvictionTier,
    gone: Set<ExplicitOwner>,
    incoming: Set<Pubkey>,
    a: ExplicitOwner,
    b: ExplicitOwner,
)
    requires
        is_first_alone(groups, stamps, tier, gone, incoming, a),
        is_first_alone(groups, stamps, tier, gone, incoming, b),
    ensures
        a == b,
{
    assert(evictable(groups, tier).contains(a));
    assert(evictable(groups, tier).contains(b));
    EvictionKey::rank_injective(key_of(stamps, a), key_of(stamps, b));
}

/// A package whose witness lies in `keys`.
spec fn package_within(
    groups: Groups,
    tier: EvictionTier,
    gone: Set<ExplicitOwner>,
    incoming: Set<Pubkey>,
    keys: Set<Pubkey>,
    package: Set<ExplicitOwner>,
) -> bool {
    &&& package != Set::<ExplicitOwner>::empty()
    &&& package.subset_of(evictable(groups, tier))
    &&& exists|pk: Pubkey|
        keys.contains(pk) && !incoming.contains(pk) && #[trigger] remaining(groups, gone, pk)
            =~= package
}

pub proof fn lemma_package_transitive(
    stamps: Stamps,
    a: Set<ExplicitOwner>,
    b: Set<ExplicitOwner>,
    c: Set<ExplicitOwner>,
)
    requires
        package_before(stamps, a, b),
        package_before(stamps, b, c),
    ensures
        package_before(stamps, a, c),
{
    let x = by_eviction(stamps, a);
    let y = by_eviction(stamps, b);
    let z = by_eviction(stamps, c);
    if lex_before(x, y) && lex_before(y, z) {
        lemma_lex_transitive(x, y, z);
    }
}

proof fn lemma_first_within(
    groups: Groups,
    stamps: Stamps,
    tier: EvictionTier,
    gone: Set<ExplicitOwner>,
    incoming: Set<Pubkey>,
    keys: Set<Pubkey>,
    some: Set<ExplicitOwner>,
) -> (first: Set<ExplicitOwner>)
    requires
        keys.finite(),
        package_within(groups, tier, gone, incoming, keys, some),
    ensures
        package_within(groups, tier, gone, incoming, keys, first),
        forall|other: Set<ExplicitOwner>| #[trigger]
            package_within(groups, tier, gone, incoming, keys, other) ==> !package_before(
                stamps,
                other,
                first,
            ),
    decreases keys.len(),
{
    let pk = choose|pk: Pubkey|
        keys.contains(pk) && !incoming.contains(pk) && #[trigger] remaining(groups, gone, pk)
            =~= some;
    let rest = keys.remove(pk);
    let p = remaining(groups, gone, pk);
    lemma_lex_irreflexive(by_eviction(stamps, p));
    if exists|q: Set<ExplicitOwner>| package_within(groups, tier, gone, incoming, rest, q) {
        let q = choose|q: Set<ExplicitOwner>| package_within(groups, tier, gone, incoming, rest, q);
        let m = lemma_first_within(groups, stamps, tier, gone, incoming, rest, q);
        let first = if package_before(stamps, p, m) {
            p
        } else {
            m
        };
        let wm = choose|w: Pubkey|
            rest.contains(w) && !incoming.contains(w) && #[trigger] remaining(groups, gone, w)
                =~= m;
        assert(keys.contains(wm));
        assert forall|other: Set<ExplicitOwner>| #[trigger]
            package_within(groups, tier, gone, incoming, keys, other) implies !package_before(
            stamps,
            other,
            first,
        ) by {
            let w = choose|w: Pubkey|
                keys.contains(w) && !incoming.contains(w) && #[trigger] remaining(groups, gone, w)
                    =~= other;
            if w == pk {
                assert(other =~= p);
            } else {
                assert(rest.contains(w));
                assert(package_within(groups, tier, gone, incoming, rest, other));
                if package_before(stamps, p, m) && package_before(stamps, other, p) {
                    lemma_package_transitive(stamps, other, p, m);
                }
            }
        }
        first
    } else {
        assert forall|other: Set<ExplicitOwner>| #[trigger]
            package_within(groups, tier, gone, incoming, keys, other) implies !package_before(
            stamps,
            other,
            p,
        ) by {
            let w = choose|w: Pubkey|
                keys.contains(w) && !incoming.contains(w) && #[trigger] remaining(groups, gone, w)
                    =~= other;
            if w == pk {
                assert(other =~= p);
            } else {
                assert(rest.contains(w));
                assert(package_within(groups, tier, gone, incoming, rest, other));
            }
        }
        p
    }
}

pub proof fn lemma_first_package(
    groups: Groups,
    stamps: Stamps,
    tier: EvictionTier,
    gone: Set<ExplicitOwner>,
    incoming: Set<Pubkey>,
)
    requires
        groups.dom().finite(),
        some_package(groups, tier, gone, incoming),
    ensures
        exists|p: Set<ExplicitOwner>| is_first_package(groups, stamps, tier, gone, incoming, p),
{
    owner_index::lemma_physical_finite(groups);
    let keys = owner_index::physical(groups);
    assert forall|p: Set<ExplicitOwner>| #[trigger]
        is_package(groups, tier, gone, incoming, p) implies package_within(
        groups,
        tier,
        gone,
        incoming,
        keys,
        p,
    ) by {
        let pk = choose|pk: Pubkey|
            !incoming.contains(pk) && #[trigger] remaining(groups, gone, pk) =~= p;
        assert(!(p =~= Set::<ExplicitOwner>::empty()));
        let o = choose|o: ExplicitOwner| p.contains(o);
        assert(remaining(groups, gone, pk).contains(o));
        assert(groups.dom().contains(o) && groups[o].contains(pk));
        assert(keys.contains(pk));
    }
    let some = choose|p: Set<ExplicitOwner>| is_package(groups, tier, gone, incoming, p);
    let first = lemma_first_within(groups, stamps, tier, gone, incoming, keys, some);
    assert(is_package(groups, tier, gone, incoming, first));
    assert(is_first_package(groups, stamps, tier, gone, incoming, first));
}

/// Only one package can be first.
pub proof fn lemma_first_package_unique(
    groups: Groups,
    stamps: Stamps,
    tier: EvictionTier,
    gone: Set<ExplicitOwner>,
    incoming: Set<Pubkey>,
    a: Set<ExplicitOwner>,
    b: Set<ExplicitOwner>,
)
    requires
        groups.dom().finite(),
        is_first_package(groups, stamps, tier, gone, incoming, a),
        is_first_package(groups, stamps, tier, gone, incoming, b),
    ensures
        a =~= b,
{
    let x = by_eviction(stamps, a);
    let y = by_eviction(stamps, b);
    assert(is_package(groups, tier, gone, incoming, a));
    assert(is_package(groups, tier, gone, incoming, b));
    lemma_lex_total(x, y);
    assert(x == y);
    vstd::set_lib::lemma_len_subset(a, groups.dom());
    vstd::set_lib::lemma_len_subset(b, groups.dom());
    lemma_by_eviction(stamps, a);
    lemma_by_eviction(stamps, b);
}

/// A round picks new owners that the tier lets go, each once, and at least one.
pub proof fn lemma_round(
    groups: Groups,
    stamps: Stamps,
    tier: EvictionTier,
    gone: Set<ExplicitOwner>,
    incoming: Set<Pubkey>,
)
    requires
        groups.dom().finite(),
        some_alone(groups, tier, gone, incoming) || some_package(groups, tier, gone, incoming),
    ensures
        round(groups, stamps, tier, gone, incoming).len() > 0,
        round(groups, stamps, tier, gone, incoming).no_duplicates(),
        forall|o: ExplicitOwner| #[trigger]
            round(groups, stamps, tier, gone, incoming).contains(o) ==> evictable(
                groups,
                tier,
            ).contains(o) && !gone.contains(o),
{
    let picked = round(groups, stamps, tier, gone, incoming);
    if some_alone(groups, tier, gone, incoming) {
        lemma_first_alone(groups, stamps, tier, gone, incoming);
    } else {
        lemma_first_package(groups, stamps, tier, gone, incoming);
        let p = choose|p: Set<ExplicitOwner>|
            is_first_package(groups, stamps, tier, gone, incoming, p);
        vstd::set_lib::lemma_len_subset(p, groups.dom());
        lemma_by_eviction(stamps, p);
        let pk = choose|pk: Pubkey|
            !incoming.contains(pk) && #[trigger] remaining(groups, gone, pk) =~= p;
        assert(!(p =~= Set::<ExplicitOwner>::empty()));
        let w = choose|o: ExplicitOwner| p.contains(o);
        assert(picked.to_set().contains(w));
        assert forall|o: ExplicitOwner| #[trigger] picked.contains(o) implies evictable(
            groups,
            tier,
        ).contains(o) && !gone.contains(o) by {
            assert(picked.to_set().contains(o));
            assert(p.contains(o));
            assert(remaining(groups, gone, pk).contains(o));
        }
    }
}

pub proof fn lemma_round_progress(
    groups: Groups,
    stamps: Stamps,
    tier: EvictionTier,
    victims: Seq<ExplicitOwner>,
    incoming: Set<Pubkey>,
)
    requires
        groups.dom().finite(),
        some_alone(groups, tier, victims.to_set(), incoming) || some_package(
            groups,
            tier,
            victims.to_set(),
            incoming,
        ),
    ensures
        ({
            let next = victims + round(groups, stamps, tier, victims.to_set(), incoming);
            evictable(groups, tier).difference(next.to_set()).len() < evictable(
                groups,
                tier,
            ).difference(victims.to_set()).len()
        }),
{
    let gone = victims.to_set();
    let picked = round(groups, stamps, tier, gone, incoming);
    let next = victims + picked;
    lemma_round(groups, stamps, tier, gone, incoming);
    let before = evictable(groups, tier).difference(gone);
    let after = evictable(groups, tier).difference(next.to_set());
    let w = picked[0];
    assert(picked.contains(w));
    assert(before.contains(w));
    assert(next[victims.len() as int] == w);
    assert(next.to_set().contains(w));
    assert forall|o: ExplicitOwner| after.contains(o) implies before.remove(w).contains(o) by {
        if gone.contains(o) {
            let i = choose|i: int| 0 <= i < victims.len() && victims[i] == o;
            assert(next[i] == o);
        }
    }
    vstd::set_lib::lemma_len_subset(after, before.remove(w));
}

/// Rounds are picked until enough addresses are free; `None` when no round is left.
pub open spec fn selection(
    groups: Groups,
    stamps: Stamps,
    tier: EvictionTier,
    incoming: Set<Pubkey>,
    required: int,
    victims: Seq<ExplicitOwner>,
) -> Option<Seq<ExplicitOwner>>
    decreases evictable(groups, tier).difference(victims.to_set()).len(),
    when groups.dom().finite()
    via selection_decreases
{
    let gone = victims.to_set();
    if freed(groups, gone, incoming).len() >= required {
        Some(victims)
    } else if some_alone(groups, tier, gone, incoming) || some_package(
        groups,
        tier,
        gone,
        incoming,
    ) {
        selection(
            groups,
            stamps,
            tier,
            incoming,
            required,
            victims + round(groups, stamps, tier, gone, incoming),
        )
    } else {
        None
    }
}

#[via_fn]
proof fn selection_decreases(
    groups: Groups,
    stamps: Stamps,
    tier: EvictionTier,
    incoming: Set<Pubkey>,
    required: int,
    victims: Seq<ExplicitOwner>,
) {
    let gone = victims.to_set();
    if some_alone(groups, tier, gone, incoming) || some_package(groups, tier, gone, incoming) {
        lemma_round_progress(groups, stamps, tier, victims, incoming);
    }
}

/// What is freed is tracked, and there are finitely many.
pub proof fn lemma_freed_finite(groups: Groups, gone: Set<ExplicitOwner>, incoming: Set<Pubkey>)
    requires
        groups.dom().finite(),
    ensures
        freed(groups, gone, incoming).finite(),
        freed(groups, gone, incoming).len() <= owner_index::physical(groups).len(),
{
    owner_index::lemma_physical_finite(groups);
    vstd::set_lib::lemma_len_subset(
        freed(groups, gone, incoming),
        owner_index::physical(groups),
    );
}

/// Whenever a tier can free enough addresses, selection finds a plan in it.
///
/// The plan names each victim once, only owners that the tier lets go, and frees enough.
pub proof fn selection_succeeds_when_feasible(
    groups: Groups,
    stamps: Stamps,
    tier: EvictionTier,
    incoming: Set<Pubkey>,
    required: int,
    victims: Seq<ExplicitOwner>,
)
    requires
        groups.dom().finite(),
        required <= freed(groups, evictable(groups, tier), incoming).len(),
        victims.no_duplicates(),
        forall|o: ExplicitOwner| #[trigger]
            victims.contains(o) ==> evictable(groups, tier).contains(o),
    ensures
        ({
            let plan = selection(groups, stamps, tier, incoming, required, victims);
            &&& plan is Some
            &&& victims.is_prefix_of(plan->0)
            &&& plan->0.no_duplicates()
            &&& forall|o: ExplicitOwner| #[trigger]
                plan->0.contains(o) ==> evictable(groups, tier).contains(o)
            &&& freed(groups, plan->0.to_set(), incoming).len() >= required
        }),
    decreases evictable(groups, tier).difference(victims.to_set()).len(),
{
    let gone = victims.to_set();
    let all = evictable(groups, tier);
    if freed(groups, gone, incoming).len() < required {
        lemma_freed_finite(groups, gone, incoming);
        lemma_freed_finite(groups, all, incoming);
        let lacking = freed(groups, all, incoming).difference(freed(groups, gone, incoming));
        if lacking =~= Set::<Pubkey>::empty() {
            assert forall|x: Pubkey| freed(groups, all, incoming).contains(x) implies freed(
                groups,
                gone,
                incoming,
            ).contains(x) by {
                assert(!lacking.contains(x));
            }
            vstd::set_lib::lemma_len_subset(
                freed(groups, all, incoming),
                freed(groups, gone, incoming),
            );
        }
        let pk = choose|pk: Pubkey| lacking.contains(pk);
        assert(lacking.contains(pk));
        let p = remaining(groups, gone, pk);
        assert(p != Set::<ExplicitOwner>::empty()) by {
            if p =~= Set::<ExplicitOwner>::empty() {
                assert forall|o: ExplicitOwner| owner_index::owners_of(groups, pk).contains(
                    o,
                ) implies gone.contains(o) by {
                    if !gone.contains(o) {
                        assert(p.contains(o));
                    }
                }
                assert(freed(groups, gone, incoming).contains(pk));
            }
        }
        assert(is_package(groups, tier, gone, incoming, p));
        assert(some_package(groups, tier, gone, incoming));
        lemma_round(groups, stamps, tier, gone, incoming);
        lemma_round_progress(groups, stamps, tier, victims, incoming);
        let picked = round(groups, stamps, tier, gone, incoming);
        let next = victims + picked;
        assert(next.no_duplicates()) by {
            assert forall|i: int, j: int| 0 <= i < next.len() && 0 <= j < next.len() && i
                != j implies next[i] != next[j] by {
                if i < victims.len() && j >= victims.len() {
                    assert(picked.contains(next[j]));
                    assert(gone.contains(next[i]));
                } else if j < victims.len() && i >= victims.len() {
                    assert(picked.contains(next[i]));
                    assert(gone.contains(next[j]));
                } else if i >= victims.len() {
                    assert(picked[i - victims.len()] != picked[j - victims.len()]);
                }
            }
        }
        assert forall|o: ExplicitOwner| #[trigger] next.contains(o) implies all.contains(o) by {
            let i = choose|i: int| 0 <= i < next.len() && next[i] == o;
            if i < victims.len() {
                assert(victims.contains(o));
            } else {
                assert(picked.contains(o)) by {
                    assert(picked[i - victims.len()] == o);
                }
            }
        }
        selection_succeeds_when_feasible(groups, stamps, tier, incoming, required, next);
        let plan = selection(groups, stamps, tier, incoming, required, next)->0;
        assert(victims.is_prefix_of(plan)) by {
            assert(victims =~= next.take(victims.len() as int));
            assert(next =~= plan.take(next.len() as int));
            assert(victims =~= plan.take(victims.len() as int));
        }
    }
}

/// The addresses left when `gone` leave.
pub proof fn lemma_physical_without(groups: Groups, gone: Set<ExplicitOwner>)
    ensures
        owner_index::physical(groups.remove_keys(gone)) =~= owner_index::physical(
            groups,
        ).difference(freed(groups, gone, Set::empty())),
{
    let rest = groups.remove_keys(gone);
    assert forall|pk: Pubkey| owner_index::physical(rest).contains(pk) == (owner_index::physical(
        groups,
    ).contains(pk) && !owner_index::owners_of(groups, pk).subset_of(gone)) by {
        if owner_index::physical(rest).contains(pk) {
            let o = choose|o: ExplicitOwner| rest.dom().contains(o) && #[trigger] rest[o].contains(pk);
            assert(groups.dom().contains(o) && groups[o].contains(pk));
            assert(owner_index::owners_of(groups, pk).contains(o));
            assert(!gone.contains(o));
        }
        if !owner_index::owners_of(groups, pk).subset_of(gone) {
            let o = choose|o: ExplicitOwner|
                owner_index::owners_of(groups, pk).contains(o) && !gone.contains(o);
            assert(rest.dom().contains(o) && rest[o].contains(pk));
        }
    }
}

/// The addresses held after `gone` leave and a new group arrives.
pub proof fn lemma_physical_replaced(
    groups: Groups,
    gone: Set<ExplicitOwner>,
    owner: ExplicitOwner,
    keys: Seq<Pubkey>,
)
    requires
        groups.dom().finite(),
        !groups.dom().contains(owner) || gone.contains(owner),
    ensures
        owner_index::physical(groups.remove_keys(gone).insert(owner, keys)) =~= owner_index::physical(
            groups,
        ).difference(freed(groups, gone, keys.to_set())).union(keys.to_set()),
        owner_index::physical(groups.remove_keys(gone).insert(owner, keys)).len()
            == owner_index::physical(groups).len() - freed(groups, gone, keys.to_set()).len()
            + keys.to_set().difference(owner_index::physical(groups)).len(),
{
    let rest = groups.remove_keys(gone);
    let after = rest.insert(owner, keys);
    let wanted = keys.to_set();
    let before = owner_index::physical(groups);
    let lost = freed(groups, gone, wanted);
    lemma_physical_without(groups, gone);
    assert forall|pk: Pubkey| #[trigger] owner_index::physical(after).contains(pk) == (owner_index::physical(
        rest,
    ).contains(pk) || wanted.contains(pk)) by {
        if owner_index::physical(after).contains(pk) {
            let o = choose|o: ExplicitOwner|
                after.dom().contains(o) && #[trigger] after[o].contains(pk);
            if o != owner {
                assert(rest.dom().contains(o) && rest[o].contains(pk));
            }
        }
        if owner_index::physical(rest).contains(pk) {
            let o = choose|o: ExplicitOwner| rest.dom().contains(o) && #[trigger] rest[o].contains(pk);
            assert(o != owner);
            assert(after.dom().contains(o) && after[o].contains(pk));
        }
        if wanted.contains(pk) {
            assert(after.dom().contains(owner) && after[owner].contains(pk));
        }
    }
    let result = before.difference(lost).union(wanted);
    assert forall|pk: Pubkey| owner_index::physical(after).contains(pk) == result.contains(pk) by {
        let alone = freed(groups, gone, Set::empty());
        assert(owner_index::physical(rest).contains(pk) == before.difference(alone).contains(pk));
        assert(lost.contains(pk) == (alone.contains(pk) && !wanted.contains(pk)));
        assert(owner_index::physical(after).contains(pk) == (owner_index::physical(rest).contains(
            pk,
        ) || wanted.contains(pk)));
    }
    assert(owner_index::physical(after) =~= result);
    owner_index::lemma_physical_finite(groups);
    lemma_freed_finite(groups, gone, wanted);
    vstd::seq_lib::seq_to_set_is_finite(keys);
    let kept = before.difference(lost);
    let fresh = wanted.difference(before);
    assert(result =~= kept.union(fresh)) by {
        assert forall|pk: Pubkey| result.contains(pk) implies kept.union(fresh).contains(pk) by {}
    }
    assert(kept.disjoint(fresh));
    vstd::set_lib::lemma_set_disjoint_lens(kept, fresh);
    assert(lost.subset_of(before));
    assert(before =~= kept.union(lost));
    assert(kept.disjoint(lost));
    vstd::set_lib::lemma_set_disjoint_lens(kept, lost);
}

/// The number of addresses left when `gone` leave.
pub proof fn lemma_physical_without_len(groups: Groups, gone: Set<ExplicitOwner>)
    requires
        groups.dom().finite(),
    ensures
        owner_index::physical(groups.remove_keys(gone)).len() == owner_index::physical(
            groups,
        ).len() - freed(groups, gone, Set::empty()).len(),
{
    let before = owner_index::physical(groups);
    let lost = freed(groups, gone, Set::empty());
    lemma_physical_without(groups, gone);
    owner_index::lemma_physical_finite(groups);
    lemma_freed_finite(groups, gone, Set::empty());
    let kept = before.difference(lost);
    assert(before =~= kept.union(lost));
    assert(kept.disjoint(lost));
    vstd::set_lib::lemma_set_disjoint_lens(kept, lost);
}

/// A counter that stops at its maximum.
pub open spec fn saturated(count: u64, n: int) -> u64 {
    if count + n > u64::MAX {
        u64::MAX
    } else {
        (count + n) as u64
    }
}

/// The keys of the groups that are not `gone`, counted with repetitions.
pub open spec fn edges(groups: Groups, names: Seq<ExplicitOwner>, gone: Set<ExplicitOwner>) -> nat
    decreases names.len(),
{
    if names.len() == 0 {
        0
    } else {
        edges(groups, names.drop_last(), gone) + if gone.contains(names.last()) {
            0
        } else {
            groups[names.last()].len()
        }
    }
}

/// How many of the keys are looked at to find the first owner that frees an address alone: those
/// already gone are passed over, and the search ends with the one it finds.
pub open spec fn looked_at(
    keys: Seq<EvictionKey>,
    groups: Groups,
    gone: Set<ExplicitOwner>,
    incoming: Set<Pubkey>,
) -> nat
    decreases keys.len(),
{
    if keys.len() == 0 {
        0
    } else if gone.contains(keys[0].owner) {
        looked_at(keys.drop_first(), groups, gone, incoming)
    } else if frees_alone(groups, gone, incoming, keys[0].owner) {
        1
    } else {
        1 + looked_at(keys.drop_first(), groups, gone, incoming)
    }
}

/// The addresses whose remaining owners make a package.
pub open spec fn packaged(
    groups: Groups,
    tier: EvictionTier,
    gone: Set<ExplicitOwner>,
    incoming: Set<Pubkey>,
) -> Set<Pubkey> {
    owner_index::physical(groups).filter(
        |pk: Pubkey|
            {
                &&& !incoming.contains(pk)
                &&& remaining(groups, gone, pk).len() > 0
                &&& remaining(groups, gone, pk).subset_of(evictable(groups, tier))
            },
    )
}

/// The owners of each of the addresses, counted together.
pub open spec fn owner_edges(groups: Groups, pubkeys: Seq<Pubkey>) -> nat
    decreases pubkeys.len(),
{
    if pubkeys.len() == 0 {
        0
    } else {
        owner_edges(groups, pubkeys.drop_last()) + owner_index::owners_of(
            groups,
            pubkeys.last(),
        ).len()
    }
}

/// How much work a selection takes.
pub struct SelectionWork {
    /// Owners looked at.
    pub evaluations: nat,
    /// Packages looked at.
    pub packages: nat,
    /// Refcounts lowered.
    pub updates: nat,
}

impl SelectionWork {
    pub open spec fn none() -> SelectionWork {
        SelectionWork { evaluations: 0, packages: 0, updates: 0 }
    }

    pub open spec fn plus(self, other: SelectionWork) -> SelectionWork {
        SelectionWork {
            evaluations: self.evaluations + other.evaluations,
            packages: self.packages + other.packages,
            updates: self.updates + other.updates,
        }
    }
}

/// The work of one round: packages are looked at only where no owner frees an address alone.
pub open spec fn round_work(
    groups: Groups,
    stamps: Stamps,
    tier: EvictionTier,
    gone: Set<ExplicitOwner>,
    incoming: Set<Pubkey>,
) -> SelectionWork {
    let alone = some_alone(groups, tier, gone, incoming);
    SelectionWork {
        evaluations: looked_at(
            by_eviction(stamps, evictable(groups, tier)),
            groups,
            gone,
            incoming,
        ),
        packages: if alone {
            0
        } else {
            packaged(groups, tier, gone, incoming).len()
        },
        updates: if alone || some_package(groups, tier, gone, incoming) {
            edges(groups, round(groups, stamps, tier, gone, incoming), Set::empty())
        } else {
            0
        },
    }
}

/// The work of a selection that goes on from `victims`.
pub open spec fn selection_work(
    groups: Groups,
    stamps: Stamps,
    tier: EvictionTier,
    incoming: Set<Pubkey>,
    required: int,
    victims: Seq<ExplicitOwner>,
) -> SelectionWork
    decreases evictable(groups, tier).difference(victims.to_set()).len(),
    when groups.dom().finite()
    via selection_work_decreases
{
    let gone = victims.to_set();
    if freed(groups, gone, incoming).len() >= required {
        SelectionWork::none()
    } else if some_alone(groups, tier, gone, incoming) || some_package(
        groups,
        tier,
        gone,
        incoming,
    ) {
        round_work(groups, stamps, tier, gone, incoming).plus(
            selection_work(
                groups,
                stamps,
                tier,
                incoming,
                required,
                victims + round(groups, stamps, tier, gone, incoming),
            ),
        )
    } else {
        round_work(groups, stamps, tier, gone, incoming)
    }
}

#[via_fn]
proof fn selection_work_decreases(
    groups: Groups,
    stamps: Stamps,
    tier: EvictionTier,
    incoming: Set<Pubkey>,
    required: int,
    victims: Seq<ExplicitOwner>,
) {
    let gone = victims.to_set();
    if some_alone(groups, tier, gone, incoming) || some_package(groups, tier, gone, incoming) {
        lemma_round_progress(groups, stamps, tier, victims, incoming);
    }
}

/// `a` is less protected than `b`: the tracker than all others, arbitrage than momentum and the
/// wallet, momentum than the wallet.
pub open spec fn less_protected(a: ExplicitConsumer, b: ExplicitConsumer) -> bool {
    match a {
        ExplicitConsumer::Tracker => !(b is Tracker),
        ExplicitConsumer::Arb => b is Momentum || b is Wallet,
        ExplicitConsumer::Momentum => b is Wallet,
        ExplicitConsumer::Wallet => false,
    }
}

/// `a` goes sooner than `b`: it is less protected or, as protected, was touched longer ago or, at
/// the same time, comes first by identity.
pub open spec fn goes_sooner(stamps: Stamps, a: ExplicitOwner, b: ExplicitOwner) -> bool {
    less_protected(a.consumer, b.consumer) || (a.consumer == b.consumer && (stamps[a] < stamps[b]
        || (stamps[a] == stamps[b] && a.rank() < b.rank())))
}

/// Without the groups of `gone`, `owner` alone holds an address that the newcomer does not want.
pub open spec fn holds_alone(
    groups: Groups,
    gone: Seq<ExplicitOwner>,
    incoming: Set<Pubkey>,
    owner: ExplicitOwner,
) -> bool {
    exists|pk: Pubkey|
        #![trigger groups[owner].contains(pk)]
        !incoming.contains(pk) && groups.dom().contains(owner) && groups[owner].contains(pk)
            && !gone.contains(owner) && forall|h: ExplicitOwner|
            h != owner && #[trigger] groups.dom().contains(h) && groups[h].contains(pk)
                ==> gone.contains(h)
}

proof fn lemma_holds_alone(
    groups: Groups,
    gone: Seq<ExplicitOwner>,
    incoming: Set<Pubkey>,
    owner: ExplicitOwner,
)
    ensures
        holds_alone(groups, gone, incoming, owner) <==> frees_alone(
            groups,
            gone.to_set(),
            incoming,
            owner,
        ),
{
    if holds_alone(groups, gone, incoming, owner) {
        let pk = choose|pk: Pubkey|
            #![trigger groups[owner].contains(pk)]
            !incoming.contains(pk) && groups.dom().contains(owner) && groups[owner].contains(pk)
                && !gone.contains(owner) && forall|h: ExplicitOwner|
                h != owner && #[trigger] groups.dom().contains(h) && groups[h].contains(pk)
                    ==> gone.contains(h);
        assert(remaining(groups, gone.to_set(), pk) =~= set![owner]);
    }
    if frees_alone(groups, gone.to_set(), incoming, owner) {
        let pk = choose|pk: Pubkey|
            !incoming.contains(pk) && #[trigger] remaining(groups, gone.to_set(), pk) =~= set![
                owner,
            ];
        let left = remaining(groups, gone.to_set(), pk);
        assert(left.contains(owner));
        assert forall|h: ExplicitOwner|
            h != owner && #[trigger] groups.dom().contains(h) && groups[h].contains(
                pk,
            ) implies gone.contains(h) by {
            if !gone.contains(h) {
                assert(left.contains(h));
            }
        }
        assert(groups[owner].contains(pk));
    }
}

/// Which groups a tier lets go: tracker groups at every tier, arbitrage groups from the second on,
/// momentum groups at the last, wallet groups at none.
pub proof fn tiers_open_in_order(tier: EvictionTier, consumer: ExplicitConsumer)
    ensures
        consumer is Tracker ==> tier.opens(consumer),
        consumer is Arb ==> (tier.opens(consumer) <==> tier is Arb || tier is Momentum),
        consumer is Momentum ==> (tier.opens(consumer) <==> tier is Momentum),
        consumer is Wallet ==> !tier.opens(consumer),
        consumer is Tracker ==> (tier.allowed_for(consumer) <==> tier is Tracker),
        consumer is Arb ==> (tier.allowed_for(consumer) <==> tier is Tracker || tier is Arb),
        consumer is Momentum || consumer is Wallet ==> tier.allowed_for(consumer),
        EvictionTier::Tracker.level() < EvictionTier::Arb.level() < EvictionTier::Momentum.level(),
{
}

/// The next victim, while not enough is freed: where some group that may go holds an unwanted
/// address alone, it is one of those, and none of those goes sooner than it.
pub proof fn next_victim_is_the_first_to_free_an_address(
    groups: Groups,
    stamps: Stamps,
    tier: EvictionTier,
    incoming: Set<Pubkey>,
    required: int,
    victims: Seq<ExplicitOwner>,
    plan: Seq<ExplicitOwner>,
    other: ExplicitOwner,
)
    requires
        groups.dom().finite(),
        selection(groups, stamps, tier, incoming, required, victims) == Some(plan),
        freed(groups, victims.to_set(), incoming).len() < required,
        groups.dom().contains(other),
        tier.opens(other.consumer),
        holds_alone(groups, victims, incoming, other),
    ensures
        plan.len() > victims.len(),
        plan.take(victims.len() as int) == victims,
        groups.dom().contains(plan[victims.len() as int]),
        tier.opens(plan[victims.len() as int].consumer),
        holds_alone(groups, victims, incoming, plan[victims.len() as int]),
        !goes_sooner(stamps, other, plan[victims.len() as int]),
{
    let gone = victims.to_set();
    lemma_holds_alone(groups, victims, incoming, other);
    assert(evictable(groups, tier).contains(other));
    assert(!gone.contains(other)) by {
        if gone.contains(other) {
            assert(victims.contains(other));
        }
    }
    assert(frees_alone(groups, gone, incoming, other));
    assert(some_alone(groups, tier, gone, incoming));
    lemma_first_alone(groups, stamps, tier, gone, incoming);
    let first = choose|o: ExplicitOwner| is_first_alone(groups, stamps, tier, gone, incoming, o);
    let picked = round(groups, stamps, tier, gone, incoming);
    assert(picked == seq![first]);
    lemma_plan_goes_on(groups, stamps, tier, incoming, required, victims + picked, plan);
    let next = victims + picked;
    assert(next[victims.len() as int] == first);
    assert(plan.take(next.len() as int)[victims.len() as int] == first);
    assert(plan.take(victims.len() as int) =~= plan.take(next.len() as int).take(
        victims.len() as int,
    ));
    assert(next.take(victims.len() as int) =~= victims);
    lemma_holds_alone(groups, victims, incoming, first);
    crate::aged_key::aged_order(key_of(stamps, other), key_of(stamps, first));
}

proof fn lemma_plan_goes_on(
    groups: Groups,
    stamps: Stamps,
    tier: EvictionTier,
    incoming: Set<Pubkey>,
    required: int,
    victims: Seq<ExplicitOwner>,
    plan: Seq<ExplicitOwner>,
)
    requires
        groups.dom().finite(),
        selection(groups, stamps, tier, incoming, required, victims) == Some(plan),
    ensures
        plan.len() >= victims.len(),
        plan.take(victims.len() as int) == victims,
    decreases evictable(groups, tier).difference(victims.to_set()).len(),
{
    let gone = victims.to_set();
    if freed(groups, gone, incoming).len() < required {
        lemma_round_progress(groups, stamps, tier, victims, incoming);
        let next = victims + round(groups, stamps, tier, gone, incoming);
        lemma_plan_goes_on(groups, stamps, tier, incoming, required, next, plan);
        assert(plan.take(victims.len() as int) =~= plan.take(next.len() as int).take(
            victims.len() as int,
        ));
        assert(next.take(victims.len() as int) =~= victims);
    } else {
        assert(plan.take(victims.len() as int) =~= victims);
    }
}

/// Without the groups of `gone`, the groups of `together` and no others hold an address that the
/// newcomer does not want.
pub open spec fn hold_together(
    groups: Groups,
    gone: Seq<ExplicitOwner>,
    incoming: Set<Pubkey>,
    together: Seq<ExplicitOwner>,
) -> bool {
    exists|pk: Pubkey|
        !incoming.contains(pk) && #[trigger] remaining(groups, gone.to_set(), pk)
            =~= together.to_set()
}

/// `n` is where the last step of a plan begins: what went before frees too little, and what goes
/// then holds some unwanted address together.
pub open spec fn last_step_at(
    groups: Groups,
    incoming: Set<Pubkey>,
    required: int,
    plan: Seq<ExplicitOwner>,
    n: int,
) -> bool {
    &&& 0 <= n < plan.len()
    &&& freed(groups, plan.take(n).to_set(), incoming).len() < required
    &&& hold_together(groups, plan.take(n), incoming, plan.skip(n))
}

proof fn lemma_round_holds(
    groups: Groups,
    stamps: Stamps,
    tier: EvictionTier,
    victims: Seq<ExplicitOwner>,
    incoming: Set<Pubkey>,
)
    requires
        groups.dom().finite(),
        some_alone(groups, tier, victims.to_set(), incoming) || some_package(
            groups,
            tier,
            victims.to_set(),
            incoming,
        ),
    ensures
        hold_together(
            groups,
            victims,
            incoming,
            round(groups, stamps, tier, victims.to_set(), incoming),
        ),
{
    let gone = victims.to_set();
    let picked = round(groups, stamps, tier, gone, incoming);
    if some_alone(groups, tier, gone, incoming) {
        lemma_first_alone(groups, stamps, tier, gone, incoming);
        let first = choose|o: ExplicitOwner|
            is_first_alone(groups, stamps, tier, gone, incoming, o);
        let pk = choose|pk: Pubkey|
            !incoming.contains(pk) && #[trigger] remaining(groups, gone, pk) =~= set![first];
        assert(picked == seq![first]);
        assert(picked[0] == first);
        assert(picked.to_set() =~= set![first]);
        assert(remaining(groups, gone, pk) =~= picked.to_set());
    } else {
        lemma_first_package(groups, stamps, tier, gone, incoming);
        let p = choose|p: Set<ExplicitOwner>|
            is_first_package(groups, stamps, tier, gone, incoming, p);
        assert(is_package(groups, tier, gone, incoming, p));
        vstd::set_lib::lemma_set_subset_finite(groups.dom(), p);
        lemma_by_eviction(stamps, p);
        let pk = choose|pk: Pubkey|
            !incoming.contains(pk) && #[trigger] remaining(groups, gone, pk) =~= p;
        assert(remaining(groups, gone, pk) =~= picked.to_set());
    }
}

/// Nobody goes once enough is freed: before the last step of a plan too little was freed, and
/// that step takes just the groups that still hold some unwanted address.
pub proof fn selection_stops_when_enough_is_freed(
    groups: Groups,
    stamps: Stamps,
    tier: EvictionTier,
    incoming: Set<Pubkey>,
    required: int,
    victims: Seq<ExplicitOwner>,
    plan: Seq<ExplicitOwner>,
)
    requires
        groups.dom().finite(),
        selection(groups, stamps, tier, incoming, required, victims) == Some(plan),
    ensures
        freed(groups, victims.to_set(), incoming).len() >= required ==> plan == victims,
        freed(groups, victims.to_set(), incoming).len() < required ==> exists|n: int| #[trigger]
            last_step_at(groups, incoming, required, plan, n) && n >= victims.len(),
    decreases evictable(groups, tier).difference(victims.to_set()).len(),
{
    let gone = victims.to_set();
    if freed(groups, gone, incoming).len() < required {
        lemma_round(groups, stamps, tier, gone, incoming);
        lemma_round_progress(groups, stamps, tier, victims, incoming);
        lemma_round_holds(groups, stamps, tier, victims, incoming);
        let picked = round(groups, stamps, tier, gone, incoming);
        let next = victims + picked;
        selection_stops_when_enough_is_freed(
            groups,
            stamps,
            tier,
            incoming,
            required,
            next,
            plan,
        );
        if freed(groups, next.to_set(), incoming).len() >= required {
            assert(plan.take(victims.len() as int) =~= victims);
            assert(plan.skip(victims.len() as int) =~= picked);
            assert(last_step_at(groups, incoming, required, plan, victims.len() as int));
        }
    }
}

} // verus!
