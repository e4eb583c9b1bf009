//! The set of explicitly subscribed addresses with the consumers that want each of them.

use crate::ordered;
use crate::ordered::{OrderedMap, Ranked};
use crate::pubkey::Pubkey;
use vstd::prelude::*;

verus! {

/// Who wants an address.
#[derive(Debug, Clone, Copy, PartialEq, Eq, PartialOrd, Ord, Hash, Structural)]
pub enum ConsumerId {
    Wallet,
    Momentum,
    Arb,
    /// Recent-trade demand without a pin; the least protected.
    Tracker,
}

/// Pin priority: an earlier one is better protected.
#[derive(Debug, Clone, Copy, PartialEq, Eq, PartialOrd, Ord, Structural)]
pub enum PinPriority {
    Wallet,
    Momentum,
    Arb,
    Tracker,
}

impl PinPriority {
    /// Wallet, momentum, arb, tracker.
    pub open spec fn level(self) -> int {
        match self {
            PinPriority::Wallet => 0,
            PinPriority::Momentum => 1,
            PinPriority::Arb => 2,
            PinPriority::Tracker => 3,
        }
    }

    fn ordinal(&self) -> (r: u8)
        ensures
            r == self.level(),
    {
        match self {
            PinPriority::Wallet => 0,
            PinPriority::Momentum => 1,
            PinPriority::Arb => 2,
            PinPriority::Tracker => 3,
        }
    }
}

impl ConsumerId {
    /// The pin priority of the consumer.
    pub open spec fn priority(self) -> PinPriority {
        match self {
            ConsumerId::Wallet => PinPriority::Wallet,
            ConsumerId::Momentum => PinPriority::Momentum,
            ConsumerId::Arb => PinPriority::Arb,
            ConsumerId::Tracker => PinPriority::Tracker,
        }
    }
}

impl Ranked for ConsumerId {
    open spec fn rank(self) -> int {
        self.priority().level()
    }

    proof fn rank_injective(a: Self, b: Self) {
    }

    fn precedes(&self, other: &Self) -> (before: bool) {
        pin_priority_from_consumer(*self).ordinal() < pin_priority_from_consumer(*other).ordinal()
    }

    fn same(&self, other: &Self) -> (equal: bool) {
        *self == *other
    }
}

/// The pin priority of a consumer.
pub fn pin_priority_from_consumer(consumer: ConsumerId) -> (r: PinPriority)
    ensures
        r == consumer.priority(),
{
    match consumer {
        ConsumerId::Wallet => PinPriority::Wallet,
        ConsumerId::Momentum => PinPriority::Momentum,
        ConsumerId::Arb => PinPriority::Arb,
        ConsumerId::Tracker => PinPriority::Tracker,
    }
}

/// One address: its consumers in order, its pool and its priority.
#[derive(Debug, Clone, PartialEq, Eq)]
pub struct ExplicitEntry {
    pub consumers: Vec<ConsumerId>,
    pub pool: Option<Pubkey>,
    pub pin_priority: PinPriority,
}

/// What an entry says.
pub struct EntryView {
    pub consumers: Set<ConsumerId>,
    pub pool: Option<Pubkey>,
}

/// The priority of the best protected consumer.
pub open spec fn best_priority(consumers: Set<ConsumerId>) -> PinPriority {
    if consumers.contains(ConsumerId::Wallet) {
        PinPriority::Wallet
    } else if consumers.contains(ConsumerId::Momentum) {
        PinPriority::Momentum
    } else if consumers.contains(ConsumerId::Arb) {
        PinPriority::Arb
    } else {
        PinPriority::Tracker
    }
}

impl ExplicitEntry {
    /// Consumers are sorted and not empty, and the priority is that of the best protected one.
    pub open spec fn wf(&self) -> bool {
        &&& ordered::sorted(self.consumers@)
        &&& self.consumers@.len() > 0
        &&& self.pin_priority == best_priority(self.consumers@.to_set())
    }

    pub open spec fn as_view(&self) -> EntryView {
        EntryView { consumers: self.consumers@.to_set(), pool: self.pool }
    }

    /// The same entry with the priority recomputed.
    fn recompute_pin_priority(consumers: Vec<ConsumerId>, pool: Option<Pubkey>) -> (r: Self)
        requires
            ordered::sorted(consumers@),
            consumers@.len() > 0,
        ensures
            r.wf(),
            r.as_view() == (EntryView { consumers: consumers@.to_set(), pool }),
    {
        let pin_priority = pin_priority_from_consumer(consumers[0]);
        proof {
            let first = consumers@[0];
            assert(consumers@.to_set().contains(first));
            assert forall|c: ConsumerId| consumers@.to_set().contains(c) implies first.rank()
                <= c.rank() by {
                let i = choose|i: int| 0 <= i < consumers@.len() && consumers@[i] == c;
                if i > 0 {
                    assert(consumers@[0].rank() < consumers@[i].rank());
                }
            }
        }
        ExplicitEntry { consumers, pool, pin_priority }
    }
}

/// Addresses with their consumers, under a cap.
#[derive(Debug, Clone)]
pub struct DesiredExplicitSet {
    entries: OrderedMap<Pubkey, ExplicitEntry>,
    max_explicit_pubkeys: usize,
}

/// The entries by address.
pub type Entries = Map<Pubkey, EntryView>;

/// The priority of an entry.
pub open spec fn priority_of(entries: Entries, pubkey: Pubkey) -> PinPriority {
    best_priority(entries[pubkey].consumers)
}

/// Whether an address may go for a new one of `incoming`.
pub open spec fn may_go(entries: Entries, pubkey: Pubkey, incoming: ConsumerId) -> bool {
    &&& entries.dom().contains(pubkey)
    &&& priority_of(entries, pubkey).level() >= incoming.priority().level()
    &&& priority_of(entries, pubkey) != PinPriority::Wallet
}

/// An address that may go and is among the least protected of those.
pub open spec fn goes_first(entries: Entries, pubkey: Pubkey, incoming: ConsumerId) -> bool {
    &&& may_go(entries, pubkey, incoming)
    &&& forall|other: Pubkey| #[trigger]
        may_go(entries, other, incoming) ==> priority_of(entries, other).level() <= priority_of(
            entries,
            pubkey,
        ).level()
}

/// The entries with `consumer` added to `pubkey`; a pool once known stays.
pub open spec fn with_consumer(
    entries: Entries,
    pubkey: Pubkey,
    consumer: ConsumerId,
    pool: Option<Pubkey>,
) -> Entries {
    if entries.dom().contains(pubkey) {
        entries.insert(
            pubkey,
            EntryView {
                consumers: entries[pubkey].consumers.insert(consumer),
                pool: if entries[pubkey].pool is Some {
                    entries[pubkey].pool
                } else {
                    pool
                },
            },
        )
    } else {
        entries.insert(pubkey, EntryView { consumers: set![consumer], pool })
    }
}

/// What inserting does.
pub open spec fn insert_outcome(
    before: Entries,
    cap: usize,
    pubkey: Pubkey,
    consumer: ConsumerId,
    pool: Option<Pubkey>,
    result: bool,
    after: Entries,
) -> bool {
    if before.dom().contains(pubkey) {
        !result && after =~= with_consumer(before, pubkey, consumer, pool)
    } else if before.dom().len() < cap {
        result && after =~= with_consumer(before, pubkey, consumer, pool)
    } else if exists|victim: Pubkey| may_go(before, victim, consumer) {
        result && exists|victim: Pubkey| #[trigger]
            goes_first(before, victim, consumer) && after =~= with_consumer(
                before.remove(victim),
                pubkey,
                consumer,
                pool,
            )
    } else {
        !result && after == before
    }
}

/// What a new cap leaves: nothing goes below the cap, and what goes is nowhere better protected
/// than what stays.
pub open spec fn capped(before: Entries, cap: nat, after: Entries) -> bool {
    &&& after.dom().subset_of(before.dom())
    &&& forall|pk: Pubkey| #[trigger] after.dom().contains(pk) ==> after[pk] == before[pk]
    &&& after.dom().len() == if before.dom().len() <= cap {
        before.dom().len()
    } else {
        cap
    }
    &&& forall|gone: Pubkey, kept: Pubkey|
        before.dom().contains(gone) && !after.dom().contains(gone) && after.dom().contains(kept)
            ==> #[trigger] priority_of(before, kept).level() <= #[trigger] priority_of(
            before,
            gone,
        ).level()
}

impl View for DesiredExplicitSet {
    type V = Entries;

    closed spec fn view(&self) -> Entries {
        Map::new(
            |pk: Pubkey| self.entries@.dom().contains(pk),
            |pk: Pubkey| self.entries@[pk].as_view(),
        )
    }
}

impl Default for DesiredExplicitSet {
    fn default() -> (r: Self)
        ensures
            r.wf(),
            r@ =~= Map::<Pubkey, EntryView>::empty(),
            r.limit() == 25_000,
    {
        Self::new(25_000)
    }
}

impl DesiredExplicitSet {
    /// The entries are in order, and no more than the cap allows.
    pub closed spec fn wf(&self) -> bool {
        &&& self.entries_ok()
        &&& self@.dom().len() <= self.limit()
    }

    spec fn entries_ok(&self) -> bool {
        &&& self.entries.wf()
        &&& self.max_explicit_pubkeys >= 1
        &&& forall|pk: Pubkey| #[trigger]
            self.entries@.dom().contains(pk) ==> self.entries@[pk].wf()
    }

    pub closed spec fn limit(&self) -> usize {
        self.max_explicit_pubkeys
    }

    /// In every state there are at most as many addresses as the cap allows, which is at least
    /// one.
    pub proof fn stays_within_cap(&self)
        requires
            self.wf(),
        ensures
            self@.dom().finite(),
            self@.dom().len() <= self.limit(),
            self.limit() >= 1,
    {
        self.lemma_dom();
    }

    proof fn lemma_dom(&self)
        requires
            self.entries_ok(),
        ensures
            self@.dom() =~= self.entries@.dom(),
            self@.dom().finite(),
            self@.dom().len() == self.entries.keys@.len(),
            self.entries.keys@.to_set() =~= self@.dom(),
    {
        self.entries.lemma_view();
        assert(self@.dom() =~= self.entries@.dom());
    }

    pub fn new(max_explicit_pubkeys: usize) -> (r: Self)
        ensures
            r.wf(),
            r@ =~= Map::<Pubkey, EntryView>::empty(),
            r.limit() == if max_explicit_pubkeys < 1 {
                1
            } else {
                max_explicit_pubkeys
            },
    {
        let set = DesiredExplicitSet {
            entries: OrderedMap::new(),
            max_explicit_pubkeys: if max_explicit_pubkeys < 1 {
                1
            } else {
                max_explicit_pubkeys
            },
        };
        assert(set@.dom() =~= Set::empty());
        set
    }

    pub fn max_explicit_pubkeys(&self) -> (r: usize)
        ensures
            r == self.limit(),
    {
        self.max_explicit_pubkeys
    }

    pub fn len(&self) -> (n: usize)
        requires
            self.wf(),
        ensures
            n == self@.dom().len(),
    {
        proof {
            self.lemma_dom();
        }
        self.entries.len()
    }

    pub fn is_empty(&self) -> (r: bool)
        requires
            self.wf(),
        ensures
            r == (self@.dom().len() == 0),
    {
        self.len() == 0
    }

    pub fn contains(&self, pubkey: &Pubkey) -> (r: bool)
        requires
            self.wf(),
        ensures
            r == self@.dom().contains(*pubkey),
    {
        self.entries.contains_key(pubkey)
    }

    /// The consumers of an address, in order.
    pub fn consumers_of(&self, pubkey: &Pubkey) -> (r: Option<&[ConsumerId]>)
        requires
            self.wf(),
        ensures
            match r {
                Some(list) => self@.dom().contains(*pubkey) && ordered::lists(
                    list@,
                    self@[*pubkey].consumers,
                ),
                None => !self@.dom().contains(*pubkey),
            },
    {
        match self.entries.get(pubkey) {
            Some(entry) => Some(entry.consumers.as_slice()),
            None => None,
        }
    }

    /// The addresses, in order.
    pub fn snapshot_pubkeys(&self) -> (r: Vec<Pubkey>)
        requires
            self.wf(),
        ensures
            ordered::lists(r@, self@.dom()),
    {
        proof {
            self.lemma_dom();
        }
        ordered::copy_keys(self.entries.keys.as_slice())
    }

    pub fn clear(&mut self)
        requires
            old(self).wf(),
        ensures
            final(self).wf(),
            final(self)@ =~= Map::<Pubkey, EntryView>::empty(),
            final(self).limit() == old(self).limit(),
    {
        self.entries.clear();
        assert(self@.dom() =~= Set::empty());
    }

    /// Adds a consumer to an address; says whether the address is new.
    pub fn insert(&mut self, pubkey: Pubkey, consumer: ConsumerId, pool: Option<Pubkey>) -> (r: bool)
        requires
            old(self).wf(),
        ensures
            final(self).wf(),
            final(self).limit() == old(self).limit(),
            insert_outcome(
                old(self)@,
                old(self).limit(),
                pubkey,
                consumer,
                pool,
                r,
                final(self)@,
            ),
    {
        let was_new: bool = !self.entries.contains_key(&pubkey);
        let ghost before = self@;
        proof {
            self.stays_within_cap();
        }
        if was_new && self.len() >= self.max_explicit_pubkeys {
            match self.victim_for_insert(consumer) {
                None => {
                    return false;
                },
                Some(victim) => {
                    let _ = self.entries.remove(&victim);
                    proof {
                        assert(goes_first(before, victim, consumer));
                        assert(self@ =~= before.remove(victim));
                    }
                },
            }
        }
        let ghost mid = self@;
        match self.entries.remove(&pubkey) {
            Some(entry) => {
                let mut consumers = entry.consumers;
                let ghost had = consumers@.to_set();
                let _ = ordered::add_key(&mut consumers, consumer);
                proof {
                    assert(consumers@.to_set().contains(consumer));
                }
                let kept: Option<Pubkey> = match entry.pool {
                    Some(known) => Some(known),
                    None => pool,
                };
                let updated = ExplicitEntry::recompute_pin_priority(consumers, kept);
                proof {
                    assert(updated.as_view().consumers =~= had.insert(consumer));
                }
                let _ = self.entries.insert(pubkey, updated);
            },
            None => {
                let mut consumers: Vec<ConsumerId> = Vec::new();
                consumers.push(consumer);
                let updated = ExplicitEntry::recompute_pin_priority(consumers, pool);
                proof {
                    assert(updated.as_view().consumers =~= set![consumer]) by {
                        assert(updated.consumers@.to_set() =~= set![consumer]) by {
                            assert(consumers@[0] == consumer);
                        }
                    }
                }
                let _ = self.entries.insert(pubkey, updated);
            },
        }
        proof {
            assert(self@ =~= with_consumer(mid, pubkey, consumer, pool));
            insert_keeps_cap(before, self.limit(), pubkey, consumer, pool, was_new, self@);
        }
        was_new
    }

    /// Takes a consumer off an address; says whether the address left with it.
    pub fn remove(&mut self, pubkey: Pubkey, consumer: ConsumerId) -> (r: bool)
        requires
            old(self).wf(),
        ensures
            final(self).wf(),
            final(self).limit() == old(self).limit(),
            ({
                let before = old(self)@;
                let left = before[pubkey].consumers.remove(consumer);
                if !before.dom().contains(pubkey) {
                    !r && final(self)@ == before
                } else if left =~= Set::empty() {
                    r && final(self)@ =~= before.remove(pubkey)
                } else {
                    !r && final(self)@ =~= before.insert(
                        pubkey,
                        EntryView { consumers: left, pool: before[pubkey].pool },
                    )
                }
            }),
    {
        let ghost before = self@;
        proof {
            self.stays_within_cap();
        }
        match self.entries.remove(&pubkey) {
            None => false,
            Some(entry) => {
                let mut consumers = entry.consumers;
                let ghost had = consumers@.to_set();
                let _ = ordered::drop_key(&mut consumers, &consumer);
                if consumers.len() == 0 {
                    proof {
                        assert(had.remove(consumer) =~= Set::empty()) by {
                            assert(consumers@.to_set() =~= Set::empty());
                        }
                        assert(self@ =~= before.remove(pubkey));
                        assert(self@.dom() =~= before.dom().remove(pubkey));
                    }
                    return true;
                }
                proof {
                    assert(consumers@.to_set().contains(consumers@[0]));
                }
                let updated = ExplicitEntry::recompute_pin_priority(consumers, entry.pool);
                proof {
                    assert(updated.as_view().consumers =~= had.remove(consumer));
                }
                let _ = self.entries.insert(pubkey, updated);
                assert(self@.dom() =~= before.dom());
                false
            },
        }
    }

    /// Sets the cap and drops the least protected addresses over it.
    pub fn set_max_explicit_pubkeys(&mut self, cap: usize)
        requires
            old(self).wf(),
        ensures
            final(self).wf(),
            final(self).limit() == if cap < 1 {
                1
            } else {
                cap
            },
            capped(old(self)@, final(self).limit() as nat, final(self)@),
    {
        self.max_explicit_pubkeys = if cap < 1 {
            1
        } else {
            cap
        };
        let ghost before = self@;
        let ghost limit = self.max_explicit_pubkeys as nat;
        proof {
            self.lemma_dom();
        }
        while self.entries.len() > self.max_explicit_pubkeys
            invariant
                self.entries_ok(),
                before == old(self)@,
                before.dom().finite(),
                self.max_explicit_pubkeys == limit,
                self@.dom().subset_of(before.dom()),
                self@.dom().len() <= before.dom().len(),
                self@.dom().len() >= limit || self@.dom() =~= before.dom(),
                forall|pk: Pubkey| #[trigger]
                    self@.dom().contains(pk) ==> self@[pk] == before[pk],
                forall|gone: Pubkey, kept: Pubkey|
                    before.dom().contains(gone) && !self@.dom().contains(gone)
                        && self@.dom().contains(kept) ==> #[trigger] priority_of(
                        before,
                        kept,
                    ).level() <= #[trigger] priority_of(before, gone).level(),
            decreases self@.dom().len(),
        {
            proof {
                self.lemma_dom();
            }
            let victim: Pubkey = self.least_protected();
            let ghost now = self@;
            let _ = self.entries.remove(&victim);
            proof {
                assert(self@ =~= now.remove(victim));
                assert(self@.dom() =~= now.dom().remove(victim));
                assert forall|gone: Pubkey, kept: Pubkey|
                    before.dom().contains(gone) && !self@.dom().contains(gone)
                        && self@.dom().contains(kept) implies #[trigger] priority_of(
                    before,
                    kept,
                ).level() <= #[trigger] priority_of(before, gone).level() by {
                    assert(now.dom().contains(kept));
                    if gone == victim {
                        assert(priority_of(now, kept).level() <= priority_of(now, victim).level());
                    }
                }
            }
        }
        proof {
            self.lemma_dom();
            if self@.dom().len() < limit {
                assert(self@.dom() =~= before.dom());
            }
        }
    }

    /// An address of the least protected priority present.
    fn least_protected(&self) -> (r: Pubkey)
        requires
            self.entries_ok(),
            self@.dom().len() > 0,
        ensures
            self@.dom().contains(r),
            forall|pk: Pubkey| #[trigger]
                self@.dom().contains(pk) ==> priority_of(self@, pk).level() <= priority_of(
                    self@,
                    r,
                ).level(),
    {
        proof {
            self.lemma_dom();
            self.entries.lemma_view();
        }
        let mut best: usize = 0;
        let mut i: usize = 1;
        while i < self.entries.keys.len()
            invariant
                self.entries_ok(),
                0 <= best < i <= self.entries.keys@.len(),
                forall|j: int|
                    0 <= j < i ==> (#[trigger] self.entries.values@[j]).pin_priority.level()
                        <= self.entries.values@[best as int].pin_priority.level(),
            decreases self.entries.keys@.len() - i,
        {
            if self.entries.values[i].pin_priority.ordinal()
                > self.entries.values[best].pin_priority.ordinal() {
                best = i;
            }
            i = i + 1;
        }
        proof {
            self.entries.lemma_view();
            assert(self@.dom().contains(self.entries.keys@[best as int]));
            assert forall|pk: Pubkey| #[trigger] self@.dom().contains(pk) implies priority_of(
                self@,
                pk,
            ).level() <= priority_of(self@, self.entries.keys@[best as int]).level() by {
                assert(self.entries.keys@.to_set().contains(pk));
                let j = choose|j: int|
                    0 <= j < self.entries.keys@.len() && self.entries.keys@[j] == pk;
                assert(self.entries@[self.entries.keys@[j]] == self.entries.values@[j]);
                assert(self.entries@.dom().contains(self.entries.keys@[best as int]));
            }
        }
        self.entries.keys[best]
    }

    /// The least protected address that may go for a new one.
    fn victim_for_insert(&self, incoming: ConsumerId) -> (r: Option<Pubkey>)
        requires
            self.wf(),
        ensures
            match r {
                Some(victim) => goes_first(self@, victim, incoming),
                None => forall|pk: Pubkey| !may_go(self@, pk, incoming),
            },
    {
        let wanted: u8 = pin_priority_from_consumer(incoming).ordinal();
        let mut best: Option<usize> = None;
        let mut i: usize = 0;
        while i < self.entries.keys.len()
            invariant
                self.wf(),
                wanted == incoming.priority().level(),
                0 <= i <= self.entries.keys@.len(),
                match best {
                    Some(b) => {
                        &&& b < i
                        &&& may_go(self@, self.entries.keys@[b as int], incoming)
                        &&& forall|j: int|
                            0 <= j < i && may_go(
                                self@,
                                #[trigger] self.entries.keys@[j],
                                incoming,
                            ) ==> priority_of(self@, self.entries.keys@[j]).level()
                                <= priority_of(self@, self.entries.keys@[b as int]).level()
                    },
                    None => forall|j: int|
                        0 <= j < i ==> !may_go(self@, #[trigger] self.entries.keys@[j], incoming),
                },
            decreases self.entries.keys@.len() - i,
        {
            proof {
                self.lemma_dom();
                self.entries.lemma_view();
                assert(self@.dom().contains(self.entries.keys@[i as int]));
                assert(self.entries@.dom().contains(self.entries.keys@[i as int]));
            }
            let level: u8 = self.entries.values[i].pin_priority.ordinal();
            if level >= wanted && level != 0 {
                let better: bool = match best {
                    None => true,
                    Some(b) => {
                        proof {
                            assert(self.entries@.dom().contains(self.entries.keys@[b as int]));
                        }
                        level > self.entries.values[b].pin_priority.ordinal()
                    },
                };
                if better {
                    best = Some(i);
                }
            }
            i = i + 1;
        }
        proof {
            self.lemma_dom();
            assert forall|pk: Pubkey| #[trigger] may_go(self@, pk, incoming) implies exists|j: int|
                0 <= j < self.entries.keys@.len() && #[trigger] self.entries.keys@[j] == pk by {
                assert(self.entries.keys@.to_set().contains(pk));
            }
        }
        match best {
            Some(b) => Some(self.entries.keys[b]),
            None => None,
        }
    }
}

/// The keys in exactly one of the two lists, in order.
pub fn symmetric_diff(a: &[Pubkey], b: &[Pubkey]) -> (r: Vec<Pubkey>)
    ensures
        ordered::lists(
            r@,
            a@.to_set().difference(b@.to_set()).union(b@.to_set().difference(a@.to_set())),
        ),
{
    let left = ordered::normalize(a);
    let right = ordered::normalize(b);
    let mut out: Vec<Pubkey> = Vec::new();
    let mut i: usize = 0;
    while i < left.len()
        invariant
            ordered::sorted(right@),
            0 <= i <= left@.len(),
            ordered::lists(out@, left@.take(i as int).to_set().difference(right@.to_set())),
        decreases left@.len() - i,
    {
        proof {
            ordered::lemma_take_step(left@, i as int);
        }
        if !ordered::has(right.as_slice(), &left[i]) {
            let _ = ordered::add_key(&mut out, left[i]);
        }
        i = i + 1;
    }
    proof {
        assert(left@.take(i as int) =~= left@);
    }
    let mut k: usize = 0;
    while k < right.len()
        invariant
            ordered::sorted(left@),
            0 <= k <= right@.len(),
            ordered::lists(
                out@,
                left@.to_set().difference(right@.to_set()).union(
                    right@.take(k as int).to_set().difference(left@.to_set()),
                ),
            ),
        decreases right@.len() - k,
    {
        proof {
            ordered::lemma_take_step(right@, k as int);
        }
        if !ordered::has(left.as_slice(), &right[k]) {
            let _ = ordered::add_key(&mut out, right[k]);
        }
        k = k + 1;
    }
    proof {
        assert(right@.take(k as int) =~= right@);
    }
    out
}

/// An address that the wallet wants never makes room for another one.
pub proof fn insert_spares_wallet(
    before: Entries,
    cap: usize,
    pubkey: Pubkey,
    consumer: ConsumerId,
    pool: Option<Pubkey>,
    result: bool,
    after: Entries,
    other: Pubkey,
)
    requires
        insert_outcome(before, cap, pubkey, consumer, pool, result, after),
        before.dom().contains(other),
        before[other].consumers.contains(ConsumerId::Wallet),
    ensures
        after.dom().contains(other),
        after[other].consumers.contains(ConsumerId::Wallet),
{
}

/// An address that is better protected than the newcomer never makes room for it.
pub proof fn insert_spares_the_better_protected(
    before: Entries,
    cap: usize,
    pubkey: Pubkey,
    consumer: ConsumerId,
    pool: Option<Pubkey>,
    result: bool,
    after: Entries,
    other: Pubkey,
)
    requires
        insert_outcome(before, cap, pubkey, consumer, pool, result, after),
        before.dom().contains(other),
        priority_of(before, other).level() < consumer.priority().level(),
    ensures
        after.dom().contains(other),
        other != pubkey ==> after[other] == before[other],
{
}

/// A set within its cap stays within it.
pub proof fn insert_keeps_cap(
    before: Entries,
    cap: usize,
    pubkey: Pubkey,
    consumer: ConsumerId,
    pool: Option<Pubkey>,
    result: bool,
    after: Entries,
)
    requires
        before.dom().finite(),
        before.dom().len() <= cap,
        insert_outcome(before, cap, pubkey, consumer, pool, result, after),
    ensures
        after.dom().len() <= cap,
{
    if before.dom().contains(pubkey) {
        assert(after.dom() =~= before.dom());
    } else if before.dom().len() < cap {
        assert(after.dom() =~= before.dom().insert(pubkey));
    } else if exists|victim: Pubkey| may_go(before, victim, consumer) {
        let victim = choose|victim: Pubkey| #[trigger]
            goes_first(before, victim, consumer) && after =~= with_consumer(
                before.remove(victim),
                pubkey,
                consumer,
                pool,
            );
        assert(after.dom() =~= before.dom().remove(victim).insert(pubkey));
    }
}

/// `a` is better protected than `b`: the wallet than all others, momentum than arbitrage and the
/// tracker, arbitrage than the tracker.
pub open spec fn outranks(a: ConsumerId, b: ConsumerId) -> bool {
    match a {
        ConsumerId::Wallet => !(b is Wallet),
        ConsumerId::Momentum => b is Arb || b is Tracker,
        ConsumerId::Arb => b is Tracker,
        ConsumerId::Tracker => false,
    }
}

proof fn lemma_best_consumer(consumers: Set<ConsumerId>) -> (best: ConsumerId)
    requires
        exists|c: ConsumerId| consumers.contains(c),
    ensures
        consumers.contains(best),
        best.priority() == best_priority(consumers),
        forall|c: ConsumerId| #[trigger] consumers.contains(c) ==> !outranks(c, best),
        forall|a: ConsumerId, b: ConsumerId|
            #![trigger outranks(a, b)]
            outranks(a, b) <==> a.priority().level() < b.priority().level(),
{
    if consumers.contains(ConsumerId::Wallet) {
        ConsumerId::Wallet
    } else if consumers.contains(ConsumerId::Momentum) {
        ConsumerId::Momentum
    } else if consumers.contains(ConsumerId::Arb) {
        ConsumerId::Arb
    } else {
        ConsumerId::Tracker
    }
}

/// The priority of an address is that of one of its consumers, and none of them is better
/// protected.
pub proof fn priority_is_that_of_the_best_consumer(consumers: Set<ConsumerId>)
    requires
        exists|c: ConsumerId| consumers.contains(c),
    ensures
        exists|best: ConsumerId| #[trigger]
            consumers.contains(best) && best.priority() == best_priority(consumers) && forall|
                c: ConsumerId,
            | #[trigger]
                consumers.contains(c) ==> !outranks(c, best),
        forall|c: ConsumerId| #[trigger] c.priority() is Wallet <==> c is Wallet,
        forall|c: ConsumerId| #[trigger] c.priority() is Momentum <==> c is Momentum,
        forall|c: ConsumerId| #[trigger] c.priority() is Arb <==> c is Arb,
        forall|c: ConsumerId| #[trigger] c.priority() is Tracker <==> c is Tracker,
{
    let best = lemma_best_consumer(consumers);
    assert(consumers.contains(best));
}

/// What inserting does to the address itself: a known address gains the consumer and keeps the
/// pool that it has; a new one comes in with just this consumer and pool, and only then does
/// inserting say so. A new address is refused only by a full set whose every address is wanted by
/// the wallet or by a consumer that is better protected.
pub proof fn insertion_adds_the_consumer(
    before: Entries,
    cap: usize,
    pubkey: Pubkey,
    consumer: ConsumerId,
    pool: Option<Pubkey>,
    result: bool,
    after: Entries,
)
    requires
        insert_outcome(before, cap, pubkey, consumer, pool, result, after),
        forall|pk: Pubkey| #[trigger]
            before.dom().contains(pk) ==> exists|c: ConsumerId| before[pk].consumers.contains(c),
    ensures
        result <==> !before.dom().contains(pubkey) && after.dom().contains(pubkey),
        before.dom().contains(pubkey) ==> {
            &&& after.dom().contains(pubkey)
            &&& forall|c: ConsumerId| #[trigger]
                after[pubkey].consumers.contains(c) <==> before[pubkey].consumers.contains(c) || c
                    == consumer
            &&& before[pubkey].pool is Some ==> after[pubkey].pool == before[pubkey].pool
            &&& before[pubkey].pool is None ==> after[pubkey].pool == pool
        },
        result ==> after[pubkey].pool == pool && forall|c: ConsumerId| #[trigger]
            after[pubkey].consumers.contains(c) <==> c == consumer,
        !after.dom().contains(pubkey) ==> {
            &&& after == before
            &&& before.dom().len() >= cap
            &&& forall|pk: Pubkey| #[trigger]
                before.dom().contains(pk) ==> before[pk].consumers.contains(ConsumerId::Wallet)
                    || exists|c: ConsumerId|
                    before[pk].consumers.contains(c) && outranks(c, consumer)
        },
{
    if !after.dom().contains(pubkey) {
        assert forall|pk: Pubkey| #[trigger] before.dom().contains(pk) implies before[
            pk
        ].consumers.contains(ConsumerId::Wallet) || exists|c: ConsumerId|
            before[pk].consumers.contains(c) && outranks(c, consumer) by {
            let best = lemma_best_consumer(before[pk].consumers);
            assert(!may_go(before, pk, consumer));
            assert(before[pk].consumers.contains(best));
            assert(outranks(best, consumer) || best is Wallet);
        }
    }
}

/// What inserting does to the other addresses: at most one of them goes, and only for a new
/// address where the set is full; it is none of the wallet's, none of its consumers is better
/// protected than the newcomer, and none that stays is less protected than it was.
pub proof fn insertion_lets_the_least_protected_go(
    before: Entries,
    cap: usize,
    pubkey: Pubkey,
    consumer: ConsumerId,
    pool: Option<Pubkey>,
    result: bool,
    after: Entries,
    gone: Pubkey,
)
    requires
        insert_outcome(before, cap, pubkey, consumer, pool, result, after),
        forall|pk: Pubkey| #[trigger]
            before.dom().contains(pk) ==> exists|c: ConsumerId| before[pk].consumers.contains(c),
    ensures
        forall|pk: Pubkey|
            pk != pubkey && #[trigger] after.dom().contains(pk) ==> before.dom().contains(pk)
                && after[pk] == before[pk],
        before.dom().contains(gone) && !after.dom().contains(gone) ==> {
            &&& result
            &&& before.dom().len() >= cap
            &&& forall|c: ConsumerId| #[trigger]
                before[gone].consumers.contains(c) ==> !(c is Wallet) && !outranks(c, consumer)
            &&& forall|pk: Pubkey| #[trigger]
                before.dom().contains(pk) && pk != gone ==> after.dom().contains(pk)
            &&& forall|pk: Pubkey| #[trigger]
                before.dom().contains(pk) && pk != gone ==> exists|best: ConsumerId| #[trigger]
                    before[pk].consumers.contains(best) && forall|c: ConsumerId| #[trigger]
                        before[gone].consumers.contains(c) ==> !outranks(c, best)
        },
{
    if before.dom().contains(gone) && !after.dom().contains(gone) {
        let first = lemma_best_consumer(before[gone].consumers);
        assert forall|pk: Pubkey| #[trigger] before.dom().contains(pk) && pk
            != gone implies exists|best: ConsumerId| #[trigger]
            before[pk].consumers.contains(best) && forall|c: ConsumerId| #[trigger]
                before[gone].consumers.contains(c) ==> !outranks(c, best) by {
            let best = lemma_best_consumer(before[pk].consumers);
            assert(goes_first(before, gone, consumer));
            assert(may_go(before, gone, consumer));
            assert(priority_of(before, pk).level() <= priority_of(before, gone).level()) by {
                if may_go(before, pk, consumer) {
                }
            }
            assert(before[pk].consumers.contains(best));
            assert forall|c: ConsumerId| #[trigger]
                before[gone].consumers.contains(c) implies !outranks(c, best) by {
                assert(!outranks(c, first));
            }
        }
        assert forall|c: ConsumerId| #[trigger] before[gone].consumers.contains(c) implies !(
        c is Wallet) && !outranks(c, consumer) by {
            assert(!outranks(c, first));
        }
    }
}

} // verus!
