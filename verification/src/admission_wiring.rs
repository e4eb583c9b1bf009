//! Bringing fixed-cap admission in line with the demanded owner groups.

use crate::desired_set::ConsumerId;
use crate::eviction_model::Groups;
use crate::explicit_admission;
use crate::explicit_admission::{
    AdmissionView, CapShrinkResult, EvictingAdmissionResult, FaultSwitches, FixedCapAdmission,
    FixedCapAdmissionResult, FixedCapReplaceResult,
};
use crate::explicit_ownership;
use crate::explicit_ownership::{
    ExplicitConsumer, ExplicitOwner, ExplicitOwnerKey, OwnerGroupSnapshot,
};
use crate::ordered;
use crate::ordered::{OrderedMap, Ranked};
use crate::owner_index;
use crate::pubkey::Pubkey;
use crate::row_order;
use crate::touch_stamps;
use vstd::prelude::*;

verus! {

/// Result of bringing admission in line with the demand.
#[derive(Debug, Clone, Copy, PartialEq, Eq, Structural)]
pub enum AdmissionConvergeResult {
    Converged,
    ProtectedOverflow,
    Unconverged,
}

/// Result of restoring owner groups.
#[derive(Debug, Clone, Copy, PartialEq, Eq, Structural)]
pub enum AdmissionRestoreResult {
    Restored,
    ProtectedOverflow,
    Unconverged,
}

/// The consumer of a demand row.
pub open spec fn explicit_consumer(consumer: ConsumerId) -> ExplicitConsumer {
    match consumer {
        ConsumerId::Wallet => ExplicitConsumer::Wallet,
        ConsumerId::Momentum => ExplicitConsumer::Momentum,
        ConsumerId::Arb => ExplicitConsumer::Arb,
        ConsumerId::Tracker => ExplicitConsumer::Tracker,
    }
}

pub fn consumer_id_to_explicit(consumer: ConsumerId) -> (r: ExplicitConsumer)
    ensures
        r == explicit_consumer(consumer),
{
    match consumer {
        ConsumerId::Wallet => ExplicitConsumer::Wallet,
        ConsumerId::Momentum => ExplicitConsumer::Momentum,
        ConsumerId::Arb => ExplicitConsumer::Arb,
        ConsumerId::Tracker => ExplicitConsumer::Tracker,
    }
}

/// The owner of a demand row: the wallet, else the pool, else the address itself as a mint.
pub open spec fn row_owner(row: (Pubkey, ConsumerId, Option<Pubkey>)) -> ExplicitOwner {
    ExplicitOwner {
        consumer: explicit_consumer(row.1),
        owner_key: if row.1 == ConsumerId::Wallet {
            ExplicitOwnerKey::Wallet
        } else {
            match row.2 {
                Some(pool) => ExplicitOwnerKey::Pool(pool),
                None => ExplicitOwnerKey::Mint(row.0),
            }
        },
    }
}

pub fn explicit_owner_from_row(consumer: ConsumerId, pool: Option<Pubkey>, pubkey: Pubkey) -> (r:
    ExplicitOwner)
    ensures
        r == row_owner((pubkey, consumer, pool)),
{
    let explicit = consumer_id_to_explicit(consumer);
    let owner_key = if explicit == ExplicitConsumer::Wallet {
        ExplicitOwnerKey::Wallet
    } else {
        match pool {
            Some(pool) => ExplicitOwnerKey::Pool(pool),
            None => ExplicitOwnerKey::Mint(pubkey),
        }
    };
    ExplicitOwner { consumer: explicit, owner_key }
}

/// A list of groups as owners and addresses.
pub type GroupList = Seq<(ExplicitOwner, Vec<Pubkey>)>;

/// The owners of a list of groups.
pub open spec fn list_owners(list: GroupList) -> Seq<ExplicitOwner> {
    list.map_values(|g: (ExplicitOwner, Vec<Pubkey>)| g.0)
}

/// The owners of a list of rows.
pub open spec fn rows_owners(rows: Seq<(Pubkey, ConsumerId, Option<Pubkey>)>) -> Set<ExplicitOwner> {
    rows.map_values(|r: (Pubkey, ConsumerId, Option<Pubkey>)| row_owner(r)).to_set()
}

/// The addresses of the rows of one owner.
pub open spec fn rows_keys(
    rows: Seq<(Pubkey, ConsumerId, Option<Pubkey>)>,
    owner: ExplicitOwner,
) -> Set<Pubkey> {
    Set::new(
        |pk: Pubkey|
            exists|i: int|
                0 <= i < rows.len() && #[trigger] row_owner(rows[i]) == owner && rows[i].0 == pk,
    )
}

/// Groups rows by owner: one group per owner, in owner order, each with its addresses in order.
pub fn rows_to_owner_groups(rows: &[(Pubkey, ConsumerId, Option<Pubkey>)]) -> (r: Vec<
    (ExplicitOwner, Vec<Pubkey>),
>)
    ensures
        ordered::lists(list_owners(r@), rows_owners(rows@)),
        forall|i: int|
            0 <= i < r@.len() ==> ordered::lists(
                (#[trigger] r@[i]).1@,
                rows_keys(rows@, r@[i].0),
            ),
{
    let mut groups: OrderedMap<ExplicitOwner, Vec<Pubkey>> = OrderedMap::new();
    let mut i: usize = 0;
    while i < rows.len()
        invariant
            0 <= i <= rows@.len(),
            groups.wf(),
            forall|o: ExplicitOwner| #[trigger]
                groups@.dom().contains(o) <==> rows_owners(rows@.take(i as int)).contains(o),
            forall|o: ExplicitOwner| #[trigger]
                groups@.dom().contains(o) ==> ordered::lists(
                    groups@[o]@,
                    rows_keys(rows@.take(i as int), o),
                ),
        decreases rows@.len() - i,
    {
        let (pubkey, consumer, pool) = rows[i];
        let owner = explicit_owner_from_row(consumer, pool, pubkey);
        let ghost before = groups@;
        let ghost done = rows@.take(i as int);
        let ghost next = rows@.take(i + 1);
        proof {
            assert(next =~= done.push(rows@[i as int]));
            lemma_rows_step(done, rows@[i as int]);
            if !before.dom().contains(owner) {
                assert(rows_keys(done, owner) =~= Set::empty()) by {
                    assert forall|pk: Pubkey| !rows_keys(done, owner).contains(pk) by {
                        if rows_keys(done, owner).contains(pk) {
                            let j = choose|j: int|
                                0 <= j < done.len() && #[trigger] row_owner(done[j]) == owner
                                    && done[j].0 == pk;
                            let names = done.map_values(
                                |r: (Pubkey, ConsumerId, Option<Pubkey>)| row_owner(r),
                            );
                            assert(names[j] == owner);
                            assert(rows_owners(done).contains(owner));
                        }
                    }
                }
            }
        }
        let mut keys: Vec<Pubkey> = match groups.remove(&owner) {
            Some(keys) => keys,
            None => Vec::new(),
        };
        proof {
            assert(keys@.to_set() =~= rows_keys(done, owner));
        }
        let _ = ordered::add_key(&mut keys, pubkey);
        let _ = groups.insert(owner, keys);
        proof {
            assert forall|o: ExplicitOwner| #[trigger] groups@.dom().contains(o) implies
                ordered::lists(groups@[o]@, rows_keys(next, o)) by {
                if o != owner {
                    assert(before.dom().contains(o));
                    assert(rows_keys(next, o) =~= rows_keys(done, o));
                }
            }
        }
        i = i + 1;
    }
    let mut out: Vec<(ExplicitOwner, Vec<Pubkey>)> = Vec::new();
    let mut k: usize = 0;
    proof {
        assert(rows@.take(i as int) =~= rows@);
        groups.lemma_view();
    }
    while k < groups.keys.len()
        invariant
            groups.wf(),
            0 <= k <= groups.keys@.len(),
            out@.len() == k,
            forall|j: int|
                0 <= j < k ==> (#[trigger] out@[j]).0 == groups.keys@[j] && out@[j].1@
                    == groups.values@[j]@,
        decreases groups.keys@.len() - k,
    {
        out.push((groups.keys[k], ordered::copy_keys(groups.values[k].as_slice())));
        k = k + 1;
    }
    proof {
        assert(list_owners(out@) =~= groups.keys@);
        assert(groups.keys@.to_set() =~= rows_owners(rows@));
        assert forall|j: int| 0 <= j < out@.len() implies ordered::lists(
            (#[trigger] out@[j]).1@,
            rows_keys(rows@, out@[j].0),
        ) by {
            assert(groups@.dom().contains(groups.keys@[j]));
        }
    }
    out
}

/// One more row adds its owner, and its address to that owner.
proof fn lemma_rows_step(
    done: Seq<(Pubkey, ConsumerId, Option<Pubkey>)>,
    row: (Pubkey, ConsumerId, Option<Pubkey>),
)
    ensures
        rows_owners(done.push(row)) =~= rows_owners(done).insert(row_owner(row)),
        forall|o: ExplicitOwner|
            #![trigger rows_keys(done.push(row), o)]
            rows_keys(done.push(row), o) =~= if o == row_owner(row) {
                rows_keys(done, o).insert(row.0)
            } else {
                rows_keys(done, o)
            },
{
    let next = done.push(row);
    let names = done.map_values(|r: (Pubkey, ConsumerId, Option<Pubkey>)| row_owner(r));
    let more = next.map_values(|r: (Pubkey, ConsumerId, Option<Pubkey>)| row_owner(r));
    assert(more =~= names.push(row_owner(row)));
    let n = names.len() as int;
    assert(more.take(n) =~= names);
    ordered::lemma_take_step(more, n);
    assert(more.take(n + 1) =~= more);
    assert forall|o: ExplicitOwner, pk: Pubkey|
        #![trigger rows_keys(next, o).contains(pk)]
        rows_keys(next, o).contains(pk) == (rows_keys(done, o).contains(pk) || (o == row_owner(row)
            && pk == row.0)) by {
        if rows_keys(next, o).contains(pk) {
            let j = choose|j: int|
                0 <= j < next.len() && #[trigger] row_owner(next[j]) == o && next[j].0 == pk;
            if j < done.len() {
                assert(row_owner(done[j]) == o);
            }
        }
        if rows_keys(done, o).contains(pk) {
            let j = choose|j: int|
                0 <= j < done.len() && #[trigger] row_owner(done[j]) == o && done[j].0 == pk;
            assert(row_owner(next[j]) == o);
        }
        if o == row_owner(row) && pk == row.0 {
            assert(row_owner(next[done.len() as int]) == o);
        }
    }
    assert forall|o: ExplicitOwner|
        #![trigger rows_keys(next, o)]
        rows_keys(next, o) =~= if o == row_owner(row) {
            rows_keys(done, o).insert(row.0)
        } else {
            rows_keys(done, o)
        } by {
        assert forall|pk: Pubkey| rows_keys(next, o).contains(pk) == (if o == row_owner(row) {
            rows_keys(done, o).insert(row.0)
        } else {
            rows_keys(done, o)
        }).contains(pk) by {}
    }
}

/// The tracker groups of admission that the list does not name, in owner order.
pub open spec fn kept_trackers(groups: Groups, named: Set<ExplicitOwner>) -> Set<ExplicitOwner> {
    groups.dom().filter(
        |o: ExplicitOwner| o.consumer == ExplicitConsumer::Tracker && !named.contains(o),
    )
}

/// Appends the tracker groups of admission that the demand does not name.
pub fn merge_admission_tracker_owner_groups(
    admission: &FixedCapAdmission,
    authoritative: &mut Vec<(ExplicitOwner, Vec<Pubkey>)>,
)
    requires
        admission.wf(),
    ensures
        ({
            let before = old(authoritative)@;
            let after = final(authoritative)@;
            let n = before.len() as int;
            &&& n <= after.len()
            &&& after.take(n) =~= before
            &&& ordered::lists(
                list_owners(after.skip(n)),
                kept_trackers(admission@.groups, list_owners(before).to_set()),
            )
            &&& forall|i: int|
                n <= i < after.len() ==> (#[trigger] after[i]).1@
                    == admission@.groups[after[i].0]
        }),
{
    let ghost before = authoritative@;
    let ghost n = before.len() as int;
    let ghost names = list_owners(before);
    let mut present: Vec<ExplicitOwner> = Vec::new();
    let mut i: usize = 0;
    while i < authoritative.len()
        invariant
            authoritative@ == before,
            names == list_owners(before),
            0 <= i <= before.len(),
            ordered::lists(present@, names.take(i as int).to_set()),
        decreases before.len() - i,
    {
        proof {
            ordered::lemma_take_step(names, i as int);
        }
        let _ = ordered::add_key(&mut present, authoritative[i].0);
        i = i + 1;
    }
    let groups = admission.snapshot_owner_groups();
    let ghost owners = groups@.map_values(|s: OwnerGroupSnapshot| s.owner());
    let ghost wanted = kept_trackers(admission@.groups, names.to_set());
    proof {
        assert(names.take(i as int) =~= names);
        assert(authoritative@.take(n) =~= before);
        assert(list_owners(authoritative@.skip(n)) =~= Seq::empty());
    }
    let mut k: usize = 0;
    while k < groups.len()
        invariant
            admission.wf(),
            explicit_ownership::snapshots_list(groups@, admission@.groups),
            owners == groups@.map_values(|s: OwnerGroupSnapshot| s.owner()),
            ordered::lists(present@, names.to_set()),
            wanted == kept_trackers(admission@.groups, names.to_set()),
            n == before.len(),
            0 <= k <= groups@.len(),
            n <= authoritative@.len(),
            authoritative@.take(n) =~= before,
            ordered::sorted(list_owners(authoritative@.skip(n))),
            list_owners(authoritative@.skip(n)).to_set() =~= owners.take(k as int).to_set().intersect(
                wanted,
            ),
            forall|j: int|
                n <= j < authoritative@.len() ==> (#[trigger] authoritative@[j]).1@
                    == admission@.groups[authoritative@[j].0],
            forall|a: int, b: int|
                n <= a < authoritative@.len() && k <= b < owners.len() ==> (
                #[trigger] authoritative@[a]).0.rank() < (#[trigger] owners[b]).rank(),
        decreases groups@.len() - k,
    {
        let group = &groups[k];
        let owner = ExplicitOwner { consumer: group.consumer, owner_key: group.owner_key };
        proof {
            ordered::lemma_take_step(owners, k as int);
            assert(owners[k as int] == owner);
            assert(owners.to_set().contains(owner));
            assert(names.to_set().contains(owner) == present@.to_set().contains(owner));
        }
        let ghost tail = authoritative@.skip(n);
        let ghost list = authoritative@;
        if group.consumer == ExplicitConsumer::Tracker && !ordered::has(
            present.as_slice(),
            &owner,
        ) {
            authoritative.push((owner, ordered::copy_keys(group.pubkeys.as_slice())));
            proof {
                let grown = authoritative@.skip(n);
                assert(grown =~= tail.push(authoritative@.last()));
                assert(list_owners(grown) =~= list_owners(tail).push(owner));
                let m = list_owners(tail).len() as int;
                assert(list_owners(grown).take(m) =~= list_owners(tail));
                ordered::lemma_take_step(list_owners(grown), m);
                assert(list_owners(grown).take(m + 1) =~= list_owners(grown));
                assert(wanted.contains(owner));
                assert(authoritative@.take(n) =~= before);
                assert forall|a: int, b: int| 0 <= a < b < list_owners(grown).len() implies (
                #[trigger] list_owners(grown)[a]).rank() < (
                #[trigger] list_owners(grown)[b]).rank() by {
                    if b == m {
                        assert(list[n + a].0 == list_owners(grown)[a]);
                        assert(list[n + a].0.rank() < owners[k as int].rank());
                    } else {
                        assert(list_owners(tail)[a].rank() < list_owners(tail)[b].rank());
                    }
                }
            }
        } else {
            proof {
                assert(!wanted.contains(owner));
            }
        }
        proof {
            assert forall|a: int, b: int|
                n <= a < authoritative@.len() && k + 1 <= b < owners.len() implies (
            #[trigger] authoritative@[a]).0.rank() < (#[trigger] owners[b]).rank() by {
                if a < list.len() {
                    assert(authoritative@[a] == list[a]);
                    assert(list[a].0.rank() < owners[b].rank());
                } else {
                    assert(owners[k as int].rank() < owners[b].rank());
                }
            }
        }
        k = k + 1;
    }
    proof {
        assert(owners.take(k as int) =~= owners);
        assert(owners.to_set().intersect(wanted) =~= wanted);
    }
}

/// The stamps that an eviction leaves, with `owner` touched.
pub open spec fn restamped(view: AdmissionView, gone: Set<ExplicitOwner>, owner: ExplicitOwner) -> Option<
    (crate::eviction_model::Stamps, u64),
> {
    touch_stamps::stamp_assigned(view.stamps.remove_keys(gone), view.next, owner)
}

/// Inserting with eviction: whether the group got in, and the state after it.
pub open spec fn evict_step(view: AdmissionView, owner: ExplicitOwner, keys: Seq<Pubkey>) -> (
    bool,
    AdmissionView,
) {
    let listing = ordered::in_order(keys.to_set());
    if keys.len() == 0 || view.groups.dom().contains(owner) {
        (false, view)
    } else if view.len() + view.fresh(keys).len() <= view.cap {
        if restamped(view, Set::empty(), owner) is Some {
            (true, view.committed(owner, listing))
        } else {
            (false, view)
        }
    } else if !(view.stamps.dom() =~= view.groups.dom()) || view.len() + view.fresh(keys).len()
        > usize::MAX {
        (false, view)
    } else {
        match explicit_admission::room_tier(view, owner, keys) {
            None => (false, view),
            Some(tier) => {
                let gone = explicit_admission::chosen_victims(
                    view,
                    explicit_admission::lru_entries(view.stamps),
                    tier,
                    keys,
                ).to_set();
                if restamped(view, gone, owner) is None || !explicit_admission::stamps_usable(
                    view,
                    gone,
                ) {
                    (false, view)
                } else {
                    (
                        true,
                        AdmissionView {
                            cap: view.cap,
                            groups: view.groups.remove_keys(gone).insert(owner, listing),
                            stamps: (restamped(view, gone, owner)->0).0,
                            next: (restamped(view, gone, owner)->0).1,
                        },
                    )
                }
            },
        }
    }
}

proof fn lemma_evict_step(
    view: AdmissionView,
    faults: FaultSwitches,
    owner: ExplicitOwner,
    keys: Seq<Pubkey>,
    result: EvictingAdmissionResult,
    after: AdmissionView,
)
    requires
        view.stamps.dom().finite(),
        faults.all_off(),
        explicit_admission::evict_outcome(view, faults, owner, keys, result, after),
    ensures
        evict_step(view, owner, keys) == (
            (result is InsertedNoEviction || result is InsertedWithEviction),
            after,
        ),
{
    let entries = explicit_admission::planning_entries(view, faults);
    assert(entries =~= explicit_admission::lru_entries(view.stamps));
    explicit_admission::lemma_own_entries_complete(view.stamps, view.groups.dom());
    assert(view.stamps.remove_keys(Set::empty()) =~= view.stamps);
}

/// The state after an existing group is touched.
pub open spec fn touch_step(view: AdmissionView, owner: ExplicitOwner) -> AdmissionView {
    if !view.groups.dom().contains(owner) {
        view
    } else if !view.stamps.dom().contains(owner) {
        view.failed_closed(owner)
    } else if touch_stamps::stamp_assigned(view.stamps, view.next, owner) is None {
        view
    } else {
        view.committed(owner, view.groups[owner])
    }
}

/// The state after a group is removed.
pub open spec fn remove_step(view: AdmissionView, owner: ExplicitOwner) -> AdmissionView {
    if !view.groups.dom().contains(owner) {
        view
    } else if !view.stamps.dom().contains(owner) {
        view.failed_closed(owner)
    } else {
        view.without(owner)
    }
}

/// Meeting the demand of one owner: whether it is met, and the state after it.
///
/// An equal group is only touched. A group that no longer fits as a replacement is removed and
/// admitted again with eviction.
pub open spec fn admit_step(view: AdmissionView, owner: ExplicitOwner, keys: Seq<Pubkey>) -> (
    bool,
    AdmissionView,
) {
    let listing = ordered::in_order(keys.to_set());
    if keys.len() == 0 {
        (true, view)
    } else if view.groups.dom().contains(owner) {
        if view.groups[owner] == listing {
            (true, touch_step(view, owner))
        } else if !view.stamps.dom().contains(owner) {
            (false, view.failed_closed(owner))
        } else if view.len() + view.fresh(keys).len() > view.cap + view.released(
            owner,
            keys,
        ).len() {
            evict_step(remove_step(view, owner), owner, keys)
        } else if touch_stamps::stamp_assigned(view.stamps, view.next, owner) is None {
            (false, view)
        } else {
            (true, view.committed(owner, listing))
        }
    } else {
        evict_step(view, owner, keys)
    }
}

/// Meets the demand of one owner.
pub fn admit_or_replace(
    admission: &mut FixedCapAdmission,
    owner: ExplicitOwner,
    pubkeys: Vec<Pubkey>,
) -> (r: bool)
    requires
        old(admission).wf(),
        old(admission).switches().all_off(),
    ensures
        final(admission).wf(),
        final(admission).switches() == old(admission).switches(),
        (r, final(admission)@) == admit_step(old(admission)@, owner, pubkeys@),
{
    if pubkeys.len() == 0 {
        return true;
    }
    let ghost before = admission@;
    proof {
        admission.len_within_cap();
    }
    let listing = ordered::normalize(pubkeys.as_slice());
    proof {
        ordered::lemma_in_order(listing@, pubkeys@.to_set());
    }
    let present: Option<bool> = match admission.owner_group(&owner) {
        Some(current) => Some(ordered::same_keys(current, listing.as_slice())),
        None => None,
    };
    match present {
        Some(equal) => {
            if equal {
                let _ = admission.touch_group(owner);
                return true;
            }
            match admission.try_replace_group(owner, ordered::copy_keys(pubkeys.as_slice())) {
                FixedCapReplaceResult::Replaced { .. } | FixedCapReplaceResult::Unchanged => true,
                FixedCapReplaceResult::RejectedCap { .. } => {
                    let _ = admission.remove_group(owner);
                    evict_in(admission, owner, pubkeys)
                },
                FixedCapReplaceResult::RejectedInvalidGroup
                | FixedCapReplaceResult::RejectedMissingOwner
                | FixedCapReplaceResult::PlanningInvariantViolation
                | FixedCapReplaceResult::InternalInvariantViolation { .. } => false,
            }
        },
        None => {
            proof {
                assert(before.stamps.remove_keys(Set::empty()) =~= before.stamps);
            }
            match admission.try_admit_new_group(owner, ordered::copy_keys(pubkeys.as_slice())) {
                FixedCapAdmissionResult::Inserted { .. }
                | FixedCapAdmissionResult::OwnerAddedNoNewPubkey => true,
                FixedCapAdmissionResult::RejectedCap { .. } => evict_in(
                    admission,
                    owner,
                    pubkeys,
                ),
                FixedCapAdmissionResult::RejectedInvalidGroup
                | FixedCapAdmissionResult::RejectedExistingOwner
                | FixedCapAdmissionResult::InternalInvariantViolation => false,
            }
        },
    }
}

/// Inserts with eviction; says whether the group got in.
fn evict_in(admission: &mut FixedCapAdmission, owner: ExplicitOwner, pubkeys: Vec<Pubkey>) -> (r:
    bool)
    requires
        old(admission).wf(),
        old(admission).switches().all_off(),
    ensures
        final(admission).wf(),
        final(admission).switches() == old(admission).switches(),
        (r, final(admission)@) == evict_step(old(admission)@, owner, pubkeys@),
{
    let ghost before = admission@;
    let ghost faults = admission.switches();
    let ghost keys = pubkeys@;
    proof {
        admission.len_within_cap();
    }
    let result = admission.try_admit_with_eviction(owner, pubkeys);
    proof {
        lemma_evict_step(before, faults, owner, keys, result, admission@);
    }
    match result {
        EvictingAdmissionResult::InsertedNoEviction { .. }
        | EvictingAdmissionResult::InsertedWithEviction { .. } => true,
        _ => false,
    }
}

/// The state after the first `i` of `owners` that are not in `keep` are removed.
pub open spec fn pruned(
    view: AdmissionView,
    owners: Seq<ExplicitOwner>,
    keep: Set<ExplicitOwner>,
    i: int,
) -> AdmissionView
    decreases i,
{
    if i <= 0 {
        view
    } else {
        let before = pruned(view, owners, keep, i - 1);
        if keep.contains(owners[i - 1]) {
            before
        } else {
            remove_step(before, owners[i - 1])
        }
    }
}

/// The state after the demand of the first `i` rows of `order` is met one by one; stops at the
/// first demand that cannot be met.
pub open spec fn admit_run(view: AdmissionView, list: GroupList, order: Seq<usize>, i: int) -> (
    bool,
    AdmissionView,
)
    decreases i,
{
    if i <= 0 {
        (true, view)
    } else {
        let (met, before) = admit_run(view, list, order, i - 1);
        if met {
            let row = list[order[i - 1] as int];
            admit_step(before, row.0, row.1@)
        } else {
            (false, before)
        }
    }
}

/// Groups without demand leave, then every demand is met in owner order.
pub open spec fn converged(view: AdmissionView, list: GroupList) -> (bool, AdmissionView) {
    let owners = ordered::in_order(view.groups.dom());
    let rest = pruned(view, owners, list_owners(list).to_set(), owners.len() as int);
    let order = row_order::stable_order(list_owners(list));
    admit_run(rest, list, order, order.len() as int)
}

/// Wallet addresses are tracked addresses.
proof fn lemma_wallet_within(groups: Groups)
    requires
        groups.dom().finite(),
    ensures
        explicit_admission::wallet_addresses(groups).len() <= owner_index::physical(groups).len(),
{
    let sub = groups.restrict(
        groups.dom().filter(|o: ExplicitOwner| o.consumer == ExplicitConsumer::Wallet),
    );
    owner_index::lemma_physical_finite(groups);
    assert forall|pk: Pubkey| owner_index::physical(sub).contains(pk) implies owner_index::physical(
        groups,
    ).contains(pk) by {
        let o = choose|o: ExplicitOwner| sub.dom().contains(o) && #[trigger] sub[o].contains(pk);
        assert(groups.dom().contains(o) && groups[o].contains(pk));
    }
    vstd::set_lib::lemma_len_subset(
        explicit_admission::wallet_addresses(groups),
        owner_index::physical(groups),
    );
}

/// Brings admission in line with the demand: the owners in it are exactly those demanded, as far
/// as the cap allows.
pub fn converge_admission_from_groups(
    admission: &mut FixedCapAdmission,
    authoritative: &[(ExplicitOwner, Vec<Pubkey>)],
) -> (r: AdmissionConvergeResult)
    requires
        old(admission).wf(),
        old(admission).switches().all_off(),
    ensures
        final(admission).wf(),
        final(admission).switches() == old(admission).switches(),
        ({
            let (met, after) = converged(old(admission)@, authoritative@);
            &&& final(admission)@ == after
            &&& r == if met {
                AdmissionConvergeResult::Converged
            } else {
                AdmissionConvergeResult::Unconverged
            }
        }),
{
    let cap: usize = admission.cap();
    proof {
        admission.len_within_cap();
        lemma_wallet_within(admission@.groups);
    }
    if admission.wallet_demand_exceeds_cap(cap) {
        return AdmissionConvergeResult::ProtectedOverflow;
    }
    let ghost before = admission@;
    let ghost names = list_owners(authoritative@);
    let mut owners: Vec<ExplicitOwner> = Vec::new();
    let mut demanded: Vec<ExplicitOwner> = Vec::new();
    let mut n: usize = 0;
    while n < authoritative.len()
        invariant
            names == list_owners(authoritative@),
            0 <= n <= authoritative@.len(),
            owners@ =~= names.take(n as int),
            ordered::lists(demanded@, names.take(n as int).to_set()),
        decreases authoritative@.len() - n,
    {
        proof {
            ordered::lemma_take_step(names, n as int);
        }
        owners.push(authoritative[n].0);
        let _ = ordered::add_key(&mut demanded, authoritative[n].0);
        n = n + 1;
    }
    proof {
        assert(names.take(n as int) =~= names);
    }
    let groups = admission.snapshot_owner_groups();
    let ghost present = groups@.map_values(|s: OwnerGroupSnapshot| s.owner());
    proof {
        ordered::lemma_in_order(present, before.groups.dom());
    }
    let mut k: usize = 0;
    while k < groups.len()
        invariant
            admission.wf(),
            admission.switches() == old(admission).switches(),
            admission.switches().all_off(),
            present == groups@.map_values(|s: OwnerGroupSnapshot| s.owner()),
            ordered::lists(demanded@, names.to_set()),
            0 <= k <= groups@.len(),
            admission@ == pruned(before, present, names.to_set(), k as int),
            admission@.cap == before.cap,
        decreases groups@.len() - k,
    {
        let owner = ExplicitOwner {
            consumer: groups[k].consumer,
            owner_key: groups[k].owner_key,
        };
        proof {
            assert(present[k as int] == owner);
            assert(names.to_set().contains(owner) == demanded@.to_set().contains(owner));
        }
        if !ordered::has(demanded.as_slice(), &owner) {
            let _ = admission.remove_group(owner);
        }
        k = k + 1;
    }
    let order = row_order::in_stable_order(owners.as_slice());
    let ghost rest = admission@;
    let mut i: usize = 0;
    while i < order.len()
        invariant
            admission.wf(),
            admission.switches() == old(admission).switches(),
            admission.switches().all_off(),
            cap == before.cap,
            before == old(admission)@,
            admission@.cap == before.cap,
            order@ == row_order::stable_order(list_owners(authoritative@)),
            forall|j: int| 0 <= j < order@.len() ==> #[trigger] order@[j] < authoritative@.len(),
            0 <= i <= order@.len(),
            converged(before, authoritative@) == admit_run(
                rest,
                authoritative@,
                order@,
                order@.len() as int,
            ),
            admit_run(rest, authoritative@, order@, i as int) == (true, admission@),
        decreases order@.len() - i,
    {
        let place: usize = order[i];
        let (owner, keys) = &authoritative[place];
        let ghost now = admission@;
        proof {
            lemma_step_cap(now, *owner, keys@);
        }
        if !admit_or_replace(admission, *owner, ordered::copy_keys(keys.as_slice())) {
            proof {
                lemma_run_stops(rest, authoritative@, order@, i as int + 1, order@.len() as int);
                admission.len_within_cap();
                lemma_wallet_within(admission@.groups);
            }
            if admission.wallet_demand_exceeds_cap(cap) {
                return AdmissionConvergeResult::ProtectedOverflow;
            }
            return AdmissionConvergeResult::Unconverged;
        }
        i = i + 1;
    }
    proof {
        admission.len_within_cap();
        lemma_wallet_within(admission@.groups);
    }
    if admission.len() > cap || admission.wallet_demand_exceeds_cap(cap) {
        if admission.wallet_demand_exceeds_cap(cap) {
            AdmissionConvergeResult::ProtectedOverflow
        } else {
            AdmissionConvergeResult::Unconverged
        }
    } else {
        AdmissionConvergeResult::Converged
    }
}

/// Once a demand is not met, the rest is not tried.
proof fn lemma_run_stops(view: AdmissionView, list: GroupList, order: Seq<usize>, i: int, n: int)
    requires
        0 <= i <= n,
        !admit_run(view, list, order, i).0,
    ensures
        admit_run(view, list, order, n) == admit_run(view, list, order, i),
    decreases n - i,
{
    if i < n {
        lemma_run_stops(view, list, order, i, n - 1);
    }
}

/// Meeting a demand keeps the cap.
proof fn lemma_step_cap(view: AdmissionView, owner: ExplicitOwner, keys: Seq<Pubkey>)
    ensures
        admit_step(view, owner, keys).1.cap == view.cap,
{
}

/// A list of snapshots as a list of groups.
pub open spec fn snapshot_list(groups: Seq<OwnerGroupSnapshot>) -> GroupList {
    groups.map_values(|s: OwnerGroupSnapshot| (s.owner(), s.pubkeys))
}

/// The places of the snapshots in owner order.
pub open spec fn snapshot_order(groups: Seq<OwnerGroupSnapshot>) -> Seq<usize> {
    row_order::stable_order(groups.map_values(|s: OwnerGroupSnapshot| s.owner()))
}

/// The addresses of the wallet groups of a snapshot.
pub open spec fn wallet_demand(groups: Seq<OwnerGroupSnapshot>) -> Set<Pubkey> {
    Set::new(
        |pk: Pubkey|
            exists|i: int|
                0 <= i < groups.len() && (#[trigger] groups[i]).consumer
                    == ExplicitConsumer::Wallet && groups[i].pubkeys@.contains(pk),
    )
}

/// The addresses of the wallet groups, in order.
fn wallet_demand_of(groups: &[OwnerGroupSnapshot]) -> (r: Vec<Pubkey>)
    ensures
        ordered::lists(r@, wallet_demand(groups@)),
{
    let mut keys: Vec<Pubkey> = Vec::new();
    let mut i: usize = 0;
    while i < groups.len()
        invariant
            0 <= i <= groups@.len(),
            ordered::lists(keys@, wallet_demand(groups@.take(i as int))),
        decreases groups@.len() - i,
    {
        let ghost before = keys@.to_set();
        if groups[i].consumer == ExplicitConsumer::Wallet {
            let list = &groups[i].pubkeys;
            let mut k: usize = 0;
            while k < list.len()
                invariant
                    0 <= k <= list@.len(),
                    ordered::sorted(keys@),
                    keys@.to_set() =~= before.union(list@.take(k as int).to_set()),
                decreases list@.len() - k,
            {
                proof {
                    ordered::lemma_take_step(list@, k as int);
                }
                let _ = ordered::add_key(&mut keys, list[k]);
                k = k + 1;
            }
            proof {
                assert(list@.take(k as int) =~= list@);
            }
        }
        proof {
            let done = groups@.take(i as int);
            let next = groups@.take(i + 1);
            assert forall|pk: Pubkey| keys@.to_set().contains(pk) == wallet_demand(next).contains(
                pk,
            ) by {
                if wallet_demand(done).contains(pk) {
                    let j = choose|j: int|
                        0 <= j < done.len() && (#[trigger] done[j]).consumer
                            == ExplicitConsumer::Wallet && done[j].pubkeys@.contains(pk);
                    assert(next[j].consumer == ExplicitConsumer::Wallet);
                }
                if groups@[i as int].consumer == ExplicitConsumer::Wallet
                    && groups@[i as int].pubkeys@.contains(pk) {
                    assert(next[i as int].consumer == ExplicitConsumer::Wallet);
                }
                if wallet_demand(next).contains(pk) {
                    let j = choose|j: int|
                        0 <= j < next.len() && (#[trigger] next[j]).consumer
                            == ExplicitConsumer::Wallet && next[j].pubkeys@.contains(pk);
                    if j < i {
                        assert(done[j].consumer == ExplicitConsumer::Wallet);
                    }
                }
            }
        }
        i = i + 1;
    }
    proof {
        assert(groups@.take(i as int) =~= groups@);
    }
    keys
}

/// Forgets all groups and admits those of the snapshot in owner order.
pub fn restore_admission_from_owner_groups(
    admission: &mut FixedCapAdmission,
    groups: &[OwnerGroupSnapshot],
) -> (r: AdmissionRestoreResult)
    requires
        old(admission).wf(),
        old(admission).switches().all_off(),
    ensures
        final(admission).wf(),
        final(admission).switches() == old(admission).switches(),
        ({
            let start = cleared(old(admission)@.cap);
            let order = snapshot_order(groups@);
            let (met, after) = admit_run(start, snapshot_list(groups@), order, order.len() as int);
            if wallet_demand(groups@).len() > old(admission)@.cap {
                r == AdmissionRestoreResult::ProtectedOverflow && final(admission)@ == start
            } else {
                &&& final(admission)@ == after
                &&& r == if met {
                    AdmissionRestoreResult::Restored
                } else {
                    AdmissionRestoreResult::Unconverged
                }
            }
        }),
{
    admission.clear_for_restore();
    let ghost cleared = admission@;
    let cap: usize = admission.cap();
    let wallet_pubkeys = wallet_demand_of(groups);
    proof {
        ordered::lemma_sorted_no_duplicates(wallet_pubkeys@);
    }
    if wallet_pubkeys.len() > cap {
        return AdmissionRestoreResult::ProtectedOverflow;
    }
    let ghost names = groups@.map_values(|s: OwnerGroupSnapshot| s.owner());
    let mut owners: Vec<ExplicitOwner> = Vec::new();
    let mut n: usize = 0;
    while n < groups.len()
        invariant
            names == groups@.map_values(|s: OwnerGroupSnapshot| s.owner()),
            0 <= n <= groups@.len(),
            owners@ =~= names.take(n as int),
        decreases groups@.len() - n,
    {
        owners.push(
            ExplicitOwner { consumer: groups[n].consumer, owner_key: groups[n].owner_key },
        );
        n = n + 1;
    }
    proof {
        assert(names.take(n as int) =~= names);
    }
    let order = row_order::in_stable_order(owners.as_slice());
    let mut i: usize = 0;
    while i < order.len()
        invariant
            admission.wf(),
            admission.switches() == old(admission).switches(),
            admission.switches().all_off(),
            cap == cleared.cap,
            cleared.cap == old(admission)@.cap,
            cleared == (AdmissionView {
                cap: old(admission)@.cap,
                groups: Map::empty(),
                stamps: Map::empty(),
                next: 1,
            }),
            wallet_demand(groups@).len() <= cap,
            admission@.cap == cleared.cap,
            order@ == snapshot_order(groups@),
            forall|j: int| 0 <= j < order@.len() ==> #[trigger] order@[j] < groups@.len(),
            0 <= i <= order@.len(),
            admit_run(cleared, snapshot_list(groups@), order@, i as int) == (true, admission@),
        decreases order@.len() - i,
    {
        let place: usize = order[i];
        let group = &groups[place];
        let owner = ExplicitOwner { consumer: group.consumer, owner_key: group.owner_key };
        let ghost now = admission@;
        proof {
            lemma_step_cap(now, owner, group.pubkeys@);
        }
        if !admit_or_replace(admission, owner, ordered::copy_keys(group.pubkeys.as_slice())) {
            proof {
                lemma_run_stops(
                    cleared,
                    snapshot_list(groups@),
                    order@,
                    i as int + 1,
                    order@.len() as int,
                );
                admission.len_within_cap();
                lemma_wallet_within(admission@.groups);
            }
            if admission.wallet_demand_exceeds_cap(cap) {
                return AdmissionRestoreResult::ProtectedOverflow;
            }
            return AdmissionRestoreResult::Unconverged;
        }
        i = i + 1;
    }
    proof {
        admission.len_within_cap();
        lemma_wallet_within(admission@.groups);
    }
    if admission.len() > cap {
        AdmissionRestoreResult::Unconverged
    } else if admission.wallet_demand_exceeds_cap(cap) {
        AdmissionRestoreResult::ProtectedOverflow
    } else {
        AdmissionRestoreResult::Restored
    }
}

/// The tracked addresses, in order.
pub fn admitted_pubkey_set(admission: &FixedCapAdmission) -> (r: Vec<Pubkey>)
    requires
        admission.wf(),
    ensures
        ordered::lists(r@, owner_index::physical(admission@.groups)),
{
    admission.snapshot_pubkeys()
}

/// Sets a new cap.
pub fn apply_cap_shrink(admission: &mut FixedCapAdmission, new_cap: usize) -> (r: CapShrinkResult)
    requires
        old(admission).wf(),
    ensures
        final(admission).wf(),
        final(admission).switches() == old(admission).switches(),
        explicit_admission::shrink_cap_outcome(
            old(admission)@,
            new_cap,
            r,
            final(admission)@,
        ),
{
    admission.try_shrink_cap(new_cap)
}

proof fn lemma_remove_step(view: AdmissionView, owner: ExplicitOwner)
    ensures
        remove_step(view, owner).groups.dom().subset_of(view.groups.dom()),
        !remove_step(view, owner).groups.dom().contains(owner),
        view.in_sync() ==> remove_step(view, owner).in_sync(),
{
}

proof fn lemma_pruned(
    view: AdmissionView,
    owners: Seq<ExplicitOwner>,
    keep: Set<ExplicitOwner>,
    i: int,
)
    requires
        0 <= i <= owners.len(),
    ensures
        pruned(view, owners, keep, i).groups.dom().subset_of(view.groups.dom()),
        forall|j: int|
            0 <= j < i && !keep.contains(#[trigger] owners[j]) ==> !pruned(
                view,
                owners,
                keep,
                i,
            ).groups.dom().contains(owners[j]),
        view.in_sync() ==> pruned(view, owners, keep, i).in_sync(),
    decreases i,
{
    if i > 0 {
        lemma_pruned(view, owners, keep, i - 1);
        let before = pruned(view, owners, keep, i - 1);
        lemma_remove_step(before, owners[i - 1]);
    }
}

proof fn lemma_evict_step_owners(view: AdmissionView, owner: ExplicitOwner, keys: Seq<Pubkey>)
    requires
        view.groups.dom().finite(),
    ensures
        evict_step(view, owner, keys).1.groups.dom().subset_of(view.groups.dom().insert(owner)),
        view.in_sync() ==> evict_step(view, owner, keys).1.in_sync(),
{
    if view.in_sync() {
        if view.len() + view.fresh(keys).len() <= view.cap {
            assert(view.stamps.remove_keys(Set::empty()) =~= view.stamps);
            if restamped(view, Set::empty(), owner) is Some {
                touch_stamps::touch_makes_most_recent(view.stamps, view.next, owner);
            }
        } else if explicit_admission::room_tier(view, owner, keys) is Some {
            let tier = explicit_admission::room_tier(view, owner, keys)->0;
            let gone = explicit_admission::chosen_victims(
                view,
                explicit_admission::lru_entries(view.stamps),
                tier,
                keys,
            ).to_set();
            let left = view.stamps.remove_keys(gone);
            assert(left.dom().subset_of(view.stamps.dom()));
            vstd::set_lib::lemma_len_subset(left.dom(), view.stamps.dom());
            if restamped(view, gone, owner) is Some {
                touch_stamps::touch_makes_most_recent(left, view.next, owner);
                assert(left.dom() =~= view.groups.remove_keys(gone).dom());
            }
        }
    }
}

proof fn lemma_admit_step_owners(view: AdmissionView, owner: ExplicitOwner, keys: Seq<Pubkey>)
    requires
        view.groups.dom().finite(),
    ensures
        admit_step(view, owner, keys).1.groups.dom().subset_of(view.groups.dom().insert(owner)),
        admit_step(view, owner, keys).1.groups.dom().finite(),
        view.in_sync() ==> admit_step(view, owner, keys).1.in_sync(),
{
    lemma_remove_step(view, owner);
    let rest = remove_step(view, owner);
    vstd::set_lib::lemma_len_subset(rest.groups.dom(), view.groups.dom());
    lemma_evict_step_owners(rest, owner, keys);
    lemma_evict_step_owners(view, owner, keys);
    if view.in_sync() && touch_stamps::stamp_assigned(view.stamps, view.next, owner) is Some {
        touch_stamps::touch_makes_most_recent(view.stamps, view.next, owner);
    }
    vstd::set_lib::lemma_len_subset(
        admit_step(view, owner, keys).1.groups.dom(),
        view.groups.dom().insert(owner),
    );
}

proof fn lemma_admit_run_owners(
    view: AdmissionView,
    list: GroupList,
    order: Seq<usize>,
    i: int,
    demanded: Set<ExplicitOwner>,
)
    requires
        0 <= i <= order.len(),
        view.groups.dom().finite(),
        view.groups.dom().subset_of(demanded),
        forall|j: int|
            0 <= j < order.len() ==> demanded.contains(list[#[trigger] order[j] as int].0),
    ensures
        admit_run(view, list, order, i).1.groups.dom().subset_of(demanded),
        admit_run(view, list, order, i).1.groups.dom().finite(),
        view.in_sync() ==> admit_run(view, list, order, i).1.in_sync(),
    decreases i,
{
    if i > 0 {
        lemma_admit_run_owners(view, list, order, i - 1, demanded);
        let (met, before) = admit_run(view, list, order, i - 1);
        if met {
            let row = list[order[i - 1] as int];
            lemma_admit_step_owners(before, row.0, row.1@);
        }
    }
}

/// An admitted owner has just the keys given, and no other group changes but by leaving. With
/// no keys given nothing changes.
proof fn lemma_admit_step_keys(view: AdmissionView, owner: ExplicitOwner, keys: Seq<Pubkey>)
    requires
        admit_step(view, owner, keys).0,
    ensures
        ({
            let after = admit_step(view, owner, keys).1.groups;
            &&& keys.len() > 0 && after.dom().contains(owner) ==> after[owner]
                == ordered::in_order(keys.to_set())
            &&& keys.len() == 0 ==> after == view.groups
            &&& forall|o: ExplicitOwner|
                o != owner && #[trigger] after.dom().contains(o) ==> view.groups.dom().contains(o)
                    && after[o] == view.groups[o]
        }),
{
}

proof fn lemma_admit_run_keys(view: AdmissionView, list: GroupList, order: Seq<usize>, i: int)
    requires
        0 <= i <= order.len(),
        admit_run(view, list, order, i).0,
        forall|a: int, b: int|
            0 <= a < b < order.len() ==> list[#[trigger] order[a] as int].0 != list[
            #[trigger] order[b] as int].0,
    ensures
        ({
            let after = admit_run(view, list, order, i).1.groups;
            &&& forall|j: int|
                0 <= j < i && after.dom().contains(list[#[trigger] order[j] as int].0) ==> {
                    let row = list[order[j] as int];
                    if row.1@.len() > 0 {
                        after[row.0] == ordered::in_order(row.1@.to_set())
                    } else {
                        view.groups.dom().contains(row.0) && after[row.0] == view.groups[row.0]
                    }
                }
            &&& forall|o: ExplicitOwner| #[trigger]
                after.dom().contains(o) && (forall|j: int|
                    0 <= j < i ==> list[#[trigger] order[j] as int].0 != o)
                    ==> view.groups.dom().contains(o) && after[o] == view.groups[o]
        }),
    decreases i,
{
    if i > 0 {
        lemma_admit_run_keys(view, list, order, i - 1);
        let before = admit_run(view, list, order, i - 1).1;
        let row = list[order[i - 1] as int];
        lemma_admit_step_keys(before, row.0, row.1@);
        let after = admit_run(view, list, order, i).1.groups;
        if row.1@.len() == 0 && after.dom().contains(row.0) {
            assert forall|j: int| 0 <= j < i - 1 implies list[#[trigger] order[j] as int].0
                != row.0 by {
                assert(list[order[j] as int].0 != list[order[i - 1] as int].0);
            }
        }
        assert forall|j: int|
            0 <= j < i && after.dom().contains(list[#[trigger] order[j] as int].0) implies {
            let row = list[order[j] as int];
            if row.1@.len() > 0 {
                after[row.0] == ordered::in_order(row.1@.to_set())
            } else {
                view.groups.dom().contains(row.0) && after[row.0] == view.groups[row.0]
            }
        } by {
            if j < i - 1 {
                assert(list[order[j] as int].0 != list[order[i - 1] as int].0);
            }
        }
        assert forall|o: ExplicitOwner| #[trigger]
            after.dom().contains(o) && (forall|j: int|
                0 <= j < i ==> list[#[trigger] order[j] as int].0
                    != o) implies view.groups.dom().contains(o) && after[o] == view.groups[o] by {
            assert(list[order[i - 1] as int].0 != o);
        }
    }
}

proof fn lemma_pruned_keys(
    view: AdmissionView,
    owners: Seq<ExplicitOwner>,
    keep: Set<ExplicitOwner>,
    i: int,
)
    ensures
        forall|o: ExplicitOwner| #[trigger]
            pruned(view, owners, keep, i).groups.dom().contains(o) ==> view.groups.dom().contains(o)
                && pruned(view, owners, keep, i).groups[o] == view.groups[o],
    decreases i,
{
    if i > 0 {
        lemma_pruned_keys(view, owners, keep, i - 1);
        let before = pruned(view, owners, keep, i - 1).groups;
        let after = pruned(view, owners, keep, i).groups;
        assert forall|o: ExplicitOwner| #[trigger]
            after.dom().contains(o) implies view.groups.dom().contains(o) && after[o]
            == view.groups[o] by {
            assert(before.dom().contains(o));
        }
    }
}

/// After converging, only demanded owners have groups, and stamps and groups stay in step. Where
/// the demand was met and names no owner twice, each group that is left has just the addresses
/// listed for its owner; an owner listed with no addresses keeps the group that it had.
pub proof fn converging_leaves_only_demand(view: AdmissionView, list: GroupList)
    requires
        view.groups.dom().finite(),
        list.len() <= usize::MAX,
    ensures
        converged(view, list).0 && list_owners(list).no_duplicates() ==> forall|i: int|
            0 <= i < list.len() && converged(view, list).1.groups.dom().contains(
                (#[trigger] list[i]).0,
            ) ==> {
                let group = converged(view, list).1.groups[list[i].0];
                if list[i].1@.len() > 0 {
                    group == ordered::in_order(list[i].1@.to_set())
                } else {
                    view.groups.dom().contains(list[i].0) && group == view.groups[list[i].0]
                }
            },
        forall|o: ExplicitOwner| #[trigger]
            converged(view, list).1.groups.dom().contains(o) ==> list_owners(list).contains(o),
        view.in_sync() ==> converged(view, list).1.in_sync(),
{
    let names = list_owners(list);
    let demanded = names.to_set();
    let owners = ordered::in_order(view.groups.dom());
    ordered::lemma_in_order_lists(view.groups.dom());
    let rest = pruned(view, owners, demanded, owners.len() as int);
    lemma_pruned(view, owners, demanded, owners.len() as int);
    assert(rest.groups.dom().subset_of(demanded)) by {
        assert forall|o: ExplicitOwner| rest.groups.dom().contains(o) implies demanded.contains(
            o,
        ) by {
            assert(owners.to_set().contains(o));
            let j = choose|j: int| 0 <= j < owners.len() && owners[j] == o;
            if !demanded.contains(o) {
                assert(!demanded.contains(owners[j]));
            }
        }
    }
    vstd::set_lib::lemma_len_subset(rest.groups.dom(), view.groups.dom());
    let order = row_order::stable_order(names);
    row_order::lemma_stable_order(names);
    assert forall|j: int| 0 <= j < order.len() implies demanded.contains(
        list[#[trigger] order[j] as int].0,
    ) by {
        assert(names[order[j] as int] == list[order[j] as int].0);
    }
    lemma_admit_run_owners(rest, list, order, order.len() as int, demanded);
    if converged(view, list).0 && names.no_duplicates() {
        row_order::lemma_stable_order_is_whole(names);
        assert forall|a: int, b: int| 0 <= a < b < order.len() implies list[
            #[trigger] order[a] as int].0 != list[#[trigger] order[b] as int].0 by {
            assert(order[a] != order[b]);
            assert(names[order[a] as int] != names[order[b] as int]);
        }
        lemma_admit_run_keys(rest, list, order, order.len() as int);
        lemma_pruned_keys(view, owners, demanded, owners.len() as int);
        assert forall|i: int|
            0 <= i < list.len() && converged(view, list).1.groups.dom().contains(
                (#[trigger] list[i]).0,
            ) implies {
            let group = converged(view, list).1.groups[list[i].0];
            if list[i].1@.len() > 0 {
                group == ordered::in_order(list[i].1@.to_set())
            } else {
                view.groups.dom().contains(list[i].0) && group == view.groups[list[i].0]
            }
        } by {
            assert(names[i] == list[i].0);
            assert(order.contains(i as usize));
            let j = choose|j: int| 0 <= j < order.len() && order[j] == i as usize;
            assert(list[order[j] as int] == list[i]);
        }
    }
    assert forall|o: ExplicitOwner| #[trigger]
        converged(view, list).1.groups.dom().contains(o) implies names.contains(o) by {
        assert(demanded.contains(o));
    }
}

proof fn lemma_evict_step_meets(
    view: AdmissionView,
    owner: ExplicitOwner,
    keys: Seq<Pubkey>,
    gone: Set<ExplicitOwner>,
)
    requires
        view.in_sync(),
        view.groups.dom().finite(),
        view.next != u64::MAX || view.groups.dom().len() + 2 <= u64::MAX,
        owner_index::physical(view.groups).len() + keys.to_set().len() <= usize::MAX,
        keys.len() > 0,
        !view.groups.dom().contains(owner),
        gone.subset_of(view.groups.dom()),
        forall|o: ExplicitOwner| #[trigger]
            gone.contains(o) ==> match owner.consumer {
                ExplicitConsumer::Tracker => o.consumer == ExplicitConsumer::Tracker,
                ExplicitConsumer::Arb => o.consumer == ExplicitConsumer::Tracker || o.consumer
                    == ExplicitConsumer::Arb,
                _ => o.consumer != ExplicitConsumer::Wallet,
            },
        owner_index::physical(view.groups.remove_keys(gone).insert(owner, keys)).len()
            <= view.cap,
    ensures
        ({
            let (met, after) = evict_step(view, owner, keys);
            &&& met
            &&& after.groups.dom().contains(owner)
            &&& after.groups[owner].to_set() == keys.to_set()
            &&& ordered::sorted(after.groups[owner])
            &&& after.cap == view.cap
            &&& owner_index::physical(after.groups).len() <= after.cap
            &&& forall|o: ExplicitOwner|
                o != owner && #[trigger] after.groups.dom().contains(o)
                    ==> view.groups.dom().contains(o) && after.groups[o] == view.groups[o]
            &&& forall|o: ExplicitOwner| #[trigger]
                view.groups.dom().contains(o) && !after.groups.dom().contains(o)
                    ==> match owner.consumer {
                    ExplicitConsumer::Tracker => o.consumer == ExplicitConsumer::Tracker,
                    ExplicitConsumer::Arb => o.consumer == ExplicitConsumer::Tracker || o.consumer
                        == ExplicitConsumer::Arb,
                    _ => o.consumer != ExplicitConsumer::Wallet,
                }
            &&& owner_index::physical(view.groups.insert(owner, keys)).len() <= view.cap
                ==> after.groups.dom() == view.groups.dom().insert(owner)
        }),
{
    explicit_admission::lemma_room_is_found(view, owner, keys, gone);
    explicit_admission::lemma_set_group(view, owner, keys);
    explicit_admission::lemma_same_addresses(view.groups, owner, keys);
    vstd::seq_lib::seq_to_set_is_finite(keys);
    vstd::set_lib::lemma_len_subset(view.fresh(keys), keys.to_set());
    assert(view.stamps.remove_keys(Set::empty()) =~= view.stamps);
    if view.len() + view.fresh(keys).len() > view.cap {
        let entries = explicit_admission::lru_entries(view.stamps);
        explicit_admission::lemma_opened_tier_makes_room(view, entries, owner, keys);
        let tier = explicit_admission::room_tier(view, owner, keys)->0;
        let out = explicit_admission::chosen_victims(view, entries, tier, keys).to_set();
        let left = view.stamps.remove_keys(out);
        assert(left.dom().subset_of(view.stamps.dom()));
        vstd::set_lib::lemma_len_subset(left.dom(), view.stamps.dom());
        assert(left.dom() =~= view.groups.remove_keys(out).dom());
        assert(explicit_admission::stamps_usable(view, out));
    }
}

/// The demand of an owner is met wherever permitted evictions make room for it: for any other
/// groups `gone` that the owner's consumer may evict (tracker groups for the tracker, tracker and
/// arbitrage groups for arbitrage, all but wallet groups else) and without which its addresses
/// fit. The owner then has just these addresses, only permitted groups have left, none of them
/// where no eviction was needed, and the cap is kept.
pub proof fn demand_is_met_where_room_can_be_made(
    view: AdmissionView,
    owner: ExplicitOwner,
    keys: Seq<Pubkey>,
    gone: Set<ExplicitOwner>,
)
    requires
        view.in_sync(),
        owner_index::groups_ok(view.groups),
        owner_index::physical(view.groups).len() <= view.cap,
        view.next != u64::MAX || view.groups.dom().len() + 2 <= u64::MAX,
        owner_index::physical(view.groups).len() + keys.to_set().len() <= usize::MAX,
        keys.len() > 0,
        gone.subset_of(view.groups.dom()),
        !gone.contains(owner),
        forall|o: ExplicitOwner| #[trigger]
            gone.contains(o) ==> match owner.consumer {
                ExplicitConsumer::Tracker => o.consumer == ExplicitConsumer::Tracker,
                ExplicitConsumer::Arb => o.consumer == ExplicitConsumer::Tracker || o.consumer
                    == ExplicitConsumer::Arb,
                _ => o.consumer != ExplicitConsumer::Wallet,
            },
        owner_index::physical(view.groups.remove_keys(gone).insert(owner, keys)).len()
            <= view.cap,
    ensures
        ({
            let (met, after) = admit_step(view, owner, keys);
            &&& met
            &&& after.groups.dom().contains(owner)
            &&& after.groups[owner].to_set() == keys.to_set()
            &&& ordered::sorted(after.groups[owner])
            &&& after.cap == view.cap
            &&& owner_index::physical(after.groups).len() <= after.cap
            &&& forall|o: ExplicitOwner|
                o != owner && #[trigger] after.groups.dom().contains(o)
                    ==> view.groups.dom().contains(o) && after.groups[o] == view.groups[o]
            &&& forall|o: ExplicitOwner| #[trigger]
                view.groups.dom().contains(o) && !after.groups.dom().contains(o)
                    ==> match owner.consumer {
                    ExplicitConsumer::Tracker => o.consumer == ExplicitConsumer::Tracker,
                    ExplicitConsumer::Arb => o.consumer == ExplicitConsumer::Tracker || o.consumer
                        == ExplicitConsumer::Arb,
                    _ => o.consumer != ExplicitConsumer::Wallet,
                }
            &&& owner_index::physical(view.groups.insert(owner, keys)).len() <= view.cap
                ==> after.groups.dom() == view.groups.dom().insert(owner)
        }),
{
    let listing = ordered::in_order(keys.to_set());
    explicit_admission::lemma_set_group(view, owner, keys);
    explicit_admission::lemma_same_addresses(view.groups, owner, keys);
    if view.groups.dom().contains(owner) {
        let rest = view.without(owner);
        assert(rest.groups.dom() =~= view.groups.dom().remove(owner));
        assert(rest.stamps.dom() =~= rest.groups.dom());
        vstd::set_lib::lemma_len_subset(rest.groups.dom(), view.groups.dom());
        explicit_admission::lemma_drop_group(view, owner);
        assert(rest.groups.remove_keys(gone).insert(owner, keys) =~= view.groups.remove_keys(
            gone,
        ).insert(owner, keys));
        assert(rest.groups.insert(owner, keys) =~= view.groups.insert(owner, keys));
        lemma_evict_step_meets(rest, owner, keys, gone);
        assert(view.groups.insert(owner, view.groups[owner]) =~= view.groups);
        if view.groups[owner] == listing {
            assert(view.groups.insert(owner, listing) =~= view.groups);
        }
        let after = admit_step(view, owner, keys).1;
        assert forall|o: ExplicitOwner| #[trigger]
            view.groups.dom().contains(o) && !after.groups.dom().contains(
                o,
            ) implies match owner.consumer {
            ExplicitConsumer::Tracker => o.consumer == ExplicitConsumer::Tracker,
            ExplicitConsumer::Arb => o.consumer == ExplicitConsumer::Tracker || o.consumer
                == ExplicitConsumer::Arb,
            _ => o.consumer != ExplicitConsumer::Wallet,
        } by {
            assert(o != owner);
            assert(rest.groups.dom().contains(o));
        }
        if owner_index::physical(view.groups.insert(owner, keys)).len() <= view.cap {
            assert(after.groups.dom() =~= view.groups.dom().insert(owner));
        }
    } else {
        lemma_evict_step_meets(view, owner, keys, gone);
    }
}

/// What each step of a run keeps.
spec fn sound(view: AdmissionView) -> bool {
    &&& view.in_sync()
    &&& owner_index::groups_ok(view.groups)
    &&& owner_index::physical(view.groups).len() <= view.cap
}

proof fn lemma_without_is_sound(view: AdmissionView, owner: ExplicitOwner)
    requires
        sound(view),
    ensures
        sound(view.without(owner)),
        view.without(owner).groups.dom().len() <= view.groups.dom().len(),
{
    let rest = view.without(owner);
    assert(rest.groups.dom() =~= view.groups.dom().remove(owner));
    vstd::set_lib::lemma_len_subset(rest.groups.dom(), view.groups.dom());
    if view.groups.dom().contains(owner) {
        explicit_admission::lemma_drop_group(view, owner);
    } else {
        assert(rest.groups =~= view.groups);
    }
}

proof fn lemma_evict_step_is_sound(view: AdmissionView, owner: ExplicitOwner, keys: Seq<Pubkey>)
    requires
        sound(view),
    ensures
        sound(evict_step(view, owner, keys).1),
        evict_step(view, owner, keys).1.groups.dom().subset_of(view.groups.dom().insert(owner)),
        !evict_step(view, owner, keys).0 ==> evict_step(view, owner, keys).1 == view,
{
    lemma_evict_step_owners(view, owner, keys);
    let (met, after) = evict_step(view, owner, keys);
    vstd::set_lib::lemma_len_subset(after.groups.dom(), view.groups.dom().insert(owner));
    if met {
        explicit_admission::lemma_set_group(view, owner, keys);
        explicit_admission::lemma_same_addresses(view.groups, owner, keys);
        if view.len() + view.fresh(keys).len() > view.cap {
            explicit_admission::lemma_opened_tier_makes_room(
                view,
                explicit_admission::lru_entries(view.stamps),
                owner,
                keys,
            );
        }
    }
}

proof fn lemma_admit_step_is_sound(view: AdmissionView, owner: ExplicitOwner, keys: Seq<Pubkey>)
    requires
        sound(view),
    ensures
        sound(admit_step(view, owner, keys).1),
        admit_step(view, owner, keys).1.cap == view.cap,
        admit_step(view, owner, keys).1.groups.dom().len() <= view.groups.dom().len() + 1,
        !admit_step(view, owner, keys).0 ==> keys.len() > 0 && (admit_step(view, owner, keys).1
            == view || admit_step(view, owner, keys).1 == view.without(owner)),
{
    let listing = ordered::in_order(keys.to_set());
    let rest = view.without(owner);
    lemma_without_is_sound(view, owner);
    lemma_evict_step_is_sound(rest, owner, keys);
    lemma_evict_step_is_sound(view, owner, keys);
    lemma_admit_step_owners(view, owner, keys);
    lemma_step_cap(view, owner, keys);
    let after = admit_step(view, owner, keys).1;
    vstd::set_lib::lemma_len_subset(after.groups.dom(), view.groups.dom().insert(owner));
    if keys.len() > 0 {
        explicit_admission::lemma_set_group(view, owner, keys);
    }
    if view.groups.dom().contains(owner) {
        assert(view.groups.insert(owner, view.groups[owner]) =~= view.groups);
    }
}

proof fn lemma_admit_run_is_sound(view: AdmissionView, list: GroupList, order: Seq<usize>, i: int)
    requires
        sound(view),
        0 <= i <= order.len(),
    ensures
        sound(admit_run(view, list, order, i).1),
        admit_run(view, list, order, i).1.cap == view.cap,
        admit_run(view, list, order, i).1.groups.dom().len() <= view.groups.dom().len() + i,
    decreases i,
{
    if i > 0 {
        lemma_admit_run_is_sound(view, list, order, i - 1);
        let (met, before) = admit_run(view, list, order, i - 1);
        if met {
            let row = list[order[i - 1] as int];
            lemma_admit_step_is_sound(before, row.0, row.1@);
        }
    }
}

proof fn lemma_pruned_is_sound(
    view: AdmissionView,
    owners: Seq<ExplicitOwner>,
    keep: Set<ExplicitOwner>,
    i: int,
)
    requires
        sound(view),
    ensures
        sound(pruned(view, owners, keep, i)),
        pruned(view, owners, keep, i).cap == view.cap,
        pruned(view, owners, keep, i).groups.dom().len() <= view.groups.dom().len(),
    decreases i,
{
    if i > 0 {
        lemma_pruned_is_sound(view, owners, keep, i - 1);
        lemma_without_is_sound(pruned(view, owners, keep, i - 1), owners[i - 1]);
    }
}

/// No permitted eviction makes room for the addresses of `owner`.
pub open spec fn no_room_for(view: AdmissionView, owner: ExplicitOwner, keys: Seq<Pubkey>) -> bool {
    forall|gone: Set<ExplicitOwner>|
        {
            &&& gone.subset_of(view.groups.dom())
            &&& !gone.contains(owner)
            &&& forall|o: ExplicitOwner| #[trigger]
                gone.contains(o) ==> match owner.consumer {
                    ExplicitConsumer::Tracker => o.consumer == ExplicitConsumer::Tracker,
                    ExplicitConsumer::Arb => o.consumer == ExplicitConsumer::Tracker || o.consumer
                        == ExplicitConsumer::Arb,
                    _ => o.consumer != ExplicitConsumer::Wallet,
                }
        } ==> owner_index::physical(
            #[trigger] view.groups.remove_keys(gone).insert(owner, keys),
        ).len() > view.cap
}

/// Where a run stops, at the first demand that is not met, no permitted eviction makes room.
proof fn lemma_run_stops_without_room(
    view: AdmissionView,
    list: GroupList,
    order: Seq<usize>,
    i: int,
) -> (at: int)
    requires
        sound(view),
        0 <= i <= order.len(),
        forall|j: int| 0 <= j < order.len() ==> #[trigger] order[j] < list.len(),
        view.groups.dom().len() + order.len() + 2 <= u64::MAX,
        forall|j: int|
            0 <= j < list.len() ==> view.cap + (#[trigger] list[j]).1@.to_set().len()
                <= usize::MAX,
        !admit_run(view, list, order, i).0,
    ensures
        0 <= at < list.len(),
        list[at].1@.len() > 0,
        no_room_for(admit_run(view, list, order, i).1, list[at].0, list[at].1@),
    decreases i,
{
    let (met, before) = admit_run(view, list, order, i - 1);
    if !met {
        lemma_run_stops_without_room(view, list, order, i - 1)
    } else {
        lemma_admit_run_is_sound(view, list, order, i - 1);
        let at = order[i - 1] as int;
        let (owner, keys) = (list[at].0, list[at].1@);
        assert(view.cap + list[at].1@.to_set().len() <= usize::MAX);
        lemma_admit_step_is_sound(before, owner, keys);
        let after = admit_step(before, owner, keys).1;
        assert forall|gone: Set<ExplicitOwner>|
            {
                &&& gone.subset_of(after.groups.dom())
                &&& !gone.contains(owner)
                &&& forall|o: ExplicitOwner| #[trigger]
                    gone.contains(o) ==> match owner.consumer {
                        ExplicitConsumer::Tracker => o.consumer == ExplicitConsumer::Tracker,
                        ExplicitConsumer::Arb => o.consumer == ExplicitConsumer::Tracker
                            || o.consumer == ExplicitConsumer::Arb,
                        _ => o.consumer != ExplicitConsumer::Wallet,
                    }
            } implies owner_index::physical(
            #[trigger] after.groups.remove_keys(gone).insert(owner, keys),
        ).len() > after.cap by {
            assert(after.groups.remove_keys(gone).insert(owner, keys) =~= before.groups.remove_keys(
                gone,
            ).insert(owner, keys));
            if owner_index::physical(after.groups.remove_keys(gone).insert(owner, keys)).len()
                <= after.cap {
                assert(gone.subset_of(before.groups.dom()));
                demand_is_met_where_room_can_be_made(before, owner, keys, gone);
            }
        }
        at
    }
}

/// Converging fails only for want of room: some demand of the list is left for which, in the
/// state that is left, no permitted eviction makes room.
pub proof fn converging_fails_only_without_room(view: AdmissionView, list: GroupList)
    requires
        view.in_sync(),
        owner_index::groups_ok(view.groups),
        owner_index::physical(view.groups).len() <= view.cap,
        list.len() <= usize::MAX,
        view.groups.dom().len() + list.len() + 2 <= u64::MAX,
        forall|j: int|
            0 <= j < list.len() ==> view.cap + (#[trigger] list[j]).1@.to_set().len()
                <= usize::MAX,
        !converged(view, list).0,
    ensures
        exists|i: int|
            0 <= i < list.len() && (#[trigger] list[i]).1@.len() > 0 && no_room_for(
                converged(view, list).1,
                list[i].0,
                list[i].1@,
            ),
        converged(view, list).1.cap == view.cap,
{
    let names = list_owners(list);
    let owners = ordered::in_order(view.groups.dom());
    let rest = pruned(view, owners, names.to_set(), owners.len() as int);
    lemma_pruned_is_sound(view, owners, names.to_set(), owners.len() as int);
    let order = row_order::stable_order(names);
    row_order::lemma_stable_order(names);
    row_order::lemma_stable_order_is_whole(names);
    assert(order.len() <= names.len()) by {
        order.unique_seq_to_set();
        let all = Set::new(|u: usize| u < names.len());
        assert(order.to_set().subset_of(all)) by {
            assert forall|u: usize| order.to_set().contains(u) implies u < names.len() by {
                let j = choose|j: int| 0 <= j < order.len() && order[j] == u;
                assert(order[j] < names.len());
            }
        }
        lemma_below_finite(names.len());
        vstd::set_lib::lemma_len_subset(order.to_set(), all);
    }
    lemma_admit_run_is_sound(rest, list, order, order.len() as int);
    let at = lemma_run_stops_without_room(rest, list, order, order.len() as int);
    assert(list[at].1@.len() > 0);
}

proof fn lemma_below_finite(n: nat)
    requires
        n <= usize::MAX,
    ensures
        Set::new(|u: usize| u < n).finite(),
        Set::new(|u: usize| u < n).len() == n,
    decreases n,
{
    let all = Set::new(|u: usize| u < n);
    if n == 0 {
        assert(all =~= Set::empty());
    } else {
        lemma_below_finite((n - 1) as nat);
        let less = Set::new(|u: usize| u < n - 1);
        assert(all =~= less.insert((n - 1) as usize));
    }
}

proof fn lemma_fitting_run(
    view: AdmissionView,
    list: GroupList,
    order: Seq<usize>,
    i: int,
    wanted: Set<Pubkey>,
)
    requires
        sound(view),
        0 <= i <= order.len(),
        forall|j: int| 0 <= j < order.len() ==> #[trigger] order[j] < list.len(),
        forall|a: int, b: int|
            0 <= a < b < order.len() ==> list[#[trigger] order[a] as int].0 != list[
            #[trigger] order[b] as int].0,
        view.groups.dom().len() + order.len() + 2 <= u64::MAX,
        forall|j: int|
            0 <= j < list.len() ==> view.cap + (#[trigger] list[j]).1@.to_set().len()
                <= usize::MAX,
        wanted.finite(),
        wanted.len() <= view.cap,
        owner_index::physical(view.groups).subset_of(wanted),
        forall|j: int| 0 <= j < list.len() ==> (#[trigger] list[j]).1@.to_set().subset_of(wanted),
    ensures
        ({
            let (met, after) = admit_run(view, list, order, i);
            &&& met
            &&& view.groups.dom().subset_of(after.groups.dom())
            &&& owner_index::physical(after.groups).subset_of(wanted)
            &&& forall|j: int|
                0 <= j < i && list[#[trigger] order[j] as int].1@.len() > 0
                    ==> after.groups.dom().contains(list[order[j] as int].0)
        }),
    decreases i,
{
    if i > 0 {
        lemma_fitting_run(view, list, order, i - 1, wanted);
        lemma_admit_run_is_sound(view, list, order, i - 1);
        let before = admit_run(view, list, order, i - 1).1;
        let at = order[i - 1] as int;
        let (owner, keys) = (list[at].0, list[at].1@);
        let after = admit_step(before, owner, keys).1;
        if keys.len() > 0 {
            let then = before.groups.insert(owner, keys);
            assert(before.groups.remove_keys(Set::empty()) =~= before.groups);
            assert forall|pk: Pubkey| owner_index::physical(then).contains(
                pk,
            ) implies wanted.contains(pk) by {
                let o = choose|o: ExplicitOwner|
                    then.dom().contains(o) && #[trigger] then[o].contains(pk);
                if o == owner {
                    assert(list[at].1@.to_set().contains(pk));
                } else {
                    assert(before.groups.dom().contains(o) && before.groups[o].contains(pk));
                    assert(owner_index::physical(before.groups).contains(pk));
                }
            }
            vstd::set_lib::lemma_len_subset(owner_index::physical(then), wanted);
            assert(view.cap + list[at].1@.to_set().len() <= usize::MAX);
            demand_is_met_where_room_can_be_made(before, owner, keys, Set::empty());
            assert forall|pk: Pubkey| owner_index::physical(after.groups).contains(
                pk,
            ) implies wanted.contains(pk) by {
                let o = choose|o: ExplicitOwner|
                    after.groups.dom().contains(o) && #[trigger] after.groups[o].contains(pk);
                if o == owner {
                    assert(after.groups[owner].to_set().contains(pk));
                    assert(list[at].1@.to_set().contains(pk));
                } else {
                    assert(before.groups.dom().contains(o) && before.groups[o].contains(pk));
                    assert(owner_index::physical(before.groups).contains(pk));
                }
            }
        }
    }
}

/// A demand that fits the cap together with what is in already is met in full: every listed owner
/// has just its addresses, and nobody else is in.
pub proof fn fitting_demand_is_met_in_full(view: AdmissionView, list: GroupList, wanted: Set<Pubkey>)
    requires
        view.in_sync(),
        owner_index::groups_ok(view.groups),
        list.len() <= usize::MAX,
        list_owners(list).no_duplicates(),
        view.groups.dom().len() + list.len() + 2 <= u64::MAX,
        forall|j: int|
            0 <= j < list.len() ==> view.cap + (#[trigger] list[j]).1@.to_set().len()
                <= usize::MAX,
        wanted.finite(),
        wanted.len() <= view.cap,
        owner_index::physical(view.groups).subset_of(wanted),
        forall|j: int| 0 <= j < list.len() ==> (#[trigger] list[j]).1@.to_set().subset_of(wanted),
    ensures
        converged(view, list).0,
        forall|i: int|
            0 <= i < list.len() && (#[trigger] list[i]).1@.len() > 0 ==> {
                &&& converged(view, list).1.groups.dom().contains(list[i].0)
                &&& converged(view, list).1.groups[list[i].0].to_set() == list[i].1@.to_set()
            },
        forall|o: ExplicitOwner| #[trigger]
            converged(view, list).1.groups.dom().contains(o) ==> exists|i: int|
                0 <= i < list.len() && (#[trigger] list[i]).0 == o,
{
    let names = list_owners(list);
    let owners = ordered::in_order(view.groups.dom());
    let rest = pruned(view, owners, names.to_set(), owners.len() as int);
    vstd::set_lib::lemma_len_subset(owner_index::physical(view.groups), wanted);
    lemma_pruned_is_sound(view, owners, names.to_set(), owners.len() as int);
    lemma_pruned_keys(view, owners, names.to_set(), owners.len() as int);
    assert forall|pk: Pubkey| owner_index::physical(rest.groups).contains(
        pk,
    ) implies wanted.contains(pk) by {
        let o = choose|o: ExplicitOwner|
            rest.groups.dom().contains(o) && #[trigger] rest.groups[o].contains(pk);
        assert(view.groups.dom().contains(o) && view.groups[o].contains(pk));
        assert(owner_index::physical(view.groups).contains(pk));
    }
    let order = row_order::stable_order(names);
    row_order::lemma_stable_order(names);
    row_order::lemma_stable_order_is_whole(names);
    assert(order.len() <= names.len()) by {
        order.unique_seq_to_set();
        let all = Set::new(|u: usize| u < names.len());
        assert(order.to_set().subset_of(all)) by {
            assert forall|u: usize| order.to_set().contains(u) implies u < names.len() by {
                let j = choose|j: int| 0 <= j < order.len() && order[j] == u;
                assert(order[j] < names.len());
            }
        }
        lemma_below_finite(names.len());
        vstd::set_lib::lemma_len_subset(order.to_set(), all);
    }
    assert forall|a: int, b: int| 0 <= a < b < order.len() implies list[
        #[trigger] order[a] as int].0 != list[#[trigger] order[b] as int].0 by {
        assert(order[a] != order[b]);
        assert(names[order[a] as int] != names[order[b] as int]);
    }
    lemma_fitting_run(rest, list, order, order.len() as int, wanted);
    converging_leaves_only_demand(view, list);
    let after = converged(view, list).1;
    assert forall|i: int| 0 <= i < list.len() && (#[trigger] list[i]).1@.len() > 0 implies {
        &&& after.groups.dom().contains(list[i].0)
        &&& after.groups[list[i].0].to_set() == list[i].1@.to_set()
    } by {
        assert(order.contains(i as usize));
        let j = choose|j: int| 0 <= j < order.len() && order[j] == i as usize;
        assert(list[order[j] as int].1@.len() > 0);
        vstd::seq_lib::seq_to_set_is_finite(list[i].1@);
        ordered::lemma_in_order_lists(list[i].1@.to_set());
    }
    assert forall|o: ExplicitOwner| #[trigger] after.groups.dom().contains(o) implies exists|i: int|
        0 <= i < list.len() && (#[trigger] list[i]).0 == o by {
        assert(names.contains(o));
        let i = choose|i: int| 0 <= i < names.len() && names[i] == o;
        assert(list[i].0 == o);
    }
}

/// The owner of a demand row: of the row's consumer, and the wallet as a whole for the wallet,
/// else the row's pool, else, with no pool, the address itself.
pub proof fn rows_belong_to_their_consumer_and_pool(
    pubkey: Pubkey,
    consumer: ConsumerId,
    pool: Option<Pubkey>,
)
    ensures
        ({
            let owner = row_owner((pubkey, consumer, pool));
            &&& owner.consumer is Wallet <==> consumer is Wallet
            &&& owner.consumer is Momentum <==> consumer is Momentum
            &&& owner.consumer is Arb <==> consumer is Arb
            &&& owner.consumer is Tracker <==> consumer is Tracker
            &&& owner.owner_key is Wallet <==> consumer is Wallet
            &&& !(consumer is Wallet) && pool is Some ==> owner.owner_key
                == ExplicitOwnerKey::Pool(pool->0)
            &&& !(consumer is Wallet) && pool is None ==> owner.owner_key
                == ExplicitOwnerKey::Mint(pubkey)
        }),
{
}

/// A state with nothing in it.
pub open spec fn cleared(cap: usize) -> AdmissionView {
    AdmissionView { cap, groups: Map::empty(), stamps: Map::empty(), next: 1 }
}

/// The state after the first groups of a snapshot have been restored.
spec fn restored_so_far(
    cap: usize,
    groups: Groups,
    owners: Seq<ExplicitOwner>,
    view: AdmissionView,
    i: int,
) -> bool {
    &&& view.cap == cap
    &&& view.groups == groups.restrict(owners.take(i).to_set())
    &&& view.stamps.dom() == owners.take(i).to_set()
    &&& view.next == i + 1
    &&& view.in_sync()
}

proof fn lemma_restore_prefix(
    cap: usize,
    snapshots: Seq<OwnerGroupSnapshot>,
    groups: Groups,
    i: int,
)
    requires
        explicit_ownership::snapshots_list(snapshots, groups),
        owner_index::groups_ok(groups),
        owner_index::physical(groups).len() <= cap,
        snapshots.len() < u64::MAX,
        snapshots.len() <= usize::MAX,
        0 <= i <= snapshots.len(),
    ensures
        ({
            let (met, view) = admit_run(
                cleared(cap),
                snapshot_list(snapshots),
                snapshot_order(snapshots),
                i,
            );
            let owners = snapshots.map_values(|s: OwnerGroupSnapshot| s.owner());
            met && restored_so_far(cap, groups, owners, view, i)
        }),
    decreases i,
{
    let owners = snapshots.map_values(|s: OwnerGroupSnapshot| s.owner());
    let order = snapshot_order(snapshots);
    row_order::lemma_sorted_stable_order(owners);
    if i == 0 {
        assert(owners.take(0).to_set() =~= Set::empty());
        assert(groups.restrict(owners.take(0).to_set()) =~= Map::empty());
        assert(cleared(cap).stamps.dom() =~= owners.take(0).to_set());
    } else {
        lemma_restore_prefix(cap, snapshots, groups, i - 1);
        let (_, view) = admit_run(cleared(cap), snapshot_list(snapshots), order, i - 1);
        let group = snapshots[i - 1];
        let owner = group.owner();
        let keys = group.pubkeys@;
        assert(order[i - 1] == i - 1);
        assert(owners[i - 1] == owner);
        assert(owners.to_set().contains(owner));
        assert(groups.dom().contains(owner));
        assert(keys == groups[owner]);
        ordered::lemma_in_order(keys, keys.to_set());
        ordered::lemma_take_step(owners, i - 1);
        assert(!owners.take(i - 1).to_set().contains(owner)) by {
            if owners.take(i - 1).contains(owner) {
                let j = choose|j: int|
                    0 <= j < i - 1 && #[trigger] owners.take(i - 1)[j] == owner;
                assert(owners[j].rank() < owners[i - 1].rank());
            }
        }
        let after = groups.restrict(owners.take(i).to_set());
        assert(view.groups.insert(owner, keys) =~= after) by {
            assert forall|o: ExplicitOwner| owners.take(i).to_set().contains(
                o,
            ) implies #[trigger] groups.dom().contains(o) by {
                let j = choose|j: int| 0 <= j < i && #[trigger] owners.take(i)[j] == o;
                assert(owners[j] == o);
                assert(owners.to_set().contains(o));
            }
        }
        let held = owner_index::physical(view.groups);
        let fresh = view.fresh(keys);
        let all = owner_index::physical(groups);
        owner_index::lemma_physical_finite(groups);
        assert forall|pk: Pubkey| held.union(fresh).contains(pk) implies all.contains(pk) by {
            if held.contains(pk) {
                let o = choose|o: ExplicitOwner|
                    view.groups.dom().contains(o) && #[trigger] view.groups[o].contains(pk);
                assert(groups.dom().contains(o) && groups[o].contains(pk));
            } else {
                assert(keys.contains(pk));
                assert(groups[owner].contains(pk));
            }
        }
        assert(held.union(fresh).subset_of(all));
        assert(held.subset_of(all));
        assert(fresh.subset_of(all));
        vstd::set_lib::lemma_len_subset(held, all);
        vstd::set_lib::lemma_len_subset(fresh, all);
        vstd::set_lib::lemma_len_subset(held.union(fresh), all);
        vstd::set_lib::lemma_set_disjoint_lens(held, fresh);
        assert(view.stamps.remove_keys(Set::empty()) =~= view.stamps);
        let (met, next) = admit_run(cleared(cap), snapshot_list(snapshots), order, i);
        assert(met);
        assert(next.stamps.dom() =~= owners.take(i).to_set());
        assert(next.groups =~= after);
        assert(next.groups.dom() =~= next.stamps.dom());
    }
}

/// Restoring the groups of a snapshot that fit the cap brings back just those groups.
pub proof fn restore_brings_back_the_groups(
    cap: usize,
    snapshots: Seq<OwnerGroupSnapshot>,
    groups: Groups,
)
    requires
        explicit_ownership::snapshots_list(snapshots, groups),
        owner_index::groups_ok(groups),
        owner_index::physical(groups).len() <= cap,
        snapshots.len() < u64::MAX,
        snapshots.len() <= usize::MAX,
    ensures
        wallet_demand(snapshots).len() <= cap,
        ({
            let order = snapshot_order(snapshots);
            let (met, view) = admit_run(
                cleared(cap),
                snapshot_list(snapshots),
                order,
                order.len() as int,
            );
            met && view.groups == groups && view.in_sync()
        }),
{
    let owners = snapshots.map_values(|s: OwnerGroupSnapshot| s.owner());
    row_order::lemma_sorted_stable_order(owners);
    lemma_restore_prefix(cap, snapshots, groups, snapshots.len() as int);
    assert(owners.take(owners.len() as int) =~= owners);
    assert(groups.restrict(owners.to_set()) =~= groups);
    let all = owner_index::physical(groups);
    owner_index::lemma_physical_finite(groups);
    assert forall|pk: Pubkey| #[trigger] wallet_demand(snapshots).contains(pk) implies all.contains(
        pk,
    ) by {
        let i = choose|i: int|
            0 <= i < snapshots.len() && (#[trigger] snapshots[i]).consumer
                == ExplicitConsumer::Wallet && snapshots[i].pubkeys@.contains(pk);
        let o = snapshots[i].owner();
        assert(owners[i] == o);
        assert(owners.to_set().contains(o));
        assert(groups.dom().contains(o) && groups[o].contains(pk));
    }
    vstd::set_lib::lemma_len_subset(wallet_demand(snapshots), all);
}

} // verus!
