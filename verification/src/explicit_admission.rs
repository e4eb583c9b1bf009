//! Fixed-cap admission of owner groups.
//!
//! Inserting takes only owners without a group, replacing only owners with one. Removal is local
//! to one group. Admission with eviction commits by swapping in a validated candidate state.
//! Every plan is checked against what the commit did, and a mismatch is rolled back.

use crate::eviction_model;
use crate::eviction_model::{EvictionKey, EvictionTier, Groups, Stamps};
use crate::eviction_planner;
use crate::eviction_planner::{
    select_eviction_victims, EvictionPlanningSnapshot, OwnerLruEntry, SnapshotBuildError,
    VictimSelectionPlan, VictimSelectionRequest, VictimSelectionResult,
};
use crate::explicit_ownership;
use crate::explicit_ownership::{
    ExplicitOwner, ExplicitOwnership, GroupChange, OwnerGroupSnapshot,
};
use crate::ordered;
use crate::ordered::{OrderedMap, Ranked};
use crate::owner_index;
use crate::pubkey::Pubkey;
use crate::touch_stamps;
use vstd::prelude::*;

verus! {

/// How a failed replacement was recovered.
#[derive(Debug, Clone, Copy, PartialEq, Eq, Structural)]
pub enum InvariantViolationRecovery {
    /// The previous group was restored.
    PreviousRestored,
    /// The group could not be restored, so the owner was removed.
    OwnerRemovedFailClosed,
}

/// How a failed removal was recovered.
#[derive(Debug, Clone, Copy, PartialEq, Eq, Structural)]
pub enum FixedCapRemoveRecovery {
    /// The previous group was restored.
    PreviousRestored,
    /// The group could not be restored, so the owner was removed.
    OwnerRemovedFailClosed,
    /// The owner could not be removed.
    RecoveryFailed,
}

/// Result of inserting a group.
#[derive(Debug, Clone, PartialEq, Eq)]
pub enum FixedCapAdmissionResult {
    /// The addresses that became tracked.
    Inserted { physical_added: Vec<Pubkey> },
    /// All addresses of the group were tracked already.
    OwnerAddedNoNewPubkey,
    /// The cap has no room.
    RejectedCap { required_unique: usize, available_unique: usize },
    /// Empty groups are invalid.
    RejectedInvalidGroup,
    /// The owner has a group.
    RejectedExistingOwner,
    /// The commit did not do what was planned.
    InternalInvariantViolation,
}

/// Result of removing a group.
#[derive(Debug, Clone, PartialEq, Eq)]
pub enum FixedCapRemoveResult {
    /// The addresses that are no longer tracked.
    Removed { physical_removed: Vec<Pubkey> },
    /// The owner has no group.
    NotFound,
    /// Planning failed; nothing changed.
    PlanningInvariantViolation,
    /// The commit did not do what was planned.
    InternalInvariantViolation { recovery: FixedCapRemoveRecovery },
}

/// The eviction plan for a group that is not inserted yet.
pub type AdmissionEvictionPlanResult = VictimSelectionResult;

/// Result of inserting a group with eviction.
#[derive(Debug, Clone, PartialEq, Eq)]
pub enum EvictingAdmissionResult {
    /// The group fitted.
    InsertedNoEviction { physical_added: Vec<Pubkey> },
    /// The victims left and the group was inserted.
    InsertedWithEviction {
        physical_added: Vec<Pubkey>,
        physical_removed: Vec<Pubkey>,
        victims: Vec<ExplicitOwner>,
        opened_through: EvictionTier,
    },
    /// The owner has a group.
    RejectedExistingOwner,
    /// The allowed tiers cannot free enough.
    RejectedProtected { incoming_physical_added: usize, required_to_free: usize },
    /// Empty groups are invalid.
    RejectedInvalidInput,
    /// The candidate state was not what was planned; nothing changed.
    InternalInvariantViolation,
}

/// Result of touching a group.
#[derive(Debug, Clone, Copy, PartialEq, Eq, Structural)]
pub enum TouchResult {
    /// The stamp advanced.
    Touched,
    /// The owner has no group.
    NotFound,
    /// The owner had no stamp, or none could be assigned.
    InternalInvariantViolation,
}

/// Result of replacing a group.
#[derive(Debug, Clone, PartialEq, Eq)]
pub enum FixedCapReplaceResult {
    /// The addresses that became tracked and those that no longer are.
    Replaced { physical_added: Vec<Pubkey>, physical_removed: Vec<Pubkey> },
    /// The group already held these addresses.
    Unchanged,
    /// The cap has no room.
    RejectedCap { required_unique: usize, available_unique: usize },
    /// Empty groups are invalid.
    RejectedInvalidGroup,
    /// The owner has no group.
    RejectedMissingOwner,
    /// Planning failed; nothing changed.
    PlanningInvariantViolation,
    /// The commit did not do what was planned.
    InternalInvariantViolation { recovery: InvariantViolationRecovery },
}

/// Counters of planning work.
#[derive(Debug, Clone, Copy, PartialEq, Eq)]
pub struct PlanningStats {
    pub refcount_lookups: u64,
    pub owner_group_lookups: u64,
    pub eviction_candidate_builds: u64,
    pub eviction_candidate_group_edges: u64,
}

/// Fault switches that exercise the rollback paths; all off unless a test turns one on.
#[derive(Debug, Clone, PartialEq, Eq)]
pub struct FaultSwitches {
    pub commit_plan_mismatch: bool,
    pub restore_plan_mismatch: bool,
    pub remove_planning_underflow: bool,
    pub remove_planning_zero_refcount: bool,
    pub stamp_plan_failure: bool,
    pub eviction_plan_extra_lru: Vec<OwnerLruEntry>,
    pub evicting_omit_survivor: Option<ExplicitOwner>,
    pub evicting_corrupt_physical_len: bool,
    pub evicting_corrupt_survivor_stamp: Option<ExplicitOwner>,
    pub evicting_extra_candidate_owner: Option<(ExplicitOwner, Vec<Pubkey>)>,
    pub evicting_corrupt_next_touch_stamp: bool,
}

impl FaultSwitches {
    /// No switch that tampers with an eviction candidate is on.
    pub open spec fn candidate_untouched(&self) -> bool {
        &&& self.evicting_omit_survivor is None
        &&& !self.evicting_corrupt_physical_len
        &&& self.evicting_corrupt_survivor_stamp is None
        &&& self.evicting_extra_candidate_owner is None
        &&& !self.evicting_corrupt_next_touch_stamp
    }

    /// No switch is on.
    pub open spec fn all_off(&self) -> bool {
        &&& !self.commit_plan_mismatch
        &&& !self.restore_plan_mismatch
        &&& !self.remove_planning_underflow
        &&& !self.remove_planning_zero_refcount
        &&& !self.stamp_plan_failure
        &&& self.eviction_plan_extra_lru@.len() == 0
        &&& self.candidate_untouched()
    }

    /// Whether no switch is on.
    pub fn are_off(&self) -> (r: bool)
        ensures
            r == self.all_off(),
    {
        !self.commit_plan_mismatch && !self.restore_plan_mismatch
            && !self.remove_planning_underflow && !self.remove_planning_zero_refcount
            && !self.stamp_plan_failure && self.eviction_plan_extra_lru.len() == 0
            && self.evicting_omit_survivor.is_none() && !self.evicting_corrupt_physical_len
            && self.evicting_corrupt_survivor_stamp.is_none()
            && self.evicting_extra_candidate_owner.is_none()
            && !self.evicting_corrupt_next_touch_stamp
    }

    fn off() -> (r: Self)
        ensures
            r.all_off(),
    {
        FaultSwitches {
            commit_plan_mismatch: false,
            restore_plan_mismatch: false,
            remove_planning_underflow: false,
            remove_planning_zero_refcount: false,
            stamp_plan_failure: false,
            eviction_plan_extra_lru: Vec::new(),
            evicting_omit_survivor: None,
            evicting_corrupt_physical_len: false,
            evicting_corrupt_survivor_stamp: None,
            evicting_extra_candidate_owner: None,
            evicting_corrupt_next_touch_stamp: false,
        }
    }
}

/// What an admission layer holds.
#[verifier::ext_equal]
pub struct AdmissionView {
    pub cap: usize,
    pub groups: Groups,
    pub stamps: Stamps,
    pub next: u64,
}

impl AdmissionView {
    /// Number of tracked addresses.
    pub open spec fn len(self) -> nat {
        owner_index::physical(self.groups).len()
    }

    /// Every group has a stamp, no other owner has one, and the counter is above them all.
    pub open spec fn in_sync(self) -> bool {
        &&& self.stamps.dom() =~= self.groups.dom()
        &&& forall|o: ExplicitOwner| #[trigger]
            self.stamps.dom().contains(o) ==> self.stamps[o] < self.next
    }

    /// No two owners have the same stamp.
    pub open spec fn stamps_distinct(self) -> bool {
        all_distinct(self.stamps)
    }

    /// The counter can go on, or the stamps can be renumbered.
    pub open spec fn has_stamp_room(self) -> bool {
        self.next != u64::MAX || self.stamps.dom().len() + 2 <= u64::MAX
    }

    /// The keys that are not tracked yet.
    pub open spec fn fresh(self, keys: Seq<Pubkey>) -> Set<Pubkey> {
        keys.to_set().difference(owner_index::physical(self.groups))
    }

    /// What is no longer tracked when the group of `owner` becomes `keys`.
    pub open spec fn released(self, owner: ExplicitOwner, keys: Seq<Pubkey>) -> Set<Pubkey> {
        self.groups[owner].to_set().filter(
            |pk: Pubkey|
                !keys.contains(pk) && owner_index::owners_of(self.groups, pk).len() == 1,
        )
    }

    /// The state with `owner` touched and its group set to `keys`.
    pub open spec fn committed(self, owner: ExplicitOwner, keys: Seq<Pubkey>) -> AdmissionView {
        let (stamps, next) = touch_stamps::stamp_assigned(self.stamps, self.next, owner)->0;
        AdmissionView { cap: self.cap, groups: self.groups.insert(owner, keys), stamps, next }
    }

    /// The state without `owner`, reduced to owners with both a group and a stamp.
    pub open spec fn failed_closed(self, owner: ExplicitOwner) -> AdmissionView {
        let kept = self.groups.dom().intersect(self.stamps.dom()).remove(owner);
        AdmissionView {
            cap: self.cap,
            groups: self.groups.restrict(kept),
            stamps: self.stamps.restrict(kept),
            next: self.next,
        }
    }

    /// The state without the group and the stamp of `owner`.
    pub open spec fn without(self, owner: ExplicitOwner) -> AdmissionView {
        AdmissionView {
            cap: self.cap,
            groups: self.groups.remove(owner),
            stamps: self.stamps.remove(owner),
            next: self.next,
        }
    }

    /// Whether a stamp can be assigned to `owner`.
    pub open spec fn can_stamp(self, faults: FaultSwitches, owner: ExplicitOwner) -> bool {
        !faults.stamp_plan_failure && touch_stamps::stamp_assigned(self.stamps, self.next, owner)
            is Some
    }
}

/// What inserting a group does.
pub open spec fn insert_outcome(
    before: AdmissionView,
    faults: FaultSwitches,
    owner: ExplicitOwner,
    keys: Seq<Pubkey>,
    result: FixedCapAdmissionResult,
    after: AdmissionView,
) -> bool {
    let added = before.fresh(keys);
    if keys.len() == 0 {
        result is RejectedInvalidGroup && after == before
    } else if before.groups.dom().contains(owner) {
        result is RejectedExistingOwner && after == before
    } else if before.len() + added.len() > before.cap {
        &&& result == (FixedCapAdmissionResult::RejectedCap {
            required_unique: added.len() as usize,
            available_unique: (before.cap - before.len()) as usize,
        })
        &&& after == before
    } else if !before.can_stamp(faults, owner) || (faults.commit_plan_mismatch && added.len() > 0) {
        result is InternalInvariantViolation && after == before
    } else {
        &&& after == before.committed(owner, ordered::in_order(keys.to_set()))
        &&& match result {
            FixedCapAdmissionResult::Inserted { physical_added } => added.len() > 0
                && ordered::lists(physical_added@, added),
            FixedCapAdmissionResult::OwnerAddedNoNewPubkey => added.len() == 0,
            _ => false,
        }
    }
}

/// What replacing a group does.
pub open spec fn replace_outcome(
    before: AdmissionView,
    faults: FaultSwitches,
    owner: ExplicitOwner,
    keys: Seq<Pubkey>,
    result: FixedCapReplaceResult,
    after: AdmissionView,
) -> bool {
    let listing = ordered::in_order(keys.to_set());
    let added = before.fresh(keys);
    let removed = before.released(owner, keys);
    if keys.len() == 0 {
        result is RejectedInvalidGroup && after == before
    } else if !before.groups.dom().contains(owner) {
        result is RejectedMissingOwner && after == before
    } else if !before.stamps.dom().contains(owner) {
        &&& result == (FixedCapReplaceResult::InternalInvariantViolation {
            recovery: InvariantViolationRecovery::OwnerRemovedFailClosed,
        })
        &&& after == before.failed_closed(owner)
    } else if before.groups[owner] == listing {
        result is Unchanged && after == before
    } else if before.len() + added.len() > before.cap + removed.len() {
        &&& result == (FixedCapReplaceResult::RejectedCap {
            required_unique: added.len() as usize,
            available_unique: (before.cap - before.len() + removed.len()) as usize,
        })
        &&& after == before
    } else if !before.can_stamp(faults, owner) {
        result is PlanningInvariantViolation && after == before
    } else if faults.commit_plan_mismatch && (added.len() > 0 || removed.len() > 0) {
        if faults.restore_plan_mismatch {
            &&& result == (FixedCapReplaceResult::InternalInvariantViolation {
                recovery: InvariantViolationRecovery::OwnerRemovedFailClosed,
            })
            &&& after == before.failed_closed(owner)
        } else {
            &&& result == (FixedCapReplaceResult::InternalInvariantViolation {
                recovery: InvariantViolationRecovery::PreviousRestored,
            })
            &&& after == before
        }
    } else {
        &&& after == before.committed(owner, listing)
        &&& result matches FixedCapReplaceResult::Replaced { physical_added, physical_removed }
        &&& ordered::lists(physical_added@, added)
        &&& ordered::lists(physical_removed@, removed)
    }
}

/// What removing a group does.
pub open spec fn remove_outcome(
    before: AdmissionView,
    faults: FaultSwitches,
    owner: ExplicitOwner,
    result: FixedCapRemoveResult,
    after: AdmissionView,
) -> bool {
    let removed = before.released(owner, Seq::empty());
    if !before.groups.dom().contains(owner) {
        result is NotFound && after == before
    } else if !before.stamps.dom().contains(owner) {
        &&& result == (FixedCapRemoveResult::InternalInvariantViolation {
            recovery: FixedCapRemoveRecovery::OwnerRemovedFailClosed,
        })
        &&& after == before.failed_closed(owner)
    } else if faults.remove_planning_zero_refcount || faults.remove_planning_underflow {
        result is PlanningInvariantViolation && after == before
    } else if faults.commit_plan_mismatch && removed.len() > 0 {
        if faults.restore_plan_mismatch {
            &&& result == (FixedCapRemoveResult::InternalInvariantViolation {
                recovery: FixedCapRemoveRecovery::OwnerRemovedFailClosed,
            })
            &&& after == before.failed_closed(owner)
        } else {
            &&& result == (FixedCapRemoveResult::InternalInvariantViolation {
                recovery: FixedCapRemoveRecovery::PreviousRestored,
            })
            &&& after == before
        }
    } else {
        &&& after == before.without(owner)
        &&& result matches FixedCapRemoveResult::Removed { physical_removed }
        &&& ordered::lists(physical_removed@, removed)
    }
}

/// What touching a group does.
pub open spec fn touch_outcome(
    before: AdmissionView,
    faults: FaultSwitches,
    owner: ExplicitOwner,
    result: TouchResult,
    after: AdmissionView,
) -> bool {
    if !before.groups.dom().contains(owner) {
        result is NotFound && after == before
    } else if !before.stamps.dom().contains(owner) {
        result is InternalInvariantViolation && after == before.failed_closed(owner)
    } else if !before.can_stamp(faults, owner) {
        result is InternalInvariantViolation && after == before
    } else {
        result is Touched && after == before.committed(owner, before.groups[owner])
    }
}

/// The stamps as entries, by owner.
pub open spec fn lru_entries(stamps: Stamps) -> Seq<OwnerLruEntry> {
    ordered::in_order(stamps.dom()).map_values(
        |o: ExplicitOwner| OwnerLruEntry { owner: o, last_touch: stamps[o] },
    )
}

/// Fixed-cap admission over explicit ownership.
#[derive(Debug, Clone)]
pub struct FixedCapAdmission {
    cap: usize,
    physical_len: usize,
    ownership: ExplicitOwnership,
    owner_lru: OrderedMap<ExplicitOwner, u64>,
    next_touch_stamp: u64,
    planning_stats: PlanningStats,
    faults: FaultSwitches,
}

/// A planned insertion.
struct InsertPlan {
    pre_len: usize,
    projected_final_len: usize,
    physical_added: Vec<Pubkey>,
}

/// A planned replacement.
struct ReplacePlan {
    pre_len: usize,
    projected_final_len: usize,
    old_normalized: Vec<Pubkey>,
    physical_added: Vec<Pubkey>,
    physical_removed: Vec<Pubkey>,
}

/// A planned removal.
struct RemovePlan {
    pre_len: usize,
    projected_final_len: usize,
    old_normalized: Vec<Pubkey>,
    physical_removed: Vec<Pubkey>,
    old_refcounts: Vec<usize>,
}

enum InsertPlanOutcome {
    Ready(InsertPlan),
    RejectCap { required_unique: usize, available_unique: usize },
}

enum ReplacePlanOutcome {
    Ready(ReplacePlan),
    RejectCap { required_unique: usize, available_unique: usize },
}

impl View for FixedCapAdmission {
    type V = AdmissionView;

    closed spec fn view(&self) -> AdmissionView {
        AdmissionView {
            cap: self.cap,
            groups: self.ownership@,
            stamps: self.owner_lru@,
            next: self.next_touch_stamp,
        }
    }
}

impl FixedCapAdmission {
    /// The length is counted right and within the cap.
    pub closed spec fn wf(&self) -> bool {
        &&& self.ownership.wf()
        &&& self.owner_lru.wf()
        &&& self.physical_len == owner_index::physical(self.ownership@).len()
        &&& self.physical_len <= self.cap
    }

    pub closed spec fn switches(&self) -> FaultSwitches {
        self.faults
    }

    pub closed spec fn stats(&self) -> PlanningStats {
        self.planning_stats
    }

    /// At most `cap` addresses are tracked, in every reachable state.
    pub proof fn len_within_cap(&self)
        requires
            self.wf(),
        ensures
            self@.len() <= self@.cap,
            owner_index::groups_ok(self@.groups),
            self@.stamps.dom().finite(),
    {
        self.ownership.lemma_wf();
        self.owner_lru.lemma_view();
    }

    pub fn new(cap: usize) -> (r: Self)
        ensures
            r.wf(),
            r@ == (AdmissionView {
                cap,
                groups: Map::empty(),
                stamps: Map::empty(),
                next: 1,
            }),
            r@.in_sync(),
            r@.stamps_distinct(),
            r.switches().all_off(),
            r.stats() == (PlanningStats {
                refcount_lookups: 0,
                owner_group_lookups: 0,
                eviction_candidate_builds: 0,
                eviction_candidate_group_edges: 0,
            }),
    {
        let ownership = ExplicitOwnership::new();
        proof {
            assert(owner_index::physical(ownership@) =~= Set::empty());
        }
        FixedCapAdmission {
            cap,
            physical_len: 0,
            ownership,
            owner_lru: OrderedMap::new(),
            next_touch_stamp: 1,
            planning_stats: PlanningStats {
                refcount_lookups: 0,
                owner_group_lookups: 0,
                eviction_candidate_builds: 0,
                eviction_candidate_group_edges: 0,
            },
            faults: FaultSwitches::off(),
        }
    }

    pub fn cap(&self) -> (r: usize)
        ensures
            r == self@.cap,
    {
        self.cap
    }

    /// Number of tracked addresses.
    pub fn len(&self) -> (r: usize)
        requires
            self.wf(),
        ensures
            r == self@.len(),
    {
        self.physical_len
    }

    pub fn is_empty(&self) -> (r: bool)
        requires
            self.wf(),
        ensures
            r == (self@.len() == 0),
    {
        self.physical_len == 0
    }

    pub fn snapshot_pubkeys(&self) -> (r: Vec<Pubkey>)
        requires
            self.wf(),
        ensures
            ordered::lists(r@, owner_index::physical(self@.groups)),
    {
        self.ownership.snapshot_pubkeys()
    }

    pub fn snapshot_owner_groups(&self) -> (r: Vec<OwnerGroupSnapshot>)
        requires
            self.wf(),
        ensures
            explicit_ownership::snapshots_list(r@, self@.groups),
    {
        self.ownership.snapshot_owner_groups()
    }

    pub fn owner_group(&self, owner: &ExplicitOwner) -> (r: Option<&[Pubkey]>)
        requires
            self.wf(),
        ensures
            match r {
                Some(keys) => self@.groups.dom().contains(*owner) && keys@ == self@.groups[*owner],
                None => !self@.groups.dom().contains(*owner),
            },
    {
        self.ownership.owner_group(owner)
    }

    pub fn owner_refcount(&self, pubkey: &Pubkey) -> (n: usize)
        requires
            self.wf(),
        ensures
            n == owner_index::owners_of(self@.groups, *pubkey).len(),
    {
        self.ownership.owner_refcount(pubkey)
    }

    /// Whether `pubkey` is tracked.
    pub fn contains(&self, pubkey: &Pubkey) -> (r: bool)
        requires
            self.wf(),
        ensures
            r == owner_index::physical(self@.groups).contains(*pubkey),
    {
        self.ownership.contains(pubkey)
    }

    /// The stamps, by owner.
    pub fn snapshot_lru_entries(&self) -> (r: Vec<OwnerLruEntry>)
        requires
            self.wf(),
        ensures
            r@ =~= lru_entries(self@.stamps),
    {
        lru_entries_of(&self.owner_lru)
    }

    pub fn last_touch(&self, owner: &ExplicitOwner) -> (r: Option<u64>)
        requires
            self.wf(),
        ensures
            r == if self@.stamps.dom().contains(*owner) {
                Some(self@.stamps[*owner])
            } else {
                None
            },
    {
        match self.owner_lru.get(owner) {
            Some(stamp) => Some(*stamp),
            None => None,
        }
    }

    pub fn planning_stats(&self) -> (r: &PlanningStats)
        ensures
            *r == self.stats(),
    {
        &self.planning_stats
    }

    /// The next stamp to be assigned.
    pub fn test_next_touch_stamp(&self) -> (r: u64)
        ensures
            r == self@.next,
    {
        self.next_touch_stamp
    }

    /// The stamps of the owners.
    pub fn test_owner_stamps(&self) -> (r: OrderedMap<ExplicitOwner, u64>)
        requires
            self.wf(),
        ensures
            r.wf(),
            r@ == self@.stamps,
    {
        self.owner_lru.duplicate()
    }

    fn count_owner_lookup(&mut self)
        ensures
            final(self).cap == old(self).cap,
            final(self).physical_len == old(self).physical_len,
            final(self).ownership == old(self).ownership,
            final(self).owner_lru == old(self).owner_lru,
            final(self).next_touch_stamp == old(self).next_touch_stamp,
            final(self).faults == old(self).faults,
            final(self).planning_stats == (PlanningStats {
                owner_group_lookups: eviction_model::saturated(
                    old(self).planning_stats.owner_group_lookups,
                    1,
                ),
                ..old(self).planning_stats
            }),
    {
        self.planning_stats.owner_group_lookups =
        self.planning_stats.owner_group_lookups.saturating_add(1);
    }

    fn count_refcount_lookups(&mut self, n: usize)
        ensures
            final(self).cap == old(self).cap,
            final(self).physical_len == old(self).physical_len,
            final(self).ownership == old(self).ownership,
            final(self).owner_lru == old(self).owner_lru,
            final(self).next_touch_stamp == old(self).next_touch_stamp,
            final(self).faults == old(self).faults,
            final(self).planning_stats == (PlanningStats {
                refcount_lookups: eviction_model::saturated(
                    old(self).planning_stats.refcount_lookups,
                    n as int,
                ),
                ..old(self).planning_stats
            }),
    {
        self.planning_stats.refcount_lookups =
        self.planning_stats.refcount_lookups.saturating_add(n as u64);
    }
}

/// The stamps as entries, by owner.
fn lru_entries_of(owner_lru: &OrderedMap<ExplicitOwner, u64>) -> (r: Vec<OwnerLruEntry>)
    requires
        owner_lru.wf(),
    ensures
        r@ =~= lru_entries(owner_lru@),
{
    proof {
        owner_lru.lemma_view();
        ordered::lemma_in_order(owner_lru.keys@, owner_lru@.dom());
    }
    let mut out: Vec<OwnerLruEntry> = Vec::new();
    let mut i: usize = 0;
    while i < owner_lru.keys.len()
        invariant
            owner_lru.wf(),
            owner_lru.keys@ == ordered::in_order(owner_lru@.dom()),
            0 <= i <= owner_lru.keys@.len(),
            out@ =~= lru_entries(owner_lru@).take(i as int),
        decreases owner_lru.keys@.len() - i,
    {
        proof {
            owner_lru.lemma_view();
        }
        out.push(OwnerLruEntry { owner: owner_lru.keys[i], last_touch: owner_lru.values[i] });
        i = i + 1;
    }
    out
}

proof fn lemma_subset_len(groups: Groups, smaller: Groups)
    requires
        groups.dom().finite(),
        smaller.dom().subset_of(groups.dom()),
        forall|o: ExplicitOwner| #[trigger] smaller.dom().contains(o) ==> smaller[o] == groups[o],
    ensures
        owner_index::physical(smaller).len() <= owner_index::physical(groups).len(),
{
    owner_index::lemma_physical_finite(groups);
    assert forall|pk: Pubkey| owner_index::physical(smaller).contains(pk) implies
        owner_index::physical(groups).contains(pk) by {
        let o = choose|o: ExplicitOwner|
            smaller.dom().contains(o) && #[trigger] smaller[o].contains(pk);
        assert(groups.dom().contains(o) && groups[o].contains(pk));
    }
    vstd::set_lib::lemma_len_subset(
        owner_index::physical(smaller),
        owner_index::physical(groups),
    );
}

/// What setting a group does to the tracked addresses.
pub proof fn lemma_set_group(view: AdmissionView, owner: ExplicitOwner, keys: Seq<Pubkey>)
    requires
        view.groups.dom().finite(),
        keys.len() > 0,
    ensures
        ({
            let after = view.groups.insert(owner, ordered::in_order(keys.to_set()));
            let lost = if view.groups.dom().contains(owner) {
                view.released(owner, keys)
            } else {
                Set::empty()
            };
            &&& owner_index::newly_physical(view.groups, after) =~= view.fresh(keys)
            &&& owner_index::newly_physical(after, view.groups) =~= lost
            &&& owner_index::physical(after).len() == view.len() - lost.len() + view.fresh(
                keys,
            ).len()
            &&& lost.finite()
            &&& lost.len() <= view.len()
            &&& view.fresh(keys).finite()
            &&& ordered::lists(ordered::in_order(keys.to_set()), keys.to_set())
            &&& ordered::in_order(keys.to_set()).len() > 0
        }),
{
    let groups = view.groups;
    let wanted = keys.to_set();
    vstd::seq_lib::seq_to_set_is_finite(keys);
    ordered::lemma_in_order_lists(wanted);
    let listing = ordered::in_order(wanted);
    assert(listing.len() > 0) by {
        assert(wanted.contains(keys[0]));
        if listing.len() == 0 {
            assert(listing.to_set().contains(keys[0]));
        }
    }
    let after = groups.insert(owner, listing);
    let gone = if groups.dom().contains(owner) {
        set![owner]
    } else {
        Set::empty()
    };
    let lost = if groups.dom().contains(owner) {
        view.released(owner, keys)
    } else {
        Set::empty()
    };
    eviction_model::lemma_physical_replaced(groups, gone, owner, listing);
    assert(groups.remove_keys(gone).insert(owner, listing) =~= after);
    let freed = eviction_model::freed(groups, gone, wanted);
    assert forall|pk: Pubkey| freed.contains(pk) == lost.contains(pk) by {
        let owners = owner_index::owners_of(groups, pk);
        owner_index::lemma_physical_owner(groups, pk);
        assert(owners.subset_of(groups.dom()));
        vstd::set_lib::lemma_len_subset(owners, groups.dom());
        if freed.contains(pk) {
            assert(!(owners =~= Set::<ExplicitOwner>::empty()));
            let o = choose|o: ExplicitOwner| owners.contains(o);
            assert(gone.contains(o));
            assert(owners =~= set![owner]);
            assert(owners.len() == 1);
            assert(groups[owner].contains(pk));
        }
        if lost.contains(pk) {
            assert(owners.contains(owner));
            assert(owners.remove(owner).len() == 0);
            assert(owners.remove(owner) =~= Set::empty());
            assert forall|o: ExplicitOwner| owners.contains(o) implies gone.contains(o) by {
                if o != owner {
                    assert(owners.remove(owner).contains(o));
                }
            }
        }
    }
    assert(freed =~= lost);
    eviction_model::lemma_freed_finite(groups, gone, wanted);
    assert(owner_index::newly_physical(groups, after) =~= view.fresh(keys));
    assert forall|pk: Pubkey| owner_index::newly_physical(after, groups).contains(pk)
        == lost.contains(pk) by {
        assert(lost.contains(pk) == freed.contains(pk));
        if freed.contains(pk) {
            assert(!wanted.contains(pk));
        }
    }
}

/// What removing a group does to the tracked addresses.
pub proof fn lemma_drop_group(view: AdmissionView, owner: ExplicitOwner)
    requires
        view.groups.dom().finite(),
        view.groups.dom().contains(owner),
    ensures
        ({
            let after = view.groups.remove(owner);
            let lost = view.released(owner, Seq::empty());
            &&& owner_index::physical(after).len() == view.len() - lost.len()
            &&& lost.finite()
            &&& lost.len() <= view.len()
            &&& owner_index::newly_physical(after, view.groups) =~= lost
        }),
{
    let groups = view.groups;
    let gone = set![owner];
    let lost = view.released(owner, Seq::empty());
    let freed = eviction_model::freed(groups, gone, Set::empty());
    eviction_model::lemma_physical_without_len(groups, gone);
    eviction_model::lemma_physical_without(groups, gone);
    assert(groups.remove_keys(gone) =~= groups.remove(owner));
    eviction_model::lemma_freed_finite(groups, gone, Set::empty());
    assert forall|pk: Pubkey| freed.contains(pk) == lost.contains(pk) by {
        let owners = owner_index::owners_of(groups, pk);
        owner_index::lemma_physical_owner(groups, pk);
        assert(owners.subset_of(groups.dom()));
        vstd::set_lib::lemma_len_subset(owners, groups.dom());
        if freed.contains(pk) {
            assert(!(owners =~= Set::<ExplicitOwner>::empty()));
            let o = choose|o: ExplicitOwner| owners.contains(o);
            assert(gone.contains(o));
            assert(owners =~= set![owner]);
            assert(owners.len() == 1);
            assert(groups[owner].contains(pk));
        }
        if lost.contains(pk) {
            assert(owners.contains(owner));
            assert(owners.remove(owner).len() == 0);
            assert(owners.remove(owner) =~= Set::empty());
            assert forall|o: ExplicitOwner| owners.contains(o) implies gone.contains(o) by {
                if o != owner {
                    assert(owners.remove(owner).contains(o));
                }
            }
        }
    }
    assert(freed =~= lost);
    assert forall|pk: Pubkey| owner_index::newly_physical(
        groups.remove(owner),
        groups,
    ).contains(pk) == lost.contains(pk) by {
        if freed.contains(pk) {
            assert(owner_index::physical(groups).contains(pk));
        }
    }
}

/// A planned list, with a repetition added when a mismatch is forced.
fn expected_at_commit(planned: &[Pubkey], force_mismatch: bool) -> (r: Vec<Pubkey>)
    ensures
        r@ == if force_mismatch && planned@.len() > 0 {
            planned@.push(planned@[0])
        } else {
            planned@
        },
{
    let mut expected = ordered::copy_keys(planned);
    if force_mismatch && planned.len() > 0 {
        expected.push(planned[0]);
    }
    expected
}

fn new_group_matches_plan(change: &GroupChange, expected_physical_added: &[Pubkey]) -> (r: bool)
    ensures
        r == (change matches GroupChange::NewGroup { physical_added } && physical_added@
            =~= expected_physical_added@),
{
    match change {
        GroupChange::NewGroup { physical_added } => ordered::same_keys(
            physical_added.as_slice(),
            expected_physical_added,
        ),
        GroupChange::Unchanged | GroupChange::Replaced { .. } => false,
    }
}

fn replaced_group_matches_plan(
    change: &GroupChange,
    expected_physical_added: &[Pubkey],
    expected_physical_removed: &[Pubkey],
) -> (r: bool)
    ensures
        r == (change matches GroupChange::Replaced { physical_added, physical_removed }
            && physical_added@ =~= expected_physical_added@ && physical_removed@
            =~= expected_physical_removed@),
{
    match change {
        GroupChange::Replaced { physical_added, physical_removed } => ordered::same_keys(
            physical_added.as_slice(),
            expected_physical_added,
        ) && ordered::same_keys(physical_removed.as_slice(), expected_physical_removed),
        GroupChange::NewGroup { .. } | GroupChange::Unchanged => false,
    }
}

/// Whether `group` is present and lists exactly `keys`.
fn group_is(group: Option<&[Pubkey]>, keys: &[Pubkey]) -> (r: bool)
    ensures
        r == (group is Some && group->0@ =~= keys@),
{
    match group {
        Some(present) => ordered::same_keys(present, keys),
        None => false,
    }
}

impl FixedCapAdmission {
    /// Everything but groups, stamps, counters and length is the same.
    spec fn same_shell(&self, other: &Self) -> bool {
        &&& self.cap == other.cap
        &&& self.faults == other.faults
    }

    /// Drops groups without a stamp and stamps without a group, and counts again.
    fn reconcile_cold(&mut self)
        requires
            old(self).ownership.wf(),
            old(self).owner_lru.wf(),
        ensures
            final(self).ownership.wf(),
            final(self).owner_lru.wf(),
            final(self).same_shell(old(self)),
            final(self).next_touch_stamp == old(self).next_touch_stamp,
            final(self).planning_stats == old(self).planning_stats,
            final(self).ownership@ =~= old(self).ownership@.restrict(
                old(self).ownership@.dom().intersect(old(self).owner_lru@.dom()),
            ),
            final(self).owner_lru@ =~= old(self).owner_lru@.restrict(
                old(self).ownership@.dom().intersect(old(self).owner_lru@.dom()),
            ),
            final(self).physical_len == owner_index::physical(final(self).ownership@).len(),
    {
        let ghost groups = self.ownership@;
        let ghost stamps = self.owner_lru@;
        let stamped = ordered::copy_keys(self.owner_lru.keys.as_slice());
        proof {
            self.owner_lru.lemma_view();
        }
        let mut i: usize = 0;
        while i < stamped.len()
            invariant
                self.same_shell(old(self)),
                self.next_touch_stamp == old(self).next_touch_stamp,
                self.planning_stats == old(self).planning_stats,
                self.ownership.wf(),
                self.ownership@ == groups,
                self.owner_lru.wf(),
                stamped@.to_set() =~= stamps.dom(),
                0 <= i <= stamped@.len(),
                forall|o: ExplicitOwner| #[trigger]
                    self.owner_lru@.dom().contains(o) <==> stamps.dom().contains(o) && (
                    groups.dom().contains(o) || !stamped@.take(i as int).to_set().contains(o)),
                forall|o: ExplicitOwner| #[trigger]
                    self.owner_lru@.dom().contains(o) ==> self.owner_lru@[o] == stamps[o],
            decreases stamped@.len() - i,
        {
            proof {
                ordered::lemma_take_step(stamped@, i as int);
                assert(stamped@.to_set().contains(stamped@[i as int]));
            }
            if !self.ownership.contains_owner(&stamped[i]) {
                let _ = self.owner_lru.remove(&stamped[i]);
            }
            i = i + 1;
        }
        proof {
            assert(stamped@.take(i as int) =~= stamped@);
        }
        let owners = self.ownership.owners();
        let mut k: usize = 0;
        while k < owners.len()
            invariant
                self.same_shell(old(self)),
                self.next_touch_stamp == old(self).next_touch_stamp,
                self.planning_stats == old(self).planning_stats,
                self.ownership.wf(),
                self.owner_lru.wf(),
                self.owner_lru@ =~= stamps.restrict(groups.dom().intersect(stamps.dom())),
                owners@.to_set() =~= groups.dom(),
                0 <= k <= owners@.len(),
                forall|o: ExplicitOwner| #[trigger]
                    self.ownership@.dom().contains(o) <==> groups.dom().contains(o) && (
                    stamps.dom().contains(o) || !owners@.take(k as int).to_set().contains(o)),
                forall|o: ExplicitOwner| #[trigger]
                    self.ownership@.dom().contains(o) ==> self.ownership@[o] == groups[o],
            decreases owners@.len() - k,
        {
            proof {
                ordered::lemma_take_step(owners@, k as int);
                assert(owners@.to_set().contains(owners@[k as int]));
            }
            if !self.owner_lru.contains_key(&owners[k]) {
                let _ = self.ownership.remove_group(&owners[k]);
            }
            k = k + 1;
        }
        proof {
            assert(owners@.take(k as int) =~= owners@);
        }
        self.physical_len = self.ownership.len();
    }

    /// Removes the owner and reduces the state to owners with both a group and a stamp.
    fn fail_closed_remove_owner(&mut self, owner: &ExplicitOwner)
        requires
            old(self).ownership.wf(),
            old(self).owner_lru.wf(),
        ensures
            final(self).ownership.wf(),
            final(self).owner_lru.wf(),
            final(self).same_shell(old(self)),
            final(self).planning_stats == old(self).planning_stats,
            final(self)@ =~= old(self)@.failed_closed(*owner),
            final(self).physical_len == owner_index::physical(final(self).ownership@).len(),
    {
        let ghost before = self@;
        let _ = self.ownership.remove_group(owner);
        let _ = self.owner_lru.remove(owner);
        self.reconcile_cold();
        proof {
            let kept = before.groups.dom().intersect(before.stamps.dom()).remove(*owner);
            let inner = before.groups.remove(*owner).dom().intersect(
                before.stamps.remove(*owner).dom(),
            );
            assert(inner =~= kept);
            assert(before.groups.remove(*owner).restrict(inner) =~= before.groups.restrict(kept));
            assert(before.stamps.remove(*owner).restrict(inner) =~= before.stamps.restrict(kept));
        }
    }

    proof fn lemma_failed_closed_fits(&self, owner: ExplicitOwner)
        requires
            self.wf(),
        ensures
            owner_index::physical(self@.failed_closed(owner).groups).len() <= self.cap,
    {
        self.ownership.lemma_wf();
        lemma_subset_len(self@.groups, self@.failed_closed(owner).groups);
    }

    /// The stamps and counter with `owner` touched.
    fn plan_stamp(&self, owner: &ExplicitOwner) -> (r: Option<
        (OrderedMap<ExplicitOwner, u64>, u64),
    >)
        requires
            self.owner_lru.wf(),
        ensures
            match r {
                Some((map, next)) => {
                    &&& map.wf()
                    &&& self@.can_stamp(self.faults, *owner)
                    &&& touch_stamps::stamp_assigned(
                        self.owner_lru@,
                        self.next_touch_stamp,
                        *owner,
                    ) == Some((map@, next))
                },
                None => !self@.can_stamp(self.faults, *owner),
            },
    {
        if self.faults.stamp_plan_failure {
            return None;
        }
        touch_stamps::plan_stamp_assign(&self.owner_lru, self.next_touch_stamp, owner)
    }

    /// Makes the group of `owner` the most recently touched one.
    pub fn touch_group(&mut self, owner: ExplicitOwner) -> (r: TouchResult)
        requires
            old(self).wf(),
        ensures
            final(self).wf(),
            final(self).switches() == old(self).switches(),
            final(self).stats() == old(self).stats(),
            touch_outcome(old(self)@, old(self).switches(), owner, r, final(self)@),
    {
        if !self.ownership.contains_owner(&owner) {
            return TouchResult::NotFound;
        }
        if !self.owner_lru.contains_key(&owner) {
            proof {
                self.lemma_failed_closed_fits(owner);
            }
            self.fail_closed_remove_owner(&owner);
            return TouchResult::InternalInvariantViolation;
        }
        match self.plan_stamp(&owner) {
            None => TouchResult::InternalInvariantViolation,
            Some((map, next)) => {
                self.owner_lru = map;
                self.next_touch_stamp = next;
                proof {
                    assert(old(self)@.groups.insert(owner, old(self)@.groups[owner])
                        =~= old(self)@.groups);
                }
                TouchResult::Touched
            },
        }
    }

    fn plan_insert_readonly(&self, normalized: &[Pubkey]) -> (r: InsertPlanOutcome)
        requires
            self.wf(),
            ordered::sorted(normalized@),
        ensures
            match r {
                InsertPlanOutcome::Ready(plan) => {
                    &&& self@.len() + self@.fresh(normalized@).len() <= self.cap
                    &&& plan.pre_len == self.physical_len
                    &&& plan.projected_final_len == self@.len() + self@.fresh(normalized@).len()
                    &&& ordered::lists(plan.physical_added@, self@.fresh(normalized@))
                },
                InsertPlanOutcome::RejectCap { required_unique, available_unique } => {
                    &&& self@.len() + self@.fresh(normalized@).len() > self.cap
                    &&& required_unique == self@.fresh(normalized@).len()
                    &&& available_unique == self.cap - self@.len()
                },
            },
    {
        let pre_len: usize = self.physical_len;
        let physical_added = self.untracked(normalized);
        proof {
            ordered::lemma_sorted_no_duplicates(physical_added@);
        }
        let required_unique: usize = physical_added.len();
        let available_unique: usize = self.cap - pre_len;
        if required_unique > available_unique {
            return InsertPlanOutcome::RejectCap { required_unique, available_unique };
        }
        InsertPlanOutcome::Ready(
            InsertPlan { pre_len, projected_final_len: pre_len + required_unique, physical_added },
        )
    }

    /// The keys without an owner.
    fn untracked(&self, keys: &[Pubkey]) -> (r: Vec<Pubkey>)
        requires
            self.wf(),
            ordered::sorted(keys@),
        ensures
            ordered::lists(r@, self@.fresh(keys@)),
    {
        let ghost present = owner_index::physical(self@.groups);
        let mut out: Vec<Pubkey> = Vec::new();
        let mut i: usize = 0;
        while i < keys.len()
            invariant
                self.wf(),
                present == owner_index::physical(self@.groups),
                0 <= i <= keys@.len(),
                ordered::lists(out@, keys@.take(i as int).to_set().difference(present)),
            decreases keys@.len() - i,
        {
            proof {
                ordered::lemma_take_step(keys@, i as int);
                self.ownership.lemma_wf();
                explicit_ownership::refcount_zero_iff_untracked(self@.groups, keys@[i as int]);
            }
            if self.ownership.owner_refcount(&keys[i]) == 0 {
                let _ = ordered::add_key(&mut out, keys[i]);
            }
            i = i + 1;
        }
        proof {
            assert(keys@.take(i as int) =~= keys@);
        }
        out
    }

    /// Inserts the group of an owner without one, if it fits the cap.
    pub fn try_admit_new_group(&mut self, owner: ExplicitOwner, pubkeys: Vec<Pubkey>) -> (r:
        FixedCapAdmissionResult)
        requires
            old(self).wf(),
        ensures
            final(self).wf(),
            final(self).switches() == old(self).switches(),
            insert_outcome(old(self)@, old(self).switches(), owner, pubkeys@, r, final(self)@),
            final(self).stats() == insert_counted(old(self)@, old(self).stats(), owner, pubkeys@),
    {
        let normalized = ordered::normalize(pubkeys.as_slice());
        if normalized.len() == 0 {
            return FixedCapAdmissionResult::RejectedInvalidGroup;
        }
        proof {
            self.ownership.lemma_wf();
            lemma_normalized(pubkeys@, normalized@);
            lemma_set_group(self@, owner, pubkeys@);
        }
        self.count_owner_lookup();
        if self.ownership.contains_owner(&owner) {
            return FixedCapAdmissionResult::RejectedExistingOwner;
        }
        let outcome = self.plan_insert_readonly(normalized.as_slice());
        self.count_refcount_lookups(normalized.len());
        let plan = match outcome {
            InsertPlanOutcome::RejectCap { required_unique, available_unique } => {
                return FixedCapAdmissionResult::RejectedCap { required_unique, available_unique };
            },
            InsertPlanOutcome::Ready(plan) => plan,
        };
        let (owner_lru, next_touch_stamp) = match self.plan_stamp(&owner) {
            None => {
                return FixedCapAdmissionResult::InternalInvariantViolation;
            },
            Some(planned) => planned,
        };
        let expected = expected_at_commit(
            plan.physical_added.as_slice(),
            self.faults.commit_plan_mismatch,
        );
        proof {
            ordered::lemma_sorted_no_duplicates(plan.physical_added@);
            ordered::lemma_in_order(plan.physical_added@, self@.fresh(pubkeys@));
        }
        let change = match self.ownership.upsert_group(
            owner,
            ordered::copy_keys(normalized.as_slice()),
        ) {
            Ok(change) => change,
            Err(_) => {
                return FixedCapAdmissionResult::RejectedInvalidGroup;
            },
        };
        if !new_group_matches_plan(&change, expected.as_slice()) {
            proof {
                assert(self.ownership@.remove(owner) =~= old(self)@.groups);
            }
            return self.rollback_failed_insert(&owner, plan.pre_len, normalized.as_slice());
        }
        self.physical_len = plan.projected_final_len;
        self.owner_lru = owner_lru;
        self.next_touch_stamp = next_touch_stamp;
        if plan.physical_added.len() == 0 {
            FixedCapAdmissionResult::OwnerAddedNoNewPubkey
        } else {
            FixedCapAdmissionResult::Inserted { physical_added: plan.physical_added }
        }
    }

    /// Takes an inserted group out again.
    fn rollback_failed_insert(
        &mut self,
        owner: &ExplicitOwner,
        pre_len: usize,
        normalized: &[Pubkey],
    ) -> (r: FixedCapAdmissionResult)
        requires
            old(self).ownership.wf(),
            old(self).owner_lru.wf(),
            old(self).ownership@.dom().contains(*owner),
            old(self).ownership@[*owner] == normalized@,
        ensures
            r is InternalInvariantViolation,
            final(self).ownership.wf(),
            final(self).owner_lru == old(self).owner_lru,
            final(self).same_shell(old(self)),
            final(self).next_touch_stamp == old(self).next_touch_stamp,
            final(self).planning_stats == old(self).planning_stats,
            final(self).ownership@ =~= old(self).ownership@.remove(*owner),
            final(self).physical_len == pre_len,
    {
        match self.ownership.remove_group(owner) {
            Some(snapshot) => {
                if ordered::same_keys(snapshot.pubkeys.as_slice(), normalized) {
                    self.physical_len = pre_len;
                    if self.ownership.contains_owner(owner) {
                        self.reconcile_cold();
                    }
                } else {
                    self.reconcile_cold();
                }
            },
            None => {
                self.reconcile_cold();
            },
        }
        FixedCapAdmissionResult::InternalInvariantViolation
    }
}

proof fn lemma_normalized(keys: Seq<Pubkey>, normalized: Seq<Pubkey>)
    requires
        ordered::lists(normalized, keys.to_set()),
        normalized.len() > 0,
    ensures
        keys.len() > 0,
        normalized == ordered::in_order(keys.to_set()),
        ordered::in_order(normalized.to_set()) == normalized,
        normalized.to_set() == keys.to_set(),
{
    ordered::lemma_in_order(normalized, keys.to_set());
    ordered::lemma_in_order(normalized, normalized.to_set());
    assert(normalized.to_set().contains(normalized[0]));
}

/// The counters after an insertion.
pub open spec fn insert_counted(
    before: AdmissionView,
    stats: PlanningStats,
    owner: ExplicitOwner,
    keys: Seq<Pubkey>,
) -> PlanningStats {
    if keys.len() == 0 {
        stats
    } else if before.groups.dom().contains(owner) {
        PlanningStats {
            owner_group_lookups: eviction_model::saturated(stats.owner_group_lookups, 1),
            ..stats
        }
    } else {
        PlanningStats {
            owner_group_lookups: eviction_model::saturated(stats.owner_group_lookups, 1),
            refcount_lookups: eviction_model::saturated(
                stats.refcount_lookups,
                ordered::in_order(keys.to_set()).len() as int,
            ),
            ..stats
        }
    }
}

/// The keys of exactly one of two groups.
pub open spec fn differing(a: Seq<Pubkey>, b: Seq<Pubkey>) -> nat {
    a.to_set().difference(b.to_set()).len() + b.to_set().difference(a.to_set()).len()
}

/// The counters after a replacement.
pub open spec fn replace_counted(
    before: AdmissionView,
    stats: PlanningStats,
    owner: ExplicitOwner,
    keys: Seq<Pubkey>,
) -> PlanningStats {
    let listing = ordered::in_order(keys.to_set());
    if keys.len() == 0 {
        stats
    } else if !before.groups.dom().contains(owner) || !before.stamps.dom().contains(owner)
        || before.groups[owner] == listing {
        PlanningStats {
            owner_group_lookups: eviction_model::saturated(stats.owner_group_lookups, 1),
            ..stats
        }
    } else {
        PlanningStats {
            owner_group_lookups: eviction_model::saturated(stats.owner_group_lookups, 1),
            refcount_lookups: eviction_model::saturated(
                stats.refcount_lookups,
                differing(before.groups[owner], listing) as int,
            ),
            ..stats
        }
    }
}

/// The counters after a removal.
pub open spec fn remove_counted(
    before: AdmissionView,
    faults: FaultSwitches,
    stats: PlanningStats,
    owner: ExplicitOwner,
) -> PlanningStats {
    if !before.groups.dom().contains(owner) || !before.stamps.dom().contains(owner) {
        PlanningStats {
            owner_group_lookups: eviction_model::saturated(stats.owner_group_lookups, 1),
            ..stats
        }
    } else {
        PlanningStats {
            owner_group_lookups: eviction_model::saturated(stats.owner_group_lookups, 1),
            refcount_lookups: eviction_model::saturated(
                stats.refcount_lookups,
                if faults.remove_planning_zero_refcount {
                    1
                } else {
                    before.groups[owner].len() as int
                },
            ),
            ..stats
        }
    }
}

/// Set differences of growing prefixes.
proof fn lemma_prefix_difference(s: Seq<Pubkey>, other: Set<Pubkey>, i: int)
    requires
        ordered::sorted(s),
        0 <= i < s.len(),
    ensures
        s.take(i).to_set().difference(other).finite(),
        s.take(i + 1).to_set().difference(other).finite(),
        s.take(i + 1).to_set().difference(other).len() == s.take(i).to_set().difference(
            other,
        ).len() + if other.contains(s[i]) {
            0nat
        } else {
            1nat
        },
{
    let before = s.take(i).to_set();
    ordered::lemma_take_step(s, i);
    vstd::seq_lib::seq_to_set_is_finite(s.take(i));
    assert(!before.contains(s[i])) by {
        if before.contains(s[i]) {
            let p = choose|p: int| 0 <= p < i && s.take(i)[p] == s[i];
            assert(s[p].rank() < s[i].rank());
        }
    }
    if other.contains(s[i]) {
        assert(before.insert(s[i]).difference(other) =~= before.difference(other));
    } else {
        assert(before.insert(s[i]).difference(other) =~= before.difference(other).insert(s[i]));
    }
}

impl FixedCapAdmission {
    /// Compares the old and the new group key by key.
    #[verifier::rlimit(40)]
    fn plan_replace(&self, owner: &ExplicitOwner, old_keys: &[Pubkey], new_keys: &[Pubkey]) -> (r: (
        ReplacePlanOutcome,
        u64,
    ))
        requires
            self.wf(),
            self@.groups.dom().contains(*owner),
            old_keys@ == self@.groups[*owner],
            ordered::sorted(new_keys@),
            new_keys@.len() > 0,
        ensures
            r.1 == eviction_model::saturated(0, differing(old_keys@, new_keys@) as int),
            match r.0 {
                ReplacePlanOutcome::Ready(plan) => {
                    &&& self@.len() + self@.fresh(new_keys@).len() <= self.cap + self@.released(
                        *owner,
                        new_keys@,
                    ).len()
                    &&& plan.pre_len == self.physical_len
                    &&& plan.projected_final_len == self@.len() + self@.fresh(new_keys@).len()
                        - self@.released(*owner, new_keys@).len()
                    &&& plan.old_normalized@ == old_keys@
                    &&& ordered::lists(plan.physical_added@, self@.fresh(new_keys@))
                    &&& ordered::lists(plan.physical_removed@, self@.released(*owner, new_keys@))
                },
                ReplacePlanOutcome::RejectCap { required_unique, available_unique } => {
                    &&& self@.len() + self@.fresh(new_keys@).len() > self.cap + self@.released(
                        *owner,
                        new_keys@,
                    ).len()
                    &&& required_unique == self@.fresh(new_keys@).len()
                    &&& available_unique == self.cap - self@.len() + self@.released(
                        *owner,
                        new_keys@,
                    ).len()
                },
            },
    {
        let ghost groups = self@.groups;
        let ghost old_set = old_keys@.to_set();
        let ghost new_set = new_keys@.to_set();
        let ghost released = self@.released(*owner, new_keys@);
        let ghost fresh = self@.fresh(new_keys@);
        let pre_len: usize = self.physical_len;
        let mut physical_removed: Vec<Pubkey> = Vec::new();
        let mut physical_added: Vec<Pubkey> = Vec::new();
        let mut lookups: u64 = 0;
        let mut old_idx: usize = 0;
        let mut new_idx: usize = 0;
        proof {
            self.ownership.lemma_wf();
            lemma_set_group(self@, *owner, new_keys@);
            assert(old_keys@.take(0).to_set().difference(new_set) =~= Set::empty());
            assert(new_keys@.take(0).to_set().difference(old_set) =~= Set::empty());
        }
        while old_idx < old_keys.len() || new_idx < new_keys.len()
            invariant
                self.wf(),
                groups == self@.groups,
                owner_index::groups_ok(groups),
                groups.dom().contains(*owner),
                old_keys@ == groups[*owner],
                ordered::sorted(old_keys@),
                ordered::sorted(new_keys@),
                old_set == old_keys@.to_set(),
                new_set == new_keys@.to_set(),
                released == self@.released(*owner, new_keys@),
                fresh == self@.fresh(new_keys@),
                0 <= old_idx <= old_keys@.len(),
                0 <= new_idx <= new_keys@.len(),
                old_idx < old_keys@.len() ==> forall|j: int|
                    0 <= j < new_idx ==> (#[trigger] new_keys@[j]).rank()
                        < old_keys@[old_idx as int].rank(),
                new_idx < new_keys@.len() ==> forall|j: int|
                    0 <= j < old_idx ==> (#[trigger] old_keys@[j]).rank()
                        < new_keys@[new_idx as int].rank(),
                ordered::lists(
                    physical_removed@,
                    old_keys@.take(old_idx as int).to_set().intersect(released),
                ),
                ordered::lists(
                    physical_added@,
                    new_keys@.take(new_idx as int).to_set().intersect(fresh),
                ),
                lookups == eviction_model::saturated(
                    0,
                    (old_keys@.take(old_idx as int).to_set().difference(new_set).len()
                        + new_keys@.take(new_idx as int).to_set().difference(old_set).len()) as int,
                ),
            decreases old_keys@.len() - old_idx + new_keys@.len() - new_idx,
        {
            let take_old: bool;
            let take_new: bool;
            if old_idx >= old_keys.len() {
                take_old = false;
                take_new = true;
            } else if new_idx >= new_keys.len() {
                take_old = true;
                take_new = false;
            } else if old_keys[old_idx].same(&new_keys[new_idx]) {
                take_old = true;
                take_new = true;
            } else if old_keys[old_idx].precedes(&new_keys[new_idx]) {
                take_old = true;
                take_new = false;
            } else {
                proof {
                    if old_keys@[old_idx as int].rank() == new_keys@[new_idx as int].rank() {
                        Pubkey::rank_injective(old_keys@[old_idx as int], new_keys@[new_idx as int]);
                    }
                }
                take_old = false;
                take_new = true;
            }
            if take_old {
                proof {
                    ordered::lemma_take_step(old_keys@, old_idx as int);
                    lemma_prefix_difference(old_keys@, new_set, old_idx as int);
                    lemma_absent(new_keys@, new_idx as int, old_keys@[old_idx as int], take_new);
                    assert(old_set.contains(old_keys@[old_idx as int]));
                }
                if !take_new {
                    lookups = lookups.saturating_add(1);
                    if self.ownership.owner_refcount(&old_keys[old_idx]) == 1 {
                        let _ = ordered::add_key(&mut physical_removed, old_keys[old_idx]);
                    }
                }
                proof {
                    assert(physical_removed@.to_set() =~= old_keys@.take(
                        old_idx + 1,
                    ).to_set().intersect(released));
                }
            }
            if take_new {
                proof {
                    ordered::lemma_take_step(new_keys@, new_idx as int);
                    lemma_prefix_difference(new_keys@, old_set, new_idx as int);
                    lemma_absent(old_keys@, old_idx as int, new_keys@[new_idx as int], take_old);
                    assert(new_set.contains(new_keys@[new_idx as int]));
                    explicit_ownership::refcount_zero_iff_untracked(
                        groups,
                        new_keys@[new_idx as int],
                    );
                    if take_old {
                        assert(groups[*owner].contains(new_keys@[new_idx as int]));
                        assert(owner_index::physical(groups).contains(new_keys@[new_idx as int]));
                    }
                }
                if !take_old {
                    lookups = lookups.saturating_add(1);
                    if self.ownership.owner_refcount(&new_keys[new_idx]) == 0 {
                        let _ = ordered::add_key(&mut physical_added, new_keys[new_idx]);
                    }
                }
                proof {
                    assert(physical_added@.to_set() =~= new_keys@.take(
                        new_idx + 1,
                    ).to_set().intersect(fresh));
                }
            }
            if take_old {
                old_idx = old_idx + 1;
            }
            if take_new {
                new_idx = new_idx + 1;
            }
        }
        proof {
            assert(old_keys@.take(old_idx as int) =~= old_keys@);
            assert(new_keys@.take(new_idx as int) =~= new_keys@);
            assert(old_set.intersect(released) =~= released);
            assert(new_set.intersect(fresh) =~= fresh);
            ordered::lemma_sorted_no_duplicates(physical_removed@);
            ordered::lemma_sorted_no_duplicates(physical_added@);
        }
        let required_unique: usize = physical_added.len();
        let available_unique: usize = (self.cap - pre_len) + physical_removed.len();
        if required_unique > available_unique {
            return (ReplacePlanOutcome::RejectCap { required_unique, available_unique }, lookups);
        }
        let after_remove: usize = pre_len - physical_removed.len();
        let projected_final_len: usize = after_remove + physical_added.len();
        (
            ReplacePlanOutcome::Ready(
                ReplacePlan {
                    pre_len,
                    projected_final_len,
                    old_normalized: ordered::copy_keys(old_keys),
                    physical_added,
                    physical_removed,
                },
            ),
            lookups,
        )
    }
}

/// A key that stands between the taken and the remaining keys of a list is not in it.
proof fn lemma_absent(s: Seq<Pubkey>, i: int, k: Pubkey, at: bool)
    requires
        ordered::sorted(s),
        0 <= i <= s.len(),
        forall|j: int| 0 <= j < i ==> (#[trigger] s[j]).rank() < k.rank(),
        i < s.len() ==> if at {
            k == s[i]
        } else {
            k.rank() < s[i].rank()
        },
        at ==> i < s.len(),
    ensures
        s.contains(k) == at,
        s.to_set().contains(k) == at,
{
    if s.contains(k) {
        let j = choose|j: int| 0 <= j < s.len() && s[j] == k;
        if j > i {
            assert(s[i].rank() < s[j].rank());
        }
    }
}

impl FixedCapAdmission {
    /// Replaces the group of an owner with one, if the result fits the cap.
    pub fn try_replace_group(
        &mut self,
        existing_owner: ExplicitOwner,
        replacement_pubkeys: Vec<Pubkey>,
    ) -> (r: FixedCapReplaceResult)
        requires
            old(self).wf(),
        ensures
            final(self).wf(),
            final(self).switches() == old(self).switches(),
            replace_outcome(
                old(self)@,
                old(self).switches(),
                existing_owner,
                replacement_pubkeys@,
                r,
                final(self)@,
            ),
            final(self).stats() == replace_counted(
                old(self)@,
                old(self).stats(),
                existing_owner,
                replacement_pubkeys@,
            ),
    {
        let normalized = ordered::normalize(replacement_pubkeys.as_slice());
        if normalized.len() == 0 {
            return FixedCapReplaceResult::RejectedInvalidGroup;
        }
        proof {
            self.ownership.lemma_wf();
            lemma_normalized(replacement_pubkeys@, normalized@);
            lemma_set_group(self@, existing_owner, replacement_pubkeys@);
        }
        self.count_owner_lookup();
        let old_normalized: Vec<Pubkey> = match self.ownership.owner_group(&existing_owner) {
            None => {
                return FixedCapReplaceResult::RejectedMissingOwner;
            },
            Some(group) => ordered::copy_keys(group),
        };
        let pre_touch_stamp: u64 = match self.owner_lru.get(&existing_owner) {
            None => {
                proof {
                    self.lemma_failed_closed_fits(existing_owner);
                }
                self.fail_closed_remove_owner(&existing_owner);
                return FixedCapReplaceResult::InternalInvariantViolation {
                    recovery: InvariantViolationRecovery::OwnerRemovedFailClosed,
                };
            },
            Some(stamp) => *stamp,
        };
        if ordered::same_keys(old_normalized.as_slice(), normalized.as_slice()) {
            return FixedCapReplaceResult::Unchanged;
        }
        let (outcome, lookups) = self.plan_replace(
            &existing_owner,
            old_normalized.as_slice(),
            normalized.as_slice(),
        );
        self.planning_stats.refcount_lookups =
        self.planning_stats.refcount_lookups.saturating_add(lookups);
        proof {
            assert(self@.released(existing_owner, normalized@) =~= self@.released(
                existing_owner,
                replacement_pubkeys@,
            )) by {
                assert forall|pk: Pubkey| normalized@.contains(pk) == replacement_pubkeys@.contains(
                    pk,
                ) by {
                    assert(normalized@.to_set().contains(pk)
                        == replacement_pubkeys@.to_set().contains(pk));
                }
            }
            assert(self@.fresh(normalized@) =~= self@.fresh(replacement_pubkeys@));
        }
        let plan = match outcome {
            ReplacePlanOutcome::RejectCap { required_unique, available_unique } => {
                return FixedCapReplaceResult::RejectedCap { required_unique, available_unique };
            },
            ReplacePlanOutcome::Ready(plan) => plan,
        };
        let (owner_lru, next_touch_stamp) = match self.plan_stamp(&existing_owner) {
            None => {
                return FixedCapReplaceResult::PlanningInvariantViolation;
            },
            Some(planned) => planned,
        };
        let expected_physical_added = expected_at_commit(
            plan.physical_added.as_slice(),
            self.faults.commit_plan_mismatch,
        );
        let expected_physical_removed = expected_at_commit(
            plan.physical_removed.as_slice(),
            self.faults.commit_plan_mismatch,
        );
        proof {
            ordered::lemma_sorted_no_duplicates(plan.physical_added@);
            ordered::lemma_sorted_no_duplicates(plan.physical_removed@);
            ordered::lemma_in_order(plan.physical_added@, self@.fresh(replacement_pubkeys@));
            ordered::lemma_in_order(
                plan.physical_removed@,
                self@.released(existing_owner, replacement_pubkeys@),
            );
        }
        let change = match self.ownership.upsert_group(
            existing_owner,
            ordered::copy_keys(normalized.as_slice()),
        ) {
            Ok(change) => change,
            Err(_) => {
                return FixedCapReplaceResult::RejectedInvalidGroup;
            },
        };
        if !replaced_group_matches_plan(
            &change,
            expected_physical_added.as_slice(),
            expected_physical_removed.as_slice(),
        ) {
            proof {
                old(self).lemma_failed_closed_fits(existing_owner);
                old(self).lemma_rolled_back(self@, existing_owner);
                assert(self@.groups.insert(existing_owner, plan.old_normalized@)
                    =~= old(self)@.groups);
                assert(self@.stamps.insert(existing_owner, pre_touch_stamp) =~= old(
                    self,
                )@.stamps);
            }
            return self.rollback_failed_replace(&existing_owner, &plan, pre_touch_stamp);
        }
        self.physical_len = plan.projected_final_len;
        self.owner_lru = owner_lru;
        self.next_touch_stamp = next_touch_stamp;
        FixedCapReplaceResult::Replaced {
            physical_added: plan.physical_added,
            physical_removed: plan.physical_removed,
        }
    }

    /// A changed group of `owner` does not matter once the owner is removed.
    proof fn lemma_rolled_back(&self, now: AdmissionView, owner: ExplicitOwner)
        requires
            now.cap == self@.cap,
            now.next == self@.next,
            now.stamps == self@.stamps,
            now.groups.remove(owner) =~= self@.groups.remove(owner),
        ensures
            now.failed_closed(owner) =~= self@.failed_closed(owner),
    {
        let kept_now = now.groups.dom().intersect(now.stamps.dom()).remove(owner);
        let kept = self@.groups.dom().intersect(self@.stamps.dom()).remove(owner);
        assert forall|o: ExplicitOwner| kept_now.contains(o) == kept.contains(o) by {
            assert(now.groups.remove(owner).dom().contains(o) == self@.groups.remove(
                owner,
            ).dom().contains(o));
        }
        assert(kept_now =~= kept);
        assert forall|o: ExplicitOwner| kept.contains(o) implies now.groups[o] == self@.groups[o] by {
            assert(now.groups.remove(owner)[o] == self@.groups.remove(owner)[o]);
        }
        assert(now.groups.restrict(kept) =~= self@.groups.restrict(kept));
    }

    /// Puts the previous group back, or removes the owner when that fails.
    fn rollback_failed_replace(
        &mut self,
        owner: &ExplicitOwner,
        plan: &ReplacePlan,
        pre_touch_stamp: u64,
    ) -> (r: FixedCapReplaceResult)
        requires
            old(self).ownership.wf(),
            old(self).owner_lru.wf(),
            old(self).ownership@.dom().contains(*owner),
            plan.old_normalized@.len() > 0,
            ordered::sorted(plan.old_normalized@),
        ensures
            final(self).ownership.wf(),
            final(self).owner_lru.wf(),
            final(self).same_shell(old(self)),
            final(self).planning_stats == old(self).planning_stats,
            if old(self).faults.restore_plan_mismatch {
                &&& r == (FixedCapReplaceResult::InternalInvariantViolation {
                    recovery: InvariantViolationRecovery::OwnerRemovedFailClosed,
                })
                &&& final(self)@ =~= old(self)@.failed_closed(*owner)
                &&& final(self).physical_len == owner_index::physical(final(self)@.groups).len()
            } else {
                &&& r == (FixedCapReplaceResult::InternalInvariantViolation {
                    recovery: InvariantViolationRecovery::PreviousRestored,
                })
                &&& final(self)@.groups =~= old(self)@.groups.insert(*owner, plan.old_normalized@)
                &&& final(self)@.stamps =~= old(self)@.stamps.insert(*owner, pre_touch_stamp)
                &&& final(self)@.next == old(self)@.next
                &&& final(self).physical_len == plan.pre_len
            },
    {
        let restore_pubkeys = expected_at_commit(
            plan.old_normalized.as_slice(),
            self.faults.restore_plan_mismatch,
        );
        proof {
            lemma_restored(plan.old_normalized@, restore_pubkeys@);
        }
        let restored: bool = match self.ownership.upsert_group(
            *owner,
            ordered::copy_keys(restore_pubkeys.as_slice()),
        ) {
            Ok(change) => match change {
                GroupChange::Replaced { .. } | GroupChange::Unchanged => group_is(
                    self.ownership.owner_group(owner),
                    restore_pubkeys.as_slice(),
                ),
                GroupChange::NewGroup { .. } => false,
            },
            Err(_) => false,
        };
        if restored {
            let _ = self.owner_lru.insert(*owner, pre_touch_stamp);
            self.physical_len = plan.pre_len;
            return FixedCapReplaceResult::InternalInvariantViolation {
                recovery: InvariantViolationRecovery::PreviousRestored,
            };
        }
        proof {
            old(self).lemma_rolled_back(self@, *owner);
        }
        self.fail_closed_remove_owner(owner);
        FixedCapReplaceResult::InternalInvariantViolation {
            recovery: InvariantViolationRecovery::OwnerRemovedFailClosed,
        }
    }

    /// Counts the owners of each key and picks those with a single one.
    fn plan_remove(&self, owner: &ExplicitOwner, old_keys: &[Pubkey]) -> (r: Option<RemovePlan>)
        requires
            self.wf(),
            self@.groups.dom().contains(*owner),
            old_keys@ == self@.groups[*owner],
        ensures
            match r {
                Some(plan) => {
                    &&& !self.faults.remove_planning_zero_refcount
                    &&& !self.faults.remove_planning_underflow
                    &&& plan.pre_len == self.physical_len
                    &&& plan.projected_final_len == self@.len() - self@.released(
                        *owner,
                        Seq::empty(),
                    ).len()
                    &&& plan.old_normalized@ == old_keys@
                    &&& ordered::lists(
                        plan.physical_removed@,
                        self@.released(*owner, Seq::empty()),
                    )
                    &&& plan.old_refcounts@.len() == old_keys@.len()
                    &&& forall|i: int|
                        0 <= i < old_keys@.len() ==> #[trigger] plan.old_refcounts@[i]
                            == owner_index::owners_of(self@.groups, old_keys@[i]).len()
                },
                None => self.faults.remove_planning_zero_refcount
                    || self.faults.remove_planning_underflow,
            },
    {
        let ghost groups = self@.groups;
        let ghost released = self@.released(*owner, Seq::empty());
        let mut physical_removed: Vec<Pubkey> = Vec::new();
        let mut old_refcounts: Vec<usize> = Vec::new();
        proof {
            self.ownership.lemma_wf();
        }
        let mut i: usize = 0;
        while i < old_keys.len()
            invariant
                self.wf(),
                groups == self@.groups,
                owner_index::groups_ok(groups),
                groups.dom().contains(*owner),
                old_keys@ == groups[*owner],
                released == self@.released(*owner, Seq::empty()),
                i > 0 ==> !self.faults.remove_planning_zero_refcount,
                0 <= i <= old_keys@.len(),
                ordered::lists(
                    physical_removed@,
                    old_keys@.take(i as int).to_set().intersect(released),
                ),
                old_refcounts@.len() == i,
                forall|j: int|
                    0 <= j < i ==> #[trigger] old_refcounts@[j] == owner_index::owners_of(
                        groups,
                        old_keys@[j],
                    ).len(),
            decreases old_keys@.len() - i,
        {
            proof {
                ordered::lemma_take_step(old_keys@, i as int);
                assert(groups[*owner].contains(old_keys@[i as int]));
                assert(owner_index::physical(groups).contains(old_keys@[i as int]));
                explicit_ownership::refcount_zero_iff_untracked(groups, old_keys@[i as int]);
            }
            let mut refcount: usize = self.ownership.owner_refcount(&old_keys[i]);
            if self.faults.remove_planning_zero_refcount {
                refcount = 0;
            }
            if refcount == 0 {
                return None;
            }
            old_refcounts.push(refcount);
            if refcount == 1 {
                let _ = ordered::add_key(&mut physical_removed, old_keys[i]);
            }
            proof {
                assert(physical_removed@.to_set() =~= old_keys@.take(i + 1).to_set().intersect(
                    released,
                ));
            }
            i = i + 1;
        }
        proof {
            assert(old_keys@.take(i as int) =~= old_keys@);
            assert(old_keys@.to_set().intersect(released) =~= released);
            lemma_drop_group(self@, *owner);
            ordered::lemma_sorted_no_duplicates(physical_removed@);
        }
        if self.faults.remove_planning_underflow {
            return None;
        }
        let projected_final_len: usize = self.physical_len - physical_removed.len();
        Some(
            RemovePlan {
                pre_len: self.physical_len,
                projected_final_len,
                old_normalized: ordered::copy_keys(old_keys),
                physical_removed,
                old_refcounts,
            },
        )
    }

    /// Removes the group of an owner.
    pub fn remove_group(&mut self, owner: ExplicitOwner) -> (r: FixedCapRemoveResult)
        requires
            old(self).wf(),
        ensures
            final(self).wf(),
            final(self).switches() == old(self).switches(),
            remove_outcome(old(self)@, old(self).switches(), owner, r, final(self)@),
            final(self).stats() == remove_counted(
                old(self)@,
                old(self).switches(),
                old(self).stats(),
                owner,
            ),
    {
        self.count_owner_lookup();
        let old_normalized: Vec<Pubkey> = match self.ownership.owner_group(&owner) {
            None => {
                return FixedCapRemoveResult::NotFound;
            },
            Some(group) => ordered::copy_keys(group),
        };
        let pre_touch_stamp: u64 = match self.owner_lru.get(&owner) {
            None => {
                proof {
                    self.lemma_failed_closed_fits(owner);
                }
                self.fail_closed_remove_owner(&owner);
                return FixedCapRemoveResult::InternalInvariantViolation {
                    recovery: FixedCapRemoveRecovery::OwnerRemovedFailClosed,
                };
            },
            Some(stamp) => *stamp,
        };
        proof {
            self.ownership.lemma_wf();
            lemma_drop_group(self@, owner);
        }
        let outcome = self.plan_remove(&owner, old_normalized.as_slice());
        if self.faults.remove_planning_zero_refcount {
            self.count_refcount_lookups(1);
        } else {
            self.count_refcount_lookups(old_normalized.len());
        }
        let plan = match outcome {
            None => {
                return FixedCapRemoveResult::PlanningInvariantViolation;
            },
            Some(plan) => plan,
        };
        let expected_physical_removed = expected_at_commit(
            plan.physical_removed.as_slice(),
            self.faults.commit_plan_mismatch,
        );
        proof {
            ordered::lemma_sorted_no_duplicates(plan.physical_removed@);
            lemma_subset_len(self@.groups, self@.groups.remove(owner));
        }
        let ghost before = self@;
        let snapshot = self.ownership.remove_group(&owner);
        if !removed_group_matches_plan(
            &snapshot,
            &owner,
            &plan,
            expected_physical_removed.as_slice(),
            &self.ownership,
        ) {
            proof {
                assert(expected_physical_removed@ != plan.physical_removed@) by {
                    lemma_removal_as_planned(before.groups, owner, plan);
                }
                old(self).lemma_failed_closed_fits(owner);
                old(self).lemma_rolled_back(self@, owner);
                assert(self@.groups.insert(owner, plan.old_normalized@) =~= old(self)@.groups);
                assert(self@.stamps.insert(owner, pre_touch_stamp) =~= old(self)@.stamps);
            }
            return self.rollback_failed_remove(&owner, &plan, pre_touch_stamp);
        }
        proof {
            assert(expected_physical_removed@ == plan.physical_removed@) by {
                lemma_planned_list(before, owner, plan);
            }
        }
        self.physical_len = plan.projected_final_len;
        let _ = self.owner_lru.remove(&owner);
        FixedCapRemoveResult::Removed { physical_removed: plan.physical_removed }
    }

    /// Puts the removed group back, or leaves the owner out when that fails.
    fn rollback_failed_remove(
        &mut self,
        owner: &ExplicitOwner,
        plan: &RemovePlan,
        pre_touch_stamp: u64,
    ) -> (r: FixedCapRemoveResult)
        requires
            old(self).ownership.wf(),
            old(self).owner_lru.wf(),
            !old(self).ownership@.dom().contains(*owner),
            plan.old_normalized@.len() > 0,
            ordered::sorted(plan.old_normalized@),
        ensures
            final(self).ownership.wf(),
            final(self).owner_lru.wf(),
            final(self).same_shell(old(self)),
            final(self).planning_stats == old(self).planning_stats,
            if old(self).faults.restore_plan_mismatch {
                &&& r == (FixedCapRemoveResult::InternalInvariantViolation {
                    recovery: FixedCapRemoveRecovery::OwnerRemovedFailClosed,
                })
                &&& final(self)@ =~= old(self)@.failed_closed(*owner)
                &&& final(self).physical_len == owner_index::physical(final(self)@.groups).len()
            } else {
                &&& r == (FixedCapRemoveResult::InternalInvariantViolation {
                    recovery: FixedCapRemoveRecovery::PreviousRestored,
                })
                &&& final(self)@.groups =~= old(self)@.groups.insert(*owner, plan.old_normalized@)
                &&& final(self)@.stamps =~= old(self)@.stamps.insert(*owner, pre_touch_stamp)
                &&& final(self)@.next == old(self)@.next
                &&& final(self).physical_len == plan.pre_len
            },
    {
        let restore_pubkeys = expected_at_commit(
            plan.old_normalized.as_slice(),
            self.faults.restore_plan_mismatch,
        );
        proof {
            lemma_restored(plan.old_normalized@, restore_pubkeys@);
        }
        let restored: bool = match self.ownership.upsert_group(
            *owner,
            ordered::copy_keys(restore_pubkeys.as_slice()),
        ) {
            Ok(change) => match change {
                GroupChange::NewGroup { .. } => group_is(
                    self.ownership.owner_group(owner),
                    restore_pubkeys.as_slice(),
                ),
                GroupChange::Replaced { .. } | GroupChange::Unchanged => false,
            },
            Err(_) => false,
        };
        if restored {
            let _ = self.owner_lru.insert(*owner, pre_touch_stamp);
            self.physical_len = plan.pre_len;
            return FixedCapRemoveResult::InternalInvariantViolation {
                recovery: FixedCapRemoveRecovery::PreviousRestored,
            };
        }
        proof {
            old(self).lemma_rolled_back(self@, *owner);
        }
        self.fail_closed_remove_owner(owner);
        FixedCapRemoveResult::InternalInvariantViolation {
            recovery: FixedCapRemoveRecovery::OwnerRemovedFailClosed,
        }
    }
}

/// Restoring with or without a repetition gives the old group; only without does it compare equal.
proof fn lemma_restored(old_keys: Seq<Pubkey>, restore: Seq<Pubkey>)
    requires
        old_keys.len() > 0,
        ordered::sorted(old_keys),
        restore == old_keys || restore == old_keys.push(old_keys[0]),
    ensures
        restore.len() > 0,
        ordered::in_order(restore.to_set()) == old_keys,
        restore != old_keys ==> restore.len() == old_keys.len() + 1,
{
    if restore == old_keys {
        ordered::lemma_in_order(old_keys, restore.to_set());
    } else {
        let n = old_keys.len() as int;
        assert(restore.take(n) =~= old_keys);
        ordered::lemma_take_step(restore, n);
        assert(restore.take(n + 1) =~= restore);
        assert(old_keys.to_set().contains(old_keys[0]));
        assert(restore.to_set() =~= old_keys.to_set());
        ordered::lemma_in_order(old_keys, restore.to_set());
    }
}

/// The keys whose count is one.
spec fn singles(keys: Seq<Pubkey>, counts: Seq<usize>) -> Set<Pubkey> {
    Set::new(
        |pk: Pubkey|
            exists|i: int| 0 <= i < keys.len() && keys[i] == pk && #[trigger] counts[i] == 1,
    )
}

/// Whether a removal did what was planned.
fn removed_group_matches_plan(
    snapshot: &Option<OwnerGroupSnapshot>,
    owner: &ExplicitOwner,
    plan: &RemovePlan,
    expected_physical_removed: &[Pubkey],
    ownership: &ExplicitOwnership,
) -> (r: bool)
    requires
        ownership.wf(),
        plan.old_refcounts@.len() == plan.old_normalized@.len(),
    ensures
        r == {
            &&& snapshot is Some
            &&& snapshot->0.owner() == *owner
            &&& snapshot->0.pubkeys@ =~= plan.old_normalized@
            &&& !ownership@.dom().contains(*owner)
            &&& forall|i: int|
                0 <= i < plan.old_refcounts@.len() ==> owner_index::owners_of(
                    ownership@,
                    plan.old_normalized@[i],
                ).len() == #[trigger] plan.old_refcounts@[i] - 1
            &&& expected_physical_removed@ == ordered::in_order(
                singles(plan.old_normalized@, plan.old_refcounts@),
            )
        },
{
    match snapshot {
        None => false,
        Some(snapshot) => {
            if snapshot.consumer != owner.consumer || !snapshot.owner_key.same(&owner.owner_key) {
                return false;
            }
            if !ordered::same_keys(
                snapshot.pubkeys.as_slice(),
                plan.old_normalized.as_slice(),
            ) {
                return false;
            }
            if ownership.contains_owner(owner) {
                return false;
            }
            let mut planned: Vec<Pubkey> = Vec::new();
            let mut i: usize = 0;
            while i < plan.old_refcounts.len()
                invariant
                    ownership.wf(),
                    plan.old_refcounts@.len() == plan.old_normalized@.len(),
                    0 <= i <= plan.old_refcounts@.len(),
                    forall|j: int|
                        0 <= j < i ==> owner_index::owners_of(
                            ownership@,
                            plan.old_normalized@[j],
                        ).len() == #[trigger] plan.old_refcounts@[j] - 1,
                    ordered::sorted(planned@),
                    forall|pk: Pubkey| #[trigger]
                        planned@.to_set().contains(pk) <==> exists|j: int|
                            0 <= j < i && plan.old_normalized@[j] == pk
                                && #[trigger] plan.old_refcounts@[j] == 1,
                decreases plan.old_refcounts@.len() - i,
            {
                let old_count: usize = plan.old_refcounts[i];
                let new_count: usize = ownership.owner_refcount(&plan.old_normalized[i]);
                if old_count == 0 || new_count != old_count - 1 {
                    assert(plan.old_refcounts@[i as int] == old_count);
                    return false;
                }
                let ghost before = planned@.to_set();
                if old_count == 1 {
                    let _ = ordered::add_key(&mut planned, plan.old_normalized[i]);
                }
                proof {
                    assert forall|pk: Pubkey| #[trigger]
                        planned@.to_set().contains(pk) <==> exists|j: int|
                            0 <= j < i + 1 && plan.old_normalized@[j] == pk
                                && #[trigger] plan.old_refcounts@[j] == 1 by {
                        if before.contains(pk) {
                            let j = choose|j: int|
                                0 <= j < i && plan.old_normalized@[j] == pk
                                    && #[trigger] plan.old_refcounts@[j] == 1;
                            assert(plan.old_refcounts@[j] == 1);
                        }
                        if planned@.to_set().contains(pk) && !before.contains(pk) {
                            assert(plan.old_refcounts@[i as int] == 1);
                        }
                        if exists|j: int|
                            0 <= j < i + 1 && plan.old_normalized@[j] == pk
                                && #[trigger] plan.old_refcounts@[j] == 1 {
                            let j = choose|j: int|
                                0 <= j < i + 1 && plan.old_normalized@[j] == pk
                                    && #[trigger] plan.old_refcounts@[j] == 1;
                            if j < i {
                                assert(before.contains(pk));
                            }
                        }
                    }
                }
                i = i + 1;
            }
            proof {
                let all = singles(plan.old_normalized@, plan.old_refcounts@);
                assert forall|pk: Pubkey| planned@.to_set().contains(pk) == all.contains(pk) by {}
                ordered::lemma_in_order(planned@, all);
            }
            ordered::same_keys(planned.as_slice(), expected_physical_removed)
        },
    }
}

/// The planned list is that of the keys with a single owner.
proof fn lemma_planned_list(before: AdmissionView, owner: ExplicitOwner, plan: RemovePlan)
    requires
        plan.old_normalized@ == before.groups[owner],
        ordered::lists(plan.physical_removed@, before.released(owner, Seq::empty())),
        plan.old_refcounts@.len() == plan.old_normalized@.len(),
        forall|i: int|
            0 <= i < plan.old_normalized@.len() ==> #[trigger] plan.old_refcounts@[i]
                == owner_index::owners_of(before.groups, plan.old_normalized@[i]).len(),
    ensures
        plan.physical_removed@ == ordered::in_order(
            singles(plan.old_normalized@, plan.old_refcounts@),
        ),
{
    let all = singles(plan.old_normalized@, plan.old_refcounts@);
    let released = before.released(owner, Seq::empty());
    assert forall|pk: Pubkey| all.contains(pk) == released.contains(pk) by {
        if all.contains(pk) {
            let i = choose|i: int|
                0 <= i < plan.old_normalized@.len() && plan.old_normalized@[i] == pk
                    && #[trigger] plan.old_refcounts@[i] == 1;
            assert(plan.old_normalized@[i] == pk);
        }
        if released.contains(pk) {
            let i = choose|i: int| 0 <= i < plan.old_normalized@.len() && plan.old_normalized@[i] == pk;
            assert(plan.old_refcounts@[i] == 1);
        }
    }
    assert(all =~= released);
    ordered::lemma_in_order(plan.physical_removed@, all);
}

/// Removing a group lowers the owner count of each of its keys by one.
proof fn lemma_removal_as_planned(groups: Groups, owner: ExplicitOwner, plan: RemovePlan)
    requires
        owner_index::groups_ok(groups),
        groups.dom().contains(owner),
        plan.old_normalized@ == groups[owner],
        plan.old_refcounts@.len() == plan.old_normalized@.len(),
        forall|i: int|
            0 <= i < plan.old_normalized@.len() ==> #[trigger] plan.old_refcounts@[i]
                == owner_index::owners_of(groups, plan.old_normalized@[i]).len(),
        ordered::lists(
            plan.physical_removed@,
            AdmissionView { cap: 0, groups, stamps: Map::empty(), next: 0 }.released(
                owner,
                Seq::empty(),
            ),
        ),
    ensures
        forall|i: int|
            0 <= i < plan.old_refcounts@.len() ==> owner_index::owners_of(
                groups.remove(owner),
                plan.old_normalized@[i],
            ).len() == #[trigger] plan.old_refcounts@[i] - 1,
        plan.physical_removed@ == ordered::in_order(
            singles(plan.old_normalized@, plan.old_refcounts@),
        ),
{
    assert forall|i: int| 0 <= i < plan.old_refcounts@.len() implies owner_index::owners_of(
        groups.remove(owner),
        plan.old_normalized@[i],
    ).len() == #[trigger] plan.old_refcounts@[i] - 1 by {
        let pk = plan.old_normalized@[i];
        assert(groups[owner].contains(pk));
        explicit_ownership::removal_keeps_shared_addresses(groups, owner, pk);
        let owners = owner_index::owners_of(groups, pk);
        assert(owners.contains(owner));
        assert(owners.subset_of(groups.dom()));
        vstd::set_lib::lemma_len_subset(owners, groups.dom());
    }
    lemma_planned_list(
        AdmissionView { cap: 0, groups, stamps: Map::empty(), next: 0 },
        owner,
        plan,
    );
}

/// The stamps that a list of entries gives.
pub open spec fn entry_stamps(entries: Seq<OwnerLruEntry>) -> Stamps {
    Map::new(
        |o: ExplicitOwner| eviction_planner::has_entry(entries, o),
        |o: ExplicitOwner|
            entries[choose|j: int| 0 <= j < entries.len() && (#[trigger] entries[j]).owner
                == o].last_touch,
    )
}

/// The entries that an eviction plan goes by.
pub open spec fn planning_entries(view: AdmissionView, faults: FaultSwitches) -> Seq<OwnerLruEntry> {
    lru_entries(view.stamps) + faults.eviction_plan_extra_lru@
}

/// What is planned for a group that is not inserted yet.
pub open spec fn plan_outcome(
    view: AdmissionView,
    faults: FaultSwitches,
    owner: ExplicitOwner,
    keys: Seq<Pubkey>,
    result: VictimSelectionResult,
) -> bool {
    let entries = planning_entries(view, faults);
    if eviction_planner::entries_complete(entries, view.groups.dom()) {
        eviction_planner::victim_outcome(
            view.groups,
            entry_stamps(entries),
            view.len() as usize,
            owner,
            keys,
            view.cap,
            result,
        )
    } else {
        result is InternalInvariantViolation
    }
}

proof fn lemma_own_entries(stamps: Stamps)
    requires
        stamps.dom().finite(),
    ensures
        forall|i: int| 0 <= i < lru_entries(stamps).len() ==> {
            &&& stamps.dom().contains((#[trigger] lru_entries(stamps)[i]).owner)
            &&& lru_entries(stamps)[i].last_touch == stamps[lru_entries(stamps)[i].owner]
            &&& !eviction_planner::repeats(lru_entries(stamps), i)
        },
        forall|o: ExplicitOwner| #[trigger]
            eviction_planner::has_entry(lru_entries(stamps), o) <==> stamps.dom().contains(o),
{
    let names = ordered::in_order(stamps.dom());
    let entries = lru_entries(stamps);
    ordered::lemma_in_order_lists(stamps.dom());
    ordered::lemma_sorted_no_duplicates(names);
    assert forall|i: int| 0 <= i < entries.len() implies {
        &&& stamps.dom().contains((#[trigger] entries[i]).owner)
        &&& entries[i].last_touch == stamps[entries[i].owner]
        &&& !eviction_planner::repeats(entries, i)
    } by {
        assert(names.to_set().contains(names[i]));
        if eviction_planner::repeats(entries, i) {
            let j = choose|j: int| 0 <= j < i && (#[trigger] entries[j]).owner == entries[i].owner;
            assert(names[j] == names[i]);
        }
    }
    assert forall|o: ExplicitOwner| #[trigger] eviction_planner::has_entry(entries, o)
        <==> stamps.dom().contains(o) by {
        if stamps.dom().contains(o) {
            assert(names.to_set().contains(o));
            let j = choose|j: int| 0 <= j < names.len() && names[j] == o;
            assert(entries[j].owner == o);
        }
    }
}

/// The own stamps are complete exactly when they cover the groups, and give themselves back.
pub proof fn lemma_own_entries_complete(stamps: Stamps, owners: Set<ExplicitOwner>)
    requires
        stamps.dom().finite(),
    ensures
        eviction_planner::entries_complete(lru_entries(stamps), owners) == (stamps.dom() =~= owners),
        entry_stamps(lru_entries(stamps)) =~= stamps,
{
    let entries = lru_entries(stamps);
    lemma_own_entries(stamps);
    if stamps.dom() =~= owners {
        assert forall|i: int| !eviction_planner::first_bad_entry(entries, owners, i) by {
            if 0 <= i < entries.len() {
                assert(stamps.dom().contains(entries[i].owner));
            }
        }
    }
    if eviction_planner::entries_complete(entries, owners) {
        assert forall|o: ExplicitOwner| stamps.dom().contains(o) implies owners.contains(o) by {
            assert(eviction_planner::has_entry(entries, o));
            let i = choose|i: int| 0 <= i < entries.len() && (#[trigger] entries[i]).owner == o;
            if !owners.contains(o) {
                lemma_first_unknown(entries, owners, i);
            }
        }
        assert forall|o: ExplicitOwner| owners.contains(o) implies stamps.dom().contains(o) by {
            assert(eviction_planner::has_entry(entries, o));
        }
    }
    assert forall|o: ExplicitOwner| #[trigger] stamps.dom().contains(o) implies entry_stamps(
        entries,
    )[o] == stamps[o] by {
        assert(eviction_planner::has_entry(entries, o));
        let j = choose|j: int| 0 <= j < entries.len() && (#[trigger] entries[j]).owner == o;
        assert(entries[j].last_touch == stamps[o]);
    }
    assert(entry_stamps(entries) =~= stamps);
}

proof fn lemma_first_unknown(entries: Seq<OwnerLruEntry>, owners: Set<ExplicitOwner>, i: int)
    requires
        0 <= i < entries.len(),
        !owners.contains(entries[i].owner),
    ensures
        exists|k: int| eviction_planner::first_bad_entry(entries, owners, k),
    decreases i,
{
    if forall|j: int|
        0 <= j < i ==> !eviction_planner::repeats(entries, j) && owners.contains(
            (#[trigger] entries[j]).owner,
        ) {
        assert(eviction_planner::first_bad_entry(entries, owners, i));
    } else {
        let j = choose|j: int|
            0 <= j < i && !(!eviction_planner::repeats(entries, j) && owners.contains(
                (#[trigger] entries[j]).owner,
            ));
        lemma_first_bad(entries, owners, j);
    }
}

proof fn lemma_first_bad(entries: Seq<OwnerLruEntry>, owners: Set<ExplicitOwner>, i: int)
    requires
        0 <= i < entries.len(),
        eviction_planner::repeats(entries, i) || !owners.contains(entries[i].owner),
    ensures
        exists|k: int| eviction_planner::first_bad_entry(entries, owners, k),
    decreases i,
{
    if forall|j: int|
        0 <= j < i ==> !eviction_planner::repeats(entries, j) && owners.contains(
            (#[trigger] entries[j]).owner,
        ) {
        assert(eviction_planner::first_bad_entry(entries, owners, i));
    } else {
        let j = choose|j: int|
            0 <= j < i && !(!eviction_planner::repeats(entries, j) && owners.contains(
                (#[trigger] entries[j]).owner,
            ));
        lemma_first_bad(entries, owners, j);
    }
}

impl FixedCapAdmission {
    /// The eviction plan for a group that is not inserted yet; nothing changes.
    pub fn plan_admit_with_eviction(
        &self,
        incoming_owner: ExplicitOwner,
        incoming_pubkeys: Vec<Pubkey>,
    ) -> (r: AdmissionEvictionPlanResult)
        requires
            self.wf(),
        ensures
            plan_outcome(self@, self.switches(), incoming_owner, incoming_pubkeys@, r),
    {
        let entries = self.eviction_planning_lru_entries();
        let ghost listed = entries@;
        match EvictionPlanningSnapshot::from_ownership(&self.ownership, entries) {
            Ok(snapshot) => {
                proof {
                    snapshot.lemma_parts();
                    assert forall|o: ExplicitOwner| #[trigger]
                        snapshot.stamps().dom().contains(o) implies entry_stamps(listed).dom().contains(
                        o,
                    ) && entry_stamps(listed)[o] == snapshot.stamps()[o] by {
                        assert(self.ownership@.dom().contains(o));
                        assert(eviction_planner::has_entry(listed, o));
                        let j = choose|j: int|
                            0 <= j < listed.len() && (#[trigger] listed[j]).owner == o;
                        assert(snapshot.stamps()[listed[j].owner] == listed[j].last_touch);
                    }
                    assert forall|o: ExplicitOwner| #[trigger]
                        entry_stamps(listed).dom().contains(o) implies snapshot.stamps().dom().contains(
                        o,
                    ) by {
                        let j = choose|j: int|
                            0 <= j < listed.len() && (#[trigger] listed[j]).owner == o;
                        if !self.ownership@.dom().contains(o) {
                            lemma_first_unknown(listed, self.ownership@.dom(), j);
                        }
                    }
                    assert(snapshot.stamps() =~= entry_stamps(listed));
                }
                select_eviction_victims(
                    &snapshot,
                    VictimSelectionRequest { incoming_owner, incoming_pubkeys, cap: self.cap },
                )
            },
            Err(error) => {
                proof {
                    lemma_build_error(listed, self.ownership@.dom(), error);
                }
                VictimSelectionResult::InternalInvariantViolation
            },
        }
    }

    fn eviction_planning_lru_entries(&self) -> (r: Vec<OwnerLruEntry>)
        requires
            self.wf(),
        ensures
            r@ =~= planning_entries(self@, self.faults),
    {
        let mut entries = self.snapshot_lru_entries();
        let extra = &self.faults.eviction_plan_extra_lru;
        let mut i: usize = 0;
        while i < extra.len()
            invariant
                self.wf(),
                extra@ == self.faults.eviction_plan_extra_lru@,
                0 <= i <= extra@.len(),
                entries@ =~= lru_entries(self@.stamps) + extra@.take(i as int),
            decreases extra@.len() - i,
        {
            entries.push(extra[i]);
            i = i + 1;
        }
        proof {
            assert(extra@.take(i as int) =~= extra@);
        }
        entries
    }
}

/// Every build error means that the entries are not complete.
proof fn lemma_build_error(
    entries: Seq<OwnerLruEntry>,
    owners: Set<ExplicitOwner>,
    error: SnapshotBuildError,
)
    requires
        match error {
            SnapshotBuildError::DuplicateLruOwner(o) => exists|i: int|
                #![trigger entries[i]]
                eviction_planner::first_bad_entry(entries, owners, i)
                    && eviction_planner::repeats(entries, i) && o == entries[i].owner,
            SnapshotBuildError::UnknownLruOwner(o) => exists|i: int|
                #![trigger entries[i]]
                eviction_planner::first_bad_entry(entries, owners, i)
                    && !eviction_planner::repeats(entries, i) && o == entries[i].owner,
            SnapshotBuildError::MissingLruEntry(o) => owners.contains(o)
                && !eviction_planner::has_entry(entries, o),
            _ => false,
        },
    ensures
        !eviction_planner::entries_complete(entries, owners),
{
}

/// The state that an eviction would commit.
struct EvictingCandidateState {
    ownership: ExplicitOwnership,
    owner_lru: OrderedMap<ExplicitOwner, u64>,
    next_touch_stamp: u64,
    physical_len: usize,
    group_edges: u64,
}

/// Surviving stamps are kept, or at least their order when the counter has run out.
pub open spec fn survivors_kept(
    live: AdmissionView,
    stamps: Stamps,
    gone: Set<ExplicitOwner>,
    owner: ExplicitOwner,
) -> bool {
    if live.next == u64::MAX {
        touch_stamps::same_order(live.stamps.remove_keys(gone), stamps.remove(owner))
    } else {
        forall|o: ExplicitOwner| #[trigger]
            live.groups.dom().contains(o) && !gone.contains(o) && o != owner
                ==> live.stamps.dom().contains(o) && stamps.dom().contains(o) && live.stamps[o]
                == stamps[o]
    }
}

/// `keys` names each address of `set` once, in any order.
pub open spec fn names_each_once(keys: Seq<Pubkey>, set: Set<Pubkey>) -> bool {
    &&& ordered::in_order(keys.to_set()) == ordered::in_order(set)
    &&& keys.len() == ordered::in_order(set).len()
}

/// A candidate state holds just the survivors and the new group, with the stamps of the
/// survivors kept, the new group the most recent, and the length counted right.
pub open spec fn accepted(
    live: AdmissionView,
    candidate: AdmissionView,
    counted: usize,
    gone: Set<ExplicitOwner>,
    owner: ExplicitOwner,
    listing: Seq<Pubkey>,
) -> bool {
    &&& !gone.contains(owner)
    &&& candidate.groups =~= live.groups.remove_keys(gone).insert(owner, listing)
    &&& survivors_kept(live, candidate.stamps, gone, owner)
    &&& candidate.stamps.dom().contains(owner)
    &&& forall|o: ExplicitOwner| #[trigger]
        candidate.stamps.dom().contains(o) && o != owner ==> candidate.stamps[o]
            < candidate.stamps[owner]
    &&& candidate.next == candidate.stamps[owner] + 1
    &&& counted <= live.cap
    &&& counted == candidate.len()
    &&& candidate.stamps.dom() =~= candidate.groups.dom()
}

/// A candidate state is what its plan promised.
pub open spec fn candidate_valid(
    live: AdmissionView,
    candidate: AdmissionView,
    counted: usize,
    plan: VictimSelectionPlan,
    owner: ExplicitOwner,
    listing: Seq<Pubkey>,
    added: Seq<Pubkey>,
) -> bool {
    &&& accepted(live, candidate, counted, plan.victims@.to_set(), owner, listing)
    &&& names_each_once(
        plan.physical_freed@,
        owner_index::newly_physical(candidate.groups, live.groups),
    )
    &&& names_each_once(added, owner_index::newly_physical(live.groups, candidate.groups))
    &&& added.len() == plan.incoming_physical_added
    &&& counted == plan.projected_final_len
}

/// The stamps of the survivors and of `owner`, planned for an eviction.
pub open spec fn stamps_planned(
    before: AdmissionView,
    gone: Set<ExplicitOwner>,
    owner: ExplicitOwner,
) -> Option<(Stamps, u64)> {
    touch_stamps::stamp_assigned(before.stamps.remove_keys(gone), before.next, owner)
}

/// Whether there is a candidate: the group is not empty and its owner no victim, no survivor is
/// left out, an extra group is not empty, and a stamp can be assigned.
pub open spec fn has_candidate(
    before: AdmissionView,
    faults: FaultSwitches,
    owner: ExplicitOwner,
    keys: Seq<Pubkey>,
    gone: Set<ExplicitOwner>,
) -> bool {
    &&& keys.len() > 0
    &&& !gone.contains(owner)
    &&& !(faults.evicting_omit_survivor matches Some(o) && before.groups.dom().contains(o)
        && !gone.contains(o))
    &&& !(faults.evicting_extra_candidate_owner matches Some(extra) && extra.1@.len() == 0)
    &&& !faults.stamp_plan_failure
    &&& stamps_planned(before, gone, owner) is Some
}

/// The groups of the candidate, with the extra group if one is injected.
pub open spec fn candidate_groups(
    before: AdmissionView,
    faults: FaultSwitches,
    owner: ExplicitOwner,
    keys: Seq<Pubkey>,
    gone: Set<ExplicitOwner>,
) -> Groups {
    let planned = before.groups.remove_keys(gone).insert(owner, ordered::in_order(keys.to_set()));
    match faults.evicting_extra_candidate_owner {
        Some(extra) => planned.insert(extra.0, ordered::in_order(extra.1@.to_set())),
        None => planned,
    }
}

/// The stamps of the candidate, with one lowered if that fault is injected.
pub open spec fn candidate_stamps(faults: FaultSwitches, planned: Stamps) -> Stamps {
    match faults.evicting_corrupt_survivor_stamp {
        Some(o) => if planned.dom().contains(o) && planned[o] > 0 {
            planned.insert(o, (planned[o] - 1) as u64)
        } else {
            planned
        },
        None => planned,
    }
}

/// No stamp is lower than `n`, and one is `n`.
pub open spec fn is_least_stamp(stamps: Stamps, n: u64) -> bool {
    &&& exists|o: ExplicitOwner| #[trigger] stamps.dom().contains(o) && stamps[o] == n
    &&& forall|o: ExplicitOwner| #[trigger] stamps.dom().contains(o) ==> n <= stamps[o]
}

/// The candidate state, with the injected faults.
pub open spec fn candidate_state(
    before: AdmissionView,
    faults: FaultSwitches,
    owner: ExplicitOwner,
    keys: Seq<Pubkey>,
    gone: Set<ExplicitOwner>,
) -> AdmissionView {
    let (planned, planned_next) = stamps_planned(before, gone, owner)->0;
    let stamps = candidate_stamps(faults, planned);
    AdmissionView {
        cap: before.cap,
        groups: candidate_groups(before, faults, owner, keys, gone),
        stamps,
        next: if faults.evicting_corrupt_next_touch_stamp {
            choose|n: u64| is_least_stamp(stamps, n)
        } else {
            planned_next
        },
    }
}

/// The counted length of the candidate, one too many if that fault is injected.
pub open spec fn candidate_count(faults: FaultSwitches, groups: Groups) -> nat {
    let len = owner_index::physical(groups).len();
    if faults.evicting_corrupt_physical_len && len < usize::MAX {
        len + 1
    } else {
        len
    }
}

/// The keys that the candidate was built from, counted with repetitions.
pub open spec fn candidate_edges(
    before: AdmissionView,
    faults: FaultSwitches,
    keys: Seq<Pubkey>,
    gone: Set<ExplicitOwner>,
) -> int {
    eviction_model::edges(before.groups, ordered::in_order(before.groups.dom()), gone) + keys.len()
        + match faults.evicting_extra_candidate_owner {
        Some(extra) => extra.1@.len() as int,
        None => 0,
    }
}

impl EvictingCandidateState {
    spec fn wf(&self) -> bool {
        &&& self.ownership.wf()
        &&& self.owner_lru.wf()
    }

    spec fn as_view(&self, cap: usize) -> AdmissionView {
        AdmissionView {
            cap,
            groups: self.ownership@,
            stamps: self.owner_lru@,
            next: self.next_touch_stamp,
        }
    }
}

/// Whether every stamp but that of `owner` is below `limit`.
fn others_below(owner_lru: &OrderedMap<ExplicitOwner, u64>, owner: &ExplicitOwner, limit: u64) -> (r:
    bool)
    requires
        owner_lru.wf(),
    ensures
        r == forall|o: ExplicitOwner| #[trigger]
            owner_lru@.dom().contains(o) && o != *owner ==> owner_lru@[o] < limit,
{
    proof {
        owner_lru.lemma_view();
    }
    let mut i: usize = 0;
    while i < owner_lru.keys.len()
        invariant
            owner_lru.wf(),
            0 <= i <= owner_lru.keys@.len(),
            forall|j: int|
                0 <= j < i && #[trigger] owner_lru.keys@[j] != *owner ==> owner_lru.values@[j]
                    < limit,
        decreases owner_lru.keys@.len() - i,
    {
        if !owner_lru.keys[i].same(owner) && owner_lru.values[i] >= limit {
            proof {
                owner_lru.lemma_view();
                assert(owner_lru@.dom().contains(owner_lru.keys@[i as int]));
            }
            return false;
        }
        i = i + 1;
    }
    proof {
        assert forall|o: ExplicitOwner| #[trigger]
            owner_lru@.dom().contains(o) && o != *owner implies owner_lru@[o] < limit by {
            assert(owner_lru.keys@.to_set().contains(o));
            let j = choose|j: int| 0 <= j < owner_lru.keys@.len() && owner_lru.keys@[j] == o;
            assert(owner_lru@[owner_lru.keys@[j]] == owner_lru.values@[j]);
        }
    }
    true
}

/// The least stamp, or 0 where there is none.
fn least_stamp(owner_lru: &OrderedMap<ExplicitOwner, u64>) -> (n: u64)
    requires
        owner_lru.wf(),
    ensures
        (exists|o: ExplicitOwner| #[trigger] owner_lru@.dom().contains(o)) ==> is_least_stamp(
            owner_lru@,
            n,
        ),
        owner_lru@.dom() =~= Set::empty() ==> n == 0,
{
    proof {
        owner_lru.lemma_view();
    }
    let mut n: u64 = 0;
    let mut i: usize = 0;
    while i < owner_lru.keys.len()
        invariant
            owner_lru.wf(),
            0 <= i <= owner_lru.keys@.len(),
            i == 0 ==> n == 0,
            i > 0 ==> exists|j: int| 0 <= j < i && #[trigger] owner_lru.values@[j] == n,
            forall|j: int| 0 <= j < i ==> n <= #[trigger] owner_lru.values@[j],
        decreases owner_lru.keys@.len() - i,
    {
        if i == 0 || owner_lru.values[i] < n {
            n = owner_lru.values[i];
            assert(owner_lru.values@[i as int] == n);
        }
        i = i + 1;
    }
    proof {
        owner_lru.lemma_view();
        if owner_lru.keys@.len() > 0 {
            let j = choose|j: int|
                0 <= j < owner_lru.keys@.len() && #[trigger] owner_lru.values@[j] == n;
            assert(owner_lru@[owner_lru.keys@[j]] == owner_lru.values@[j]);
            assert(owner_lru.keys@.to_set().contains(owner_lru.keys@[j]));
        }
        assert forall|o: ExplicitOwner| #[trigger] owner_lru@.dom().contains(o) implies n
            <= owner_lru@[o] by {
            assert(owner_lru.keys@.to_set().contains(o));
            let j = choose|j: int| 0 <= j < owner_lru.keys@.len() && owner_lru.keys@[j] == o;
            assert(owner_lru@[owner_lru.keys@[j]] == owner_lru.values@[j]);
        }
        if owner_lru.keys@.len() > 0 {
            assert(owner_lru@.dom().contains(owner_lru.keys@[0]));
        }
    }
    n
}

/// The keys of `a` that are not in `b`.
fn minus(a: &[Pubkey], b: &[Pubkey]) -> (r: Vec<Pubkey>)
    requires
        ordered::sorted(a@),
        ordered::sorted(b@),
    ensures
        ordered::lists(r@, a@.to_set().difference(b@.to_set())),
{
    let mut out: Vec<Pubkey> = Vec::new();
    let mut i: usize = 0;
    while i < a.len()
        invariant
            ordered::sorted(b@),
            0 <= i <= a@.len(),
            ordered::lists(out@, a@.take(i as int).to_set().difference(b@.to_set())),
        decreases a@.len() - i,
    {
        proof {
            ordered::lemma_take_step(a@, i as int);
        }
        if !ordered::has(b, &a[i]) {
            let _ = ordered::add_key(&mut out, a[i]);
        }
        i = i + 1;
    }
    proof {
        assert(a@.take(i as int) =~= a@);
    }
    out
}

impl FixedCapAdmission {
    /// Builds the state with the victims gone and the group inserted.
    #[verifier::rlimit(40)]
    fn build_evicting_candidate(
        &self,
        incoming_owner: &ExplicitOwner,
        incoming_pubkeys: &[Pubkey],
        plan: &VictimSelectionPlan,
    ) -> (r: Option<EvictingCandidateState>)
        requires
            self.wf(),
        ensures
            ({
                let gone = plan.victims@.to_set();
                match r {
                    Some(candidate) => {
                        &&& has_candidate(
                            self@,
                            self.faults,
                            *incoming_owner,
                            incoming_pubkeys@,
                            gone,
                        )
                        &&& candidate.wf()
                        &&& candidate.as_view(self.cap) == candidate_state(
                            self@,
                            self.faults,
                            *incoming_owner,
                            incoming_pubkeys@,
                            gone,
                        )
                        &&& candidate.physical_len == candidate_count(
                            self.faults,
                            candidate.ownership@,
                        )
                        &&& candidate.group_edges == eviction_model::saturated(
                            0,
                            candidate_edges(self@, self.faults, incoming_pubkeys@, gone),
                        )
                    },
                    None => !has_candidate(
                        self@,
                        self.faults,
                        *incoming_owner,
                        incoming_pubkeys@,
                        gone,
                    ),
                }
            }),
    {
        let ghost groups = self@.groups;
        let ghost gone = plan.victims@.to_set();
        let victims = ordered::normalize(plan.victims.as_slice());
        if ordered::has(victims.as_slice(), incoming_owner) {
            proof {
                assert(victims@.to_set().contains(*incoming_owner));
            }
            return None;
        }
        let owners = self.ownership.owners();
        proof {
            self.ownership.lemma_wf();
            ordered::lemma_in_order(owners@, groups.dom());
        }
        let mut ownership = ExplicitOwnership::new();
        let mut group_edges: u64 = 0;
        let mut i: usize = 0;
        while i < owners.len()
            invariant
                self.wf(),
                groups == self@.groups,
                owner_index::groups_ok(groups),
                gone == plan.victims@.to_set(),
                ordered::lists(victims@, gone),
                ordered::lists(owners@, groups.dom()),
                ownership.wf(),
                0 <= i <= owners@.len(),
                forall|o: ExplicitOwner| #[trigger]
                    ownership@.dom().contains(o) <==> owners@.take(i as int).to_set().contains(o)
                        && !gone.contains(o),
                forall|o: ExplicitOwner| #[trigger]
                    ownership@.dom().contains(o) ==> ownership@[o] == groups[o],
                group_edges == eviction_model::saturated(
                    0,
                    eviction_model::edges(groups, owners@.take(i as int), gone) as int,
                ),
                self.faults.evicting_omit_survivor matches Some(o) ==> !(owners@.take(
                    i as int,
                ).to_set().contains(o) && !gone.contains(o)),
            decreases owners@.len() - i,
        {
            let owner: ExplicitOwner = owners[i];
            proof {
                ordered::lemma_take_step(owners@, i as int);
                assert(owners@.take(i + 1).drop_last() =~= owners@.take(i as int));
                assert(owners@.to_set().contains(owner));
                assert(gone.contains(owner) == victims@.to_set().contains(owner));
            }
            if !ordered::has(victims.as_slice(), &owner) {
                if let Some(omitted) = &self.faults.evicting_omit_survivor {
                    if omitted.same(&owner) {
                        assert(groups.dom().contains(owner));
                        return None;
                    }
                }
                match self.ownership.owner_group(&owner) {
                    None => {},
                    Some(keys) => {
                        proof {
                            ordered::lemma_in_order(keys@, keys@.to_set());
                        }
                        group_edges = group_edges.saturating_add(keys.len() as u64);
                        let _ = ownership.upsert_group(owner, ordered::copy_keys(keys));
                    },
                }
            }
            i = i + 1;
        }
        proof {
            assert(owners@.take(i as int) =~= owners@);
            assert(ownership@ =~= groups.remove_keys(gone));
        }
        if ownership.upsert_group(*incoming_owner, ordered::copy_keys(incoming_pubkeys)).is_err() {
            return None;
        }
        group_edges = group_edges.saturating_add(incoming_pubkeys.len() as u64);
        if let Some((extra_owner, extra_pubkeys)) = &self.faults.evicting_extra_candidate_owner {
            if ownership.upsert_group(
                *extra_owner,
                ordered::copy_keys(extra_pubkeys.as_slice()),
            ).is_err() {
                return None;
            }
            group_edges = group_edges.saturating_add(extra_pubkeys.len() as u64);
        }
        let survivor_lru = touch_stamps::drop_stamps(&self.owner_lru, plan.victims.as_slice());
        if self.faults.stamp_plan_failure {
            return None;
        }
        let (mut owner_lru, planned_next) = match touch_stamps::plan_stamp_assign(
            &survivor_lru,
            self.next_touch_stamp,
            incoming_owner,
        ) {
            None => {
                return None;
            },
            Some(planned) => planned,
        };
        if let Some(corrupt) = &self.faults.evicting_corrupt_survivor_stamp {
            let lowered: Option<u64> = match owner_lru.get(corrupt) {
                Some(stamp) => Some(stamp.saturating_sub(1)),
                None => None,
            };
            if let Some(stamp) = lowered {
                let _ = owner_lru.insert(*corrupt, stamp);
            }
        }
        proof {
            let planned = (stamps_planned(self@, gone, *incoming_owner)->0).0;
            assert(planned.dom().contains(*incoming_owner));
            assert(owner_lru@ =~= candidate_stamps(self.faults, planned));
            assert(owner_lru@.dom().contains(*incoming_owner));
        }
        let next_touch_stamp: u64 = if self.faults.evicting_corrupt_next_touch_stamp {
            let n = least_stamp(&owner_lru);
            proof {
                let m = choose|m: u64| is_least_stamp(owner_lru@, m);
                assert(is_least_stamp(owner_lru@, m));
            }
            n
        } else {
            planned_next
        };
        let mut physical_len: usize = ownership.len();
        if self.faults.evicting_corrupt_physical_len {
            physical_len = physical_len.saturating_add(1);
        }
        Some(
            EvictingCandidateState {
                ownership,
                owner_lru,
                next_touch_stamp,
                physical_len,
                group_edges,
            },
        )
    }
}

/// Whether the groups are the expected ones.
pub open spec fn groups_as_planned(
    live: Groups,
    candidate: Groups,
    gone: Set<ExplicitOwner>,
    owner: ExplicitOwner,
    listing: Seq<Pubkey>,
) -> bool {
    !gone.contains(owner) && candidate =~= live.remove_keys(gone).insert(owner, listing)
}

impl FixedCapAdmission {
    /// Whether the candidate holds the surviving groups and the new one, and nothing else.
    #[verifier::rlimit(40)]
    fn candidate_groups_match(
        &self,
        candidate: &ExplicitOwnership,
        victims: &[ExplicitOwner],
        incoming_owner: &ExplicitOwner,
        incoming_pubkeys: &[Pubkey],
    ) -> (r: bool)
        requires
            self.wf(),
            candidate.wf(),
            ordered::sorted(victims@),
        ensures
            r == groups_as_planned(
                self@.groups,
                candidate@,
                victims@.to_set(),
                *incoming_owner,
                incoming_pubkeys@,
            ),
    {
        let ghost live = self@.groups;
        let ghost gone = victims@.to_set();
        let ghost wanted = live.remove_keys(gone).insert(*incoming_owner, incoming_pubkeys@);
        if ordered::has(victims, incoming_owner) {
            return false;
        }
        let live_owners = self.ownership.owners();
        let mut expected: Vec<ExplicitOwner> = Vec::new();
        let mut i: usize = 0;
        while i < live_owners.len()
            invariant
                ordered::sorted(victims@),
                gone == victims@.to_set(),
                0 <= i <= live_owners@.len(),
                ordered::lists(
                    expected@,
                    live_owners@.take(i as int).to_set().difference(gone),
                ),
            decreases live_owners@.len() - i,
        {
            proof {
                ordered::lemma_take_step(live_owners@, i as int);
            }
            if !ordered::has(victims, &live_owners[i]) {
                let _ = ordered::add_key(&mut expected, live_owners[i]);
            }
            i = i + 1;
        }
        proof {
            assert(live_owners@.take(i as int) =~= live_owners@);
        }
        let _ = ordered::add_key(&mut expected, *incoming_owner);
        proof {
            assert(expected@.to_set() =~= wanted.dom());
        }
        let candidate_owners = candidate.owners();
        if !ordered::same_keys(candidate_owners.as_slice(), expected.as_slice()) {
            proof {
                if candidate@ =~= wanted {
                    ordered::lemma_sorted_unique(candidate_owners@, expected@);
                }
            }
            return false;
        }
        let mut k: usize = 0;
        while k < expected.len()
            invariant
                self.wf(),
                candidate.wf(),
                live == self@.groups,
                wanted == live.remove_keys(gone).insert(*incoming_owner, incoming_pubkeys@),
                ordered::lists(expected@, wanted.dom()),
                expected@.to_set() =~= candidate@.dom(),
                !gone.contains(*incoming_owner),
                gone == victims@.to_set(),
                0 <= k <= expected@.len(),
                forall|j: int|
                    0 <= j < k ==> candidate@[#[trigger] expected@[j]] == wanted[expected@[j]],
            decreases expected@.len() - k,
        {
            let owner: ExplicitOwner = expected[k];
            proof {
                assert(expected@.to_set().contains(owner));
                assert(wanted.dom().contains(owner));
            }
            let same: bool = if owner.same(incoming_owner) {
                group_is(candidate.owner_group(&owner), incoming_pubkeys)
            } else {
                match self.ownership.owner_group(&owner) {
                    Some(keys) => group_is(candidate.owner_group(&owner), keys),
                    None => false,
                }
            };
            if !same {
                proof {
                    assert(candidate@[owner] != wanted[owner]);
                }
                return false;
            }
            k = k + 1;
        }
        proof {
            assert forall|o: ExplicitOwner| #[trigger] wanted.dom().contains(o) implies candidate@[o]
                == wanted[o] by {
                assert(expected@.to_set().contains(o));
                let j = choose|j: int| 0 <= j < expected@.len() && expected@[j] == o;
                assert(candidate@[expected@[j]] == wanted[expected@[j]]);
            }
            assert(candidate@ =~= wanted);
        }
        true
    }

    /// Whether the surviving stamps are kept, or their order when the counter has run out.
    fn survivor_stamps_match(
        &self,
        candidate_lru: &OrderedMap<ExplicitOwner, u64>,
        victims: &[ExplicitOwner],
        incoming_owner: &ExplicitOwner,
    ) -> (r: bool)
        requires
            self.wf(),
            candidate_lru.wf(),
            ordered::sorted(victims@),
        ensures
            r == survivors_kept(self@, candidate_lru@, victims@.to_set(), *incoming_owner),
    {
        let ghost gone = victims@.to_set();
        if self.next_touch_stamp == u64::MAX {
            let live = touch_stamps::drop_stamps(&self.owner_lru, victims);
            let mut rest = candidate_lru.duplicate();
            let _ = rest.remove(incoming_owner);
            return touch_stamps::stands_in_same_order(&live, &rest);
        }
        let owners = self.ownership.owners();
        let mut i: usize = 0;
        while i < owners.len()
            invariant
                self.wf(),
                candidate_lru.wf(),
                ordered::sorted(victims@),
                gone == victims@.to_set(),
                self@.next != u64::MAX,
                ordered::lists(owners@, self@.groups.dom()),
                0 <= i <= owners@.len(),
                forall|j: int|
                    0 <= j < i && !gone.contains(#[trigger] owners@[j]) && owners@[j]
                        != *incoming_owner ==> self@.stamps.dom().contains(owners@[j])
                        && candidate_lru@.dom().contains(owners@[j]) && self@.stamps[owners@[j]]
                        == candidate_lru@[owners@[j]],
            decreases owners@.len() - i,
        {
            let owner: ExplicitOwner = owners[i];
            proof {
                assert(owners@.to_set().contains(owner));
                assert(gone.contains(owner) == victims@.contains(owner));
            }
            if !ordered::has(victims, &owner) && !owner.same(incoming_owner) {
                let kept: bool = match (self.owner_lru.get(&owner), candidate_lru.get(&owner)) {
                    (Some(live), Some(cand)) => *live == *cand,
                    _ => false,
                };
                if !kept {
                    proof {
                        assert(self@.groups.dom().contains(owner));
                    }
                    return false;
                }
            }
            i = i + 1;
        }
        proof {
            assert forall|o: ExplicitOwner| #[trigger]
                self@.groups.dom().contains(o) && !gone.contains(o) && o
                    != *incoming_owner implies self@.stamps.dom().contains(o)
                && candidate_lru@.dom().contains(o) && self@.stamps[o] == candidate_lru@[o] by {
                assert(owners@.to_set().contains(o));
                let j = choose|j: int| 0 <= j < owners@.len() && owners@[j] == o;
                assert(owners@[j] == o);
            }
        }
        true
    }

    /// Whether the candidate state is what the plan promised.
    fn validate_evicting_candidate(
        &self,
        candidate: &EvictingCandidateState,
        plan: &VictimSelectionPlan,
        incoming_owner: &ExplicitOwner,
        incoming_pubkeys: &[Pubkey],
        physical_added: &[Pubkey],
    ) -> (r: bool)
        requires
            self.wf(),
            candidate.wf(),
        ensures
            r == candidate_valid(
                self@,
                candidate.as_view(self.cap),
                candidate.physical_len,
                *plan,
                *incoming_owner,
                incoming_pubkeys@,
                physical_added@,
            ),
    {
        let ghost view = candidate.as_view(self.cap);
        let ghost gone = plan.victims@.to_set();
        let victims = ordered::normalize(plan.victims.as_slice());
        if !self.candidate_groups_match(
            &candidate.ownership,
            victims.as_slice(),
            incoming_owner,
            incoming_pubkeys,
        ) {
            return false;
        }
        let mut i: usize = 0;
        while i < victims.len()
            invariant
                candidate.wf(),
                view == candidate.as_view(self.cap),
                gone == plan.victims@.to_set(),
                ordered::lists(victims@, gone),
                0 <= i <= victims@.len(),
                forall|j: int|
                    0 <= j < i ==> !candidate.owner_lru@.dom().contains(#[trigger] victims@[j]),
            decreases victims@.len() - i,
        {
            if candidate.owner_lru.contains_key(&victims[i]) {
                proof {
                    assert(victims@.to_set().contains(victims@[i as int]));
                    assert(gone.contains(victims@[i as int]));
                }
                return false;
            }
            i = i + 1;
        }
        proof {
            assert forall|v: ExplicitOwner| #[trigger] gone.contains(v) implies !view.stamps.dom().contains(
                v,
            ) by {
                assert(victims@.to_set().contains(v));
                let j = choose|j: int| 0 <= j < victims@.len() && victims@[j] == v;
                assert(!candidate.owner_lru@.dom().contains(victims@[j]));
            }
        }
        if !self.survivor_stamps_match(&candidate.owner_lru, victims.as_slice(), incoming_owner) {
            return false;
        }
        let incoming_stamp: u64 = match candidate.owner_lru.get(incoming_owner) {
            None => {
                return false;
            },
            Some(stamp) => *stamp,
        };
        if !others_below(&candidate.owner_lru, incoming_owner, incoming_stamp) {
            return false;
        }
        if incoming_stamp == u64::MAX || candidate.next_touch_stamp != incoming_stamp + 1 {
            return false;
        }
        let live_keys = self.ownership.snapshot_pubkeys();
        let candidate_keys = candidate.ownership.snapshot_pubkeys();
        let removed = minus(live_keys.as_slice(), candidate_keys.as_slice());
        let added = minus(candidate_keys.as_slice(), live_keys.as_slice());
        proof {
            ordered::lemma_in_order(
                removed@,
                owner_index::newly_physical(view.groups, self@.groups),
            );
            ordered::lemma_in_order(added@, owner_index::newly_physical(self@.groups, view.groups));
        }
        let expected_freed = ordered::normalize(plan.physical_freed.as_slice());
        let expected_added = ordered::normalize(physical_added);
        proof {
            ordered::lemma_in_order(expected_freed@, plan.physical_freed@.to_set());
            ordered::lemma_in_order(expected_added@, physical_added@.to_set());
        }
        if !ordered::same_keys(removed.as_slice(), expected_freed.as_slice())
            || plan.physical_freed.len() != removed.len() {
            return false;
        }
        if !ordered::same_keys(added.as_slice(), expected_added.as_slice())
            || physical_added.len() != added.len() {
            return false;
        }
        if physical_added.len() != plan.incoming_physical_added {
            return false;
        }
        if candidate.physical_len != plan.projected_final_len {
            return false;
        }
        if candidate.physical_len > self.cap {
            return false;
        }
        if candidate.physical_len != candidate.ownership.len() {
            return false;
        }
        let entries = lru_entries_of(&candidate.owner_lru);
        proof {
            candidate.owner_lru.lemma_view();
            lemma_own_entries_complete(view.stamps, view.groups.dom());
        }
        let ghost listed = entries@;
        match EvictionPlanningSnapshot::from_ownership(&candidate.ownership, entries) {
            Ok(_) => true,
            Err(error) => {
                proof {
                    lemma_build_error(listed, view.groups.dom(), error);
                }
                false
            },
        }
    }
}

/// The victims that selection names under cap pressure.
pub open spec fn chosen_victims(
    before: AdmissionView,
    entries: Seq<OwnerLruEntry>,
    tier: EvictionTier,
    keys: Seq<Pubkey>,
) -> Seq<ExplicitOwner> {
    eviction_model::selection(
        before.groups,
        entry_stamps(entries),
        tier,
        keys.to_set(),
        before.len() + before.fresh(keys).len() - before.cap,
        Seq::empty(),
    )->0
}

/// The group was inserted and the chosen victims left.
pub open spec fn evicted(
    before: AdmissionView,
    entries: Seq<OwnerLruEntry>,
    tier: EvictionTier,
    owner: ExplicitOwner,
    keys: Seq<Pubkey>,
    result: EvictingAdmissionResult,
    groups: Groups,
) -> bool {
    let named = chosen_victims(before, entries, tier, keys);
    let gone = named.to_set();
    &&& result matches EvictingAdmissionResult::InsertedWithEviction {
        physical_added,
        physical_removed,
        victims,
        opened_through,
    }
    &&& ordered::lists(physical_added@, before.fresh(keys))
    &&& ordered::lists(
        physical_removed@,
        eviction_model::freed(before.groups, gone, keys.to_set()),
    )
    &&& victims@ == named
    &&& opened_through == tier
    &&& groups == before.groups.remove_keys(gone).insert(
        owner,
        ordered::in_order(keys.to_set()),
    )
}

/// The survivors of an eviction all have stamps below the counter.
pub open spec fn stamps_usable(before: AdmissionView, gone: Set<ExplicitOwner>) -> bool {
    let left = before.stamps.remove_keys(gone);
    &&& left.dom() =~= before.groups.remove_keys(gone).dom()
    &&& before.next == u64::MAX || forall|o: ExplicitOwner| #[trigger]
        left.dom().contains(o) ==> left[o] < before.next
}

/// The lowest tier that can make room.
pub open spec fn room_tier(before: AdmissionView, owner: ExplicitOwner, keys: Seq<Pubkey>) -> Option<
    EvictionTier,
> {
    eviction_planner::opened_tier(
        before.groups,
        keys.to_set(),
        owner.consumer,
        before.len() + before.fresh(keys).len() - before.cap,
    )
}

/// The rejection when no tier can make room.
pub open spec fn protected(before: AdmissionView, keys: Seq<Pubkey>) -> EvictingAdmissionResult {
    EvictingAdmissionResult::RejectedProtected {
        incoming_physical_added: before.fresh(keys).len() as usize,
        required_to_free: (before.len() + before.fresh(keys).len() - before.cap) as usize,
    }
}

/// What inserting a group does when it does not fit.
pub open spec fn pressured_outcome(
    before: AdmissionView,
    faults: FaultSwitches,
    owner: ExplicitOwner,
    keys: Seq<Pubkey>,
    result: EvictingAdmissionResult,
    after: AdmissionView,
) -> bool {
    let entries = planning_entries(before, faults);
    if !eviction_planner::entries_complete(entries, before.groups.dom()) || before.len()
        + before.fresh(keys).len() > usize::MAX {
        result is InternalInvariantViolation && after == before
    } else {
        match room_tier(before, owner, keys) {
            None => result == protected(before, keys) && after == before,
            Some(tier) => {
                let gone = chosen_victims(before, entries, tier, keys).to_set();
                let stamped = touch_stamps::stamp_assigned(
                    before.stamps.remove_keys(gone),
                    before.next,
                    owner,
                );
                if faults.stamp_plan_failure || stamped is None || !stamps_usable(before, gone) {
                    result is InternalInvariantViolation && after == before
                } else {
                    &&& evicted(before, entries, tier, owner, keys, result, after.groups)
                    &&& after.cap == before.cap
                    &&& after.stamps == (stamped->0).0
                    &&& after.next == (stamped->0).1
                }
            },
        }
    }
}

/// What it does when a switch tampers with the candidate: the candidate is committed as it is
/// where it passes for what was planned, and nothing changes otherwise.
pub open spec fn tampered_outcome(
    before: AdmissionView,
    faults: FaultSwitches,
    owner: ExplicitOwner,
    keys: Seq<Pubkey>,
    result: EvictingAdmissionResult,
    after: AdmissionView,
) -> bool {
    let entries = planning_entries(before, faults);
    let listing = ordered::in_order(keys.to_set());
    if !eviction_planner::entries_complete(entries, before.groups.dom()) || before.len()
        + before.fresh(keys).len() > usize::MAX {
        result is InternalInvariantViolation && after == before
    } else {
        match room_tier(before, owner, keys) {
            None => result == protected(before, keys) && after == before,
            Some(tier) => {
                let gone = chosen_victims(before, entries, tier, keys).to_set();
                let candidate = candidate_state(before, faults, owner, listing, gone);
                let counted = candidate_count(faults, candidate.groups);
                if has_candidate(before, faults, owner, listing, gone) && accepted(
                    before,
                    candidate,
                    counted as usize,
                    gone,
                    owner,
                    listing,
                ) {
                    &&& evicted(before, entries, tier, owner, keys, result, after.groups)
                    &&& after == candidate
                } else {
                    result is InternalInvariantViolation && after == before
                }
            },
        }
    }
}

/// What inserting a group with eviction does.
pub open spec fn evict_outcome(
    before: AdmissionView,
    faults: FaultSwitches,
    owner: ExplicitOwner,
    keys: Seq<Pubkey>,
    result: EvictingAdmissionResult,
    after: AdmissionView,
) -> bool {
    let added = before.fresh(keys);
    if keys.len() == 0 {
        result is RejectedInvalidInput && after == before
    } else if before.groups.dom().contains(owner) {
        result is RejectedExistingOwner && after == before
    } else if before.len() + added.len() <= before.cap {
        if !before.can_stamp(faults, owner) || (faults.commit_plan_mismatch && added.len() > 0) {
            result is InternalInvariantViolation && after == before
        } else {
            &&& result matches EvictingAdmissionResult::InsertedNoEviction { physical_added }
            &&& ordered::lists(physical_added@, added)
            &&& after == before.committed(owner, ordered::in_order(keys.to_set()))
        }
    } else if faults.candidate_untouched() {
        pressured_outcome(before, faults, owner, keys, result, after)
    } else {
        tampered_outcome(before, faults, owner, keys, result, after)
    }
}

/// The counters after an insertion with eviction.
pub open spec fn evict_counted(
    before: AdmissionView,
    faults: FaultSwitches,
    stats: PlanningStats,
    owner: ExplicitOwner,
    keys: Seq<Pubkey>,
    result: EvictingAdmissionResult,
    after: PlanningStats,
) -> bool {
    match result {
        EvictingAdmissionResult::InsertedNoEviction { .. } => after == insert_counted(
            before,
            stats,
            owner,
            keys,
        ),
        EvictingAdmissionResult::InsertedWithEviction { victims, .. } => {
            let listing = ordered::in_order(keys.to_set());
            let total = candidate_edges(before, faults, listing, victims@.to_set());
            after == (PlanningStats {
                eviction_candidate_builds: eviction_model::saturated(
                    stats.eviction_candidate_builds,
                    1,
                ),
                eviction_candidate_group_edges: eviction_model::saturated(
                    stats.eviction_candidate_group_edges,
                    total,
                ),
                ..stats
            })
        },
        _ => after == stats,
    }
}

/// A plan made under cap pressure, for any listing of the keys, promises what selection chose.
proof fn lemma_pressure_plan(
    before: AdmissionView,
    faults: FaultSwitches,
    owner: ExplicitOwner,
    keys: Seq<Pubkey>,
    result: VictimSelectionResult,
)
    requires
        before.groups.dom().finite(),
        keys.len() > 0,
        before.len() <= usize::MAX,
        !before.groups.dom().contains(owner),
        before.len() + before.fresh(keys).len() > before.cap,
        plan_outcome(
            before,
            faults,
            owner,
            ordered::in_order(keys.to_set()),
            result,
        ),
    ensures
        ({
            let entries = planning_entries(before, faults);
            let listing = ordered::in_order(keys.to_set());
            if !eviction_planner::entries_complete(entries, before.groups.dom()) || before.len()
                + before.fresh(keys).len() > usize::MAX {
                result is InternalInvariantViolation
            } else {
                match room_tier(before, owner, keys) {
                    None => result == (VictimSelectionResult::RejectedProtected {
                        incoming_physical_added: before.fresh(keys).len() as usize,
                        required_to_free: (before.len() + before.fresh(keys).len()
                            - before.cap) as usize,
                    }),
                    Some(tier) => {
                        let named = chosen_victims(before, entries, tier, keys);
                        let gone = named.to_set();
                        let after = before.groups.remove_keys(gone).insert(owner, listing);
                        &&& result matches VictimSelectionResult::Planned(plan)
                        &&& plan.victims@ == named
                        &&& plan.opened_through == tier
                        &&& plan.incoming_physical_added == before.fresh(keys).len()
                        &&& plan.projected_final_len == owner_index::physical(after).len()
                        &&& plan.projected_final_len <= before.cap
                        &&& ordered::lists(
                            plan.physical_freed@,
                            eviction_model::freed(before.groups, gone, keys.to_set()),
                        )
                        &&& !gone.contains(owner)
                        &&& owner_index::newly_physical(after, before.groups)
                            =~= eviction_model::freed(before.groups, gone, keys.to_set())
                        &&& owner_index::newly_physical(before.groups, after) =~= before.fresh(keys)
                    },
                }
            }
        }),
{
    let entries = planning_entries(before, faults);
    vstd::seq_lib::seq_to_set_is_finite(keys);
    let listing = ordered::in_order(keys.to_set());
    ordered::lemma_in_order_lists(keys.to_set());
    assert(listing.to_set() == keys.to_set());
    assert(listing.len() > 0) by {
        assert(keys.to_set().contains(keys[0]));
        if listing.len() == 0 {
            assert(listing.to_set().contains(keys[0]));
        }
    }
    assert(before.fresh(listing) == before.fresh(keys));
    if result is Planned {
        let plan = result->Planned_0;
        let stamps = entry_stamps(entries);
        eviction_planner::plan_fits_cap(
            before.groups,
            stamps,
            before.len() as usize,
            owner,
            listing,
            before.cap,
            plan,
        );
        let gone = plan.victims@.to_set();
        eviction_model::lemma_physical_replaced(before.groups, gone, owner, listing);
        let after = before.groups.remove_keys(gone).insert(owner, listing);
        let lost = eviction_model::freed(before.groups, gone, keys.to_set());
        assert forall|pk: Pubkey| owner_index::newly_physical(after, before.groups).contains(pk)
            == lost.contains(pk) by {
            assert(owner_index::physical(after).contains(pk) == owner_index::physical(
                before.groups,
            ).difference(lost).union(keys.to_set()).contains(pk));
        }
        assert forall|pk: Pubkey| owner_index::newly_physical(before.groups, after).contains(pk)
            == before.fresh(keys).contains(pk) by {
            assert(owner_index::physical(after).contains(pk) == owner_index::physical(
                before.groups,
            ).difference(lost).union(keys.to_set()).contains(pk));
        }
    }
}

/// A candidate is valid for the plan that it was built by exactly when it is accepted.
proof fn lemma_valid_iff_accepted(
    before: AdmissionView,
    candidate: AdmissionView,
    counted: usize,
    plan: VictimSelectionPlan,
    owner: ExplicitOwner,
    listing: Seq<Pubkey>,
    added: Seq<Pubkey>,
)
    requires
        ({
            let planned = before.groups.remove_keys(plan.victims@.to_set()).insert(owner, listing);
            &&& ordered::lists(
                plan.physical_freed@,
                owner_index::newly_physical(planned, before.groups),
            )
            &&& ordered::lists(added, owner_index::newly_physical(before.groups, planned))
            &&& plan.projected_final_len == owner_index::physical(planned).len()
        }),
        added.len() == plan.incoming_physical_added,
    ensures
        candidate_valid(before, candidate, counted, plan, owner, listing, added) == accepted(
            before,
            candidate,
            counted,
            plan.victims@.to_set(),
            owner,
            listing,
        ),
{
    let planned = before.groups.remove_keys(plan.victims@.to_set()).insert(owner, listing);
    ordered::lemma_in_order(
        plan.physical_freed@,
        owner_index::newly_physical(planned, before.groups),
    );
    ordered::lemma_in_order(added, owner_index::newly_physical(before.groups, planned));
}

/// An untampered candidate is accepted exactly when the surviving stamps are usable.
proof fn lemma_accepted_iff_usable(
    before: AdmissionView,
    candidate: AdmissionView,
    counted: usize,
    gone: Set<ExplicitOwner>,
    owner: ExplicitOwner,
    listing: Seq<Pubkey>,
)
    requires
        before.groups.dom().finite(),
        before.stamps.dom().finite(),
        before.stamps.dom().subset_of(before.groups.dom()),
        !before.groups.dom().contains(owner),
        !gone.contains(owner),
        stamps_planned(before, gone, owner) is Some,
        candidate.stamps == (stamps_planned(before, gone, owner)->0).0,
        candidate.next == (stamps_planned(before, gone, owner)->0).1,
        candidate.groups == before.groups.remove_keys(gone).insert(owner, listing),
        counted <= before.cap,
        counted == candidate.len(),
    ensures
        accepted(before, candidate, counted, gone, owner, listing) == stamps_usable(before, gone),
{
    let left = before.stamps.remove_keys(gone);
    assert(left.dom().subset_of(before.stamps.dom()));
    vstd::set_lib::lemma_len_subset(left.dom(), before.stamps.dom());
    assert(!left.dom().contains(owner));
    assert(candidate.stamps.dom() =~= left.dom().insert(owner));
    let survivors = before.groups.remove_keys(gone);
    assert(candidate.groups.dom() =~= survivors.dom().insert(owner));
    assert((candidate.stamps.dom() =~= candidate.groups.dom()) == (left.dom()
        =~= survivors.dom())) by {
        if candidate.stamps.dom() =~= candidate.groups.dom() {
            assert forall|o: ExplicitOwner| left.dom().contains(o) == survivors.dom().contains(o) by {
                assert(candidate.stamps.dom().contains(o) == candidate.groups.dom().contains(o));
            }
        }
    }
    if before.next == u64::MAX {
        touch_stamps::lemma_renumbered_same_order(left);
        assert(candidate.stamps.remove(owner) =~= touch_stamps::renumbered(left));
        assert forall|o: ExplicitOwner| #[trigger]
            candidate.stamps.dom().contains(o) && o != owner implies candidate.stamps[o]
            < candidate.stamps[owner] by {
            touch_stamps::renumbering_keeps_order(left, o, o);
        }
    } else {
        if stamps_usable(before, gone) {
            assert forall|o: ExplicitOwner| #[trigger]
                before.groups.dom().contains(o) && !gone.contains(o) && o
                    != owner implies before.stamps.dom().contains(o)
                && candidate.stamps.dom().contains(o) && before.stamps[o] == candidate.stamps[o] by {
                assert(survivors.dom().contains(o));
                assert(left.dom().contains(o));
            }
        }
        if accepted(before, candidate, counted, gone, owner, listing) {
            assert forall|o: ExplicitOwner| #[trigger] left.dom().contains(o) implies left[o]
                < before.next by {
                assert(candidate.stamps.dom().contains(o));
            }
        }
    }
}

impl FixedCapAdmission {
    /// Inserts the group of an owner without one, evicting groups when the cap has no room.
    #[verifier::rlimit(60)]
    pub fn try_admit_with_eviction(&mut self, owner: ExplicitOwner, pubkeys: Vec<Pubkey>) -> (r:
        EvictingAdmissionResult)
        requires
            old(self).wf(),
        ensures
            final(self).wf(),
            final(self).switches() == old(self).switches(),
            evict_outcome(old(self)@, old(self).switches(), owner, pubkeys@, r, final(self)@),
            evict_counted(
                old(self)@,
                old(self).switches(),
                old(self).stats(),
                owner,
                pubkeys@,
                r,
                final(self).stats(),
            ),
    {
        let normalized = ordered::normalize(pubkeys.as_slice());
        if normalized.len() == 0 {
            return EvictingAdmissionResult::RejectedInvalidInput;
        }
        proof {
            self.ownership.lemma_wf();
            lemma_normalized(pubkeys@, normalized@);
            lemma_set_group(self@, owner, pubkeys@);
        }
        if self.ownership.contains_owner(&owner) {
            return EvictingAdmissionResult::RejectedExistingOwner;
        }
        match self.plan_insert_readonly(normalized.as_slice()) {
            InsertPlanOutcome::Ready(_) => {
                return self.map_fast_path_admit(owner, pubkeys);
            },
            InsertPlanOutcome::RejectCap { .. } => {},
        }
        let physical_added = self.untracked(normalized.as_slice());
        let plan_result = self.plan_admit_with_eviction(
            owner,
            ordered::copy_keys(normalized.as_slice()),
        );
        proof {
            assert(self@.fresh(normalized@) == self@.fresh(pubkeys@));
            lemma_pressure_plan(self@, self.faults, owner, pubkeys@, plan_result);
        }
        let plan = match plan_result {
            VictimSelectionResult::Planned(plan) => plan,
            VictimSelectionResult::NoEvictionNeeded { .. } => {
                return EvictingAdmissionResult::InternalInvariantViolation;
            },
            VictimSelectionResult::RejectedProtected {
                incoming_physical_added,
                required_to_free,
            } => {
                return EvictingAdmissionResult::RejectedProtected {
                    incoming_physical_added,
                    required_to_free,
                };
            },
            VictimSelectionResult::RejectedInvalidInput => {
                return EvictingAdmissionResult::RejectedInvalidInput;
            },
            VictimSelectionResult::InternalInvariantViolation => {
                return EvictingAdmissionResult::InternalInvariantViolation;
            },
        };
        let candidate = match self.build_evicting_candidate(
            &owner,
            normalized.as_slice(),
            &plan,
        ) {
            None => {
                return EvictingAdmissionResult::InternalInvariantViolation;
            },
            Some(candidate) => candidate,
        };
        proof {
            let view = candidate.as_view(self.cap);
            let gone = plan.victims@.to_set();
            let planned = self@.groups.remove_keys(gone).insert(owner, normalized@);
            ordered::lemma_in_order(normalized@, normalized@.to_set());
            ordered::lemma_sorted_no_duplicates(physical_added@);
            assert(owner_index::newly_physical(self@.groups, planned) =~= self@.fresh(pubkeys@));
            lemma_valid_iff_accepted(
                self@,
                view,
                candidate.physical_len,
                plan,
                owner,
                normalized@,
                physical_added@,
            );
            if self.faults.candidate_untouched() {
                self.owner_lru.lemma_view();
                lemma_complete_covers(
                    self@.stamps,
                    self.faults.eviction_plan_extra_lru@,
                    self@.groups.dom(),
                );
                lemma_accepted_iff_usable(
                    self@,
                    view,
                    candidate.physical_len,
                    gone,
                    owner,
                    normalized@,
                );
            }
        }
        if !self.validate_evicting_candidate(
            &candidate,
            &plan,
            &owner,
            normalized.as_slice(),
            physical_added.as_slice(),
        ) {
            return EvictingAdmissionResult::InternalInvariantViolation;
        }
        self.planning_stats.eviction_candidate_builds =
        self.planning_stats.eviction_candidate_builds.saturating_add(1);
        self.planning_stats.eviction_candidate_group_edges =
        self.planning_stats.eviction_candidate_group_edges.saturating_add(candidate.group_edges);
        self.ownership = candidate.ownership;
        self.owner_lru = candidate.owner_lru;
        self.next_touch_stamp = candidate.next_touch_stamp;
        self.physical_len = candidate.physical_len;
        EvictingAdmissionResult::InsertedWithEviction {
            physical_added,
            physical_removed: plan.physical_freed,
            victims: plan.victims,
            opened_through: plan.opened_through,
        }
    }

    /// Inserts a group that fits; counts only if that succeeds.
    fn map_fast_path_admit(&mut self, owner: ExplicitOwner, pubkeys: Vec<Pubkey>) -> (r:
        EvictingAdmissionResult)
        requires
            old(self).wf(),
            pubkeys@.len() > 0,
            !old(self)@.groups.dom().contains(owner),
            old(self)@.len() + old(self)@.fresh(pubkeys@).len() <= old(self)@.cap,
        ensures
            final(self).wf(),
            final(self).switches() == old(self).switches(),
            evict_outcome(old(self)@, old(self).switches(), owner, pubkeys@, r, final(self)@),
            evict_counted(
                old(self)@,
                old(self).switches(),
                old(self).stats(),
                owner,
                pubkeys@,
                r,
                final(self).stats(),
            ),
    {
        let stats_before: PlanningStats = self.planning_stats;
        let ghost added = self@.fresh(pubkeys@);
        proof {
            self.ownership.lemma_wf();
            lemma_set_group(self@, owner, pubkeys@);
        }
        match self.try_admit_new_group(owner, pubkeys) {
            FixedCapAdmissionResult::Inserted { physical_added } => {
                EvictingAdmissionResult::InsertedNoEviction { physical_added }
            },
            FixedCapAdmissionResult::OwnerAddedNoNewPubkey => {
                let physical_added: Vec<Pubkey> = Vec::new();
                proof {
                    assert(added =~= Set::empty());
                    assert(physical_added@.to_set() =~= Set::<Pubkey>::empty());
                }
                EvictingAdmissionResult::InsertedNoEviction { physical_added }
            },
            FixedCapAdmissionResult::RejectedExistingOwner => {
                self.planning_stats = stats_before;
                EvictingAdmissionResult::RejectedExistingOwner
            },
            FixedCapAdmissionResult::RejectedInvalidGroup => {
                self.planning_stats = stats_before;
                EvictingAdmissionResult::RejectedInvalidInput
            },
            FixedCapAdmissionResult::RejectedCap { .. }
            | FixedCapAdmissionResult::InternalInvariantViolation => {
                self.planning_stats = stats_before;
                EvictingAdmissionResult::InternalInvariantViolation
            },
        }
    }
}

/// Complete planning entries leave no stamp without a group.
proof fn lemma_complete_covers(
    stamps: Stamps,
    extra: Seq<OwnerLruEntry>,
    owners: Set<ExplicitOwner>,
)
    requires
        stamps.dom().finite(),
        eviction_planner::entries_complete(lru_entries(stamps) + extra, owners),
    ensures
        stamps.dom().subset_of(owners),
{
    let own = lru_entries(stamps);
    let entries = own + extra;
    lemma_own_entries(stamps);
    assert forall|o: ExplicitOwner| stamps.dom().contains(o) implies owners.contains(o) by {
        assert(eviction_planner::has_entry(own, o));
        let j = choose|j: int| 0 <= j < own.len() && (#[trigger] own[j]).owner == o;
        assert(entries[j].owner == o);
        if !owners.contains(o) {
            lemma_first_unknown(entries, owners, j);
        }
    }
}

/// Result of lowering or raising the cap.
#[derive(Debug, Clone, PartialEq, Eq)]
pub enum CapShrinkResult {
    /// The tracked addresses fit the new cap.
    NoOpAlreadyWithinCap { old_cap: usize, new_cap: usize },
    /// Victims left to fit the new cap.
    Shrunk {
        old_cap: usize,
        new_cap: usize,
        victims: Vec<ExplicitOwner>,
        physical_removed: Vec<Pubkey>,
    },
    /// The groups that may go cannot free enough; the cap stays.
    RejectedProtected { required_to_free: usize },
    /// Groups and stamps do not match; nothing changed.
    InternalInvariantViolation,
}

/// Result of letting groups of one consumer go.
#[derive(Debug, Clone, Copy, PartialEq, Eq, Structural)]
pub struct ShedResult {
    pub groups_evicted: usize,
    pub groups_skipped_must_hot: usize,
}

/// The addresses that wallet groups hold.
pub open spec fn wallet_addresses(groups: Groups) -> Set<Pubkey> {
    owner_index::physical(
        groups.restrict(
            groups.dom().filter(
                |o: ExplicitOwner| o.consumer == explicit_ownership::ExplicitConsumer::Wallet,
            ),
        ),
    )
}

/// The state without the groups and stamps of `gone`, under another cap.
pub open spec fn shrunk(before: AdmissionView, gone: Set<ExplicitOwner>, cap: usize) -> AdmissionView {
    AdmissionView {
        cap,
        groups: before.groups.remove_keys(gone),
        stamps: before.stamps.remove_keys(gone),
        next: before.next,
    }
}

/// What changing the cap does.
pub open spec fn shrink_cap_outcome(
    before: AdmissionView,
    new_cap: usize,
    result: CapShrinkResult,
    after: AdmissionView,
) -> bool {
    let required = before.len() - new_cap;
    if before.len() <= new_cap {
        &&& result == (CapShrinkResult::NoOpAlreadyWithinCap { old_cap: before.cap, new_cap })
        &&& after == shrunk(before, Set::empty(), new_cap)
    } else if !(before.stamps.dom() =~= before.groups.dom()) {
        result is InternalInvariantViolation && after == before
    } else {
        match eviction_planner::opened_tier(
            before.groups,
            Set::empty(),
            explicit_ownership::ExplicitConsumer::Wallet,
            required,
        ) {
            None => {
                &&& result == (CapShrinkResult::RejectedProtected {
                    required_to_free: required as usize,
                })
                &&& after == before
            },
            Some(tier) => {
                let named = eviction_model::selection(
                    before.groups,
                    before.stamps,
                    tier,
                    Set::empty(),
                    required,
                    Seq::empty(),
                )->0;
                &&& result matches CapShrinkResult::Shrunk {
                    old_cap,
                    new_cap: cap,
                    victims,
                    physical_removed,
                }
                &&& old_cap == before.cap
                &&& cap == new_cap
                &&& victims@ == named
                &&& ordered::lists(
                    physical_removed@,
                    eviction_model::freed(before.groups, named.to_set(), Set::empty()),
                )
                &&& after == shrunk(before, named.to_set(), new_cap)
            },
        }
    }
}

impl FixedCapAdmission {
    /// Forgets all groups and stamps.
    pub fn clear_for_restore(&mut self)
        requires
            old(self).wf(),
        ensures
            final(self).wf(),
            final(self)@ == (AdmissionView {
                cap: old(self)@.cap,
                groups: Map::empty(),
                stamps: Map::empty(),
                next: 1,
            }),
            final(self).switches() == old(self).switches(),
            final(self).stats() == old(self).stats(),
    {
        self.ownership.clear();
        self.owner_lru.clear();
        self.next_touch_stamp = 1;
        self.physical_len = 0;
        proof {
            assert(owner_index::physical(self.ownership@) =~= Set::empty());
        }
    }

    /// Whether the wallet groups alone hold more than `cap` addresses.
    pub fn wallet_demand_exceeds_cap(&self, cap: usize) -> (r: bool)
        requires
            self.wf(),
        ensures
            r == (wallet_addresses(self@.groups).len() > cap),
    {
        let ghost groups = self@.groups;
        let ghost wallet = groups.dom().filter(
            |o: ExplicitOwner| o.consumer == explicit_ownership::ExplicitConsumer::Wallet,
        );
        let owners = self.ownership.owners();
        let mut keys: Vec<Pubkey> = Vec::new();
        let mut i: usize = 0;
        while i < owners.len()
            invariant
                self.wf(),
                groups == self@.groups,
                ordered::lists(owners@, groups.dom()),
                0 <= i <= owners@.len(),
                ordered::sorted(keys@),
                forall|pk: Pubkey| #[trigger]
                    keys@.to_set().contains(pk) <==> exists|j: int|
                        0 <= j < i && (#[trigger] owners@[j]).consumer
                            == explicit_ownership::ExplicitConsumer::Wallet
                            && groups[owners@[j]].contains(pk),
            decreases owners@.len() - i,
        {
            proof {
                assert(owners@.to_set().contains(owners@[i as int]));
            }
            let ghost before = keys@.to_set();
            if owners[i].consumer == explicit_ownership::ExplicitConsumer::Wallet {
                match self.ownership.owner_group(&owners[i]) {
                    Some(group) => {
                        let mut k: usize = 0;
                        while k < group.len()
                            invariant
                                0 <= k <= group@.len(),
                                ordered::sorted(keys@),
                                keys@.to_set() =~= before.union(group@.take(k as int).to_set()),
                            decreases group@.len() - k,
                        {
                            proof {
                                ordered::lemma_take_step(group@, k as int);
                            }
                            let _ = ordered::add_key(&mut keys, group[k]);
                            k = k + 1;
                        }
                        proof {
                            assert(group@.take(k as int) =~= group@);
                        }
                    },
                    None => {},
                }
            }
            proof {
                assert forall|pk: Pubkey| #[trigger]
                    keys@.to_set().contains(pk) <==> exists|j: int|
                        0 <= j < i + 1 && (#[trigger] owners@[j]).consumer
                            == explicit_ownership::ExplicitConsumer::Wallet
                            && groups[owners@[j]].contains(pk) by {
                    if before.contains(pk) {
                        let j = choose|j: int|
                            0 <= j < i && (#[trigger] owners@[j]).consumer
                                == explicit_ownership::ExplicitConsumer::Wallet
                                && groups[owners@[j]].contains(pk);
                        assert(owners@[j].consumer
                            == explicit_ownership::ExplicitConsumer::Wallet);
                    } else if keys@.to_set().contains(pk) {
                        assert(groups[owners@[i as int]].contains(pk));
                    }
                    if exists|j: int|
                        0 <= j < i + 1 && (#[trigger] owners@[j]).consumer
                            == explicit_ownership::ExplicitConsumer::Wallet
                            && groups[owners@[j]].contains(pk) {
                        let j = choose|j: int|
                            0 <= j < i + 1 && (#[trigger] owners@[j]).consumer
                                == explicit_ownership::ExplicitConsumer::Wallet
                                && groups[owners@[j]].contains(pk);
                        if j < i {
                            assert(before.contains(pk));
                        }
                    }
                }
            }
            i = i + 1;
        }
        proof {
            let held = wallet_addresses(groups);
            let sub = groups.restrict(wallet);
            assert forall|pk: Pubkey| keys@.to_set().contains(pk) == held.contains(pk) by {
                if keys@.to_set().contains(pk) {
                    let j = choose|j: int|
                        0 <= j < owners@.len() && (#[trigger] owners@[j]).consumer
                            == explicit_ownership::ExplicitConsumer::Wallet
                            && groups[owners@[j]].contains(pk);
                    assert(owners@.to_set().contains(owners@[j]));
                    assert(sub.dom().contains(owners@[j]) && sub[owners@[j]].contains(pk));
                }
                if held.contains(pk) {
                    let o = choose|o: ExplicitOwner|
                        sub.dom().contains(o) && #[trigger] sub[o].contains(pk);
                    assert(owners@.to_set().contains(o));
                    let j = choose|j: int| 0 <= j < owners@.len() && owners@[j] == o;
                    assert(owners@[j].consumer == explicit_ownership::ExplicitConsumer::Wallet);
                }
            }
            assert(keys@.to_set() =~= held);
            ordered::lemma_sorted_no_duplicates(keys@);
        }
        keys.len() > cap
    }

    /// Removes the groups and stamps of the given owners.
    fn remove_owners(&mut self, gone: &[ExplicitOwner])
        requires
            old(self).ownership.wf(),
            old(self).owner_lru.wf(),
        ensures
            final(self).ownership.wf(),
            final(self).owner_lru.wf(),
            final(self).same_shell(old(self)),
            final(self).planning_stats == old(self).planning_stats,
            final(self).next_touch_stamp == old(self).next_touch_stamp,
            final(self).physical_len == old(self).physical_len,
            final(self).ownership@ =~= old(self).ownership@.remove_keys(gone@.to_set()),
            final(self).owner_lru@ =~= old(self).owner_lru@.remove_keys(gone@.to_set()),
    {
        let ghost groups = self.ownership@;
        self.owner_lru = touch_stamps::drop_stamps(&self.owner_lru, gone);
        let mut i: usize = 0;
        proof {
            assert(gone@.take(0).to_set() =~= Set::<ExplicitOwner>::empty());
            assert(groups.remove_keys(Set::empty()) =~= groups);
        }
        while i < gone.len()
            invariant
                self.ownership.wf(),
                self.owner_lru.wf(),
                self.same_shell(old(self)),
                self.planning_stats == old(self).planning_stats,
                self.next_touch_stamp == old(self).next_touch_stamp,
                self.physical_len == old(self).physical_len,
                self.owner_lru@ == old(self).owner_lru@.remove_keys(gone@.to_set()),
                groups == old(self).ownership@,
                0 <= i <= gone@.len(),
                self.ownership@ =~= groups.remove_keys(gone@.take(i as int).to_set()),
            decreases gone@.len() - i,
        {
            proof {
                ordered::lemma_take_step(gone@, i as int);
                assert(groups.remove_keys(gone@.take(i as int).to_set()).remove(gone@[i as int])
                    =~= groups.remove_keys(gone@.take(i + 1).to_set()));
            }
            let _ = self.ownership.remove_group(&gone[i]);
            i = i + 1;
        }
        proof {
            assert(gone@.take(i as int) =~= gone@);
        }
    }

    /// Sets a new cap, letting the least protected groups go when it is too small.
    pub fn try_shrink_cap(&mut self, new_cap: usize) -> (r: CapShrinkResult)
        requires
            old(self).wf(),
        ensures
            final(self).wf(),
            final(self).switches() == old(self).switches(),
            final(self).stats() == old(self).stats(),
            shrink_cap_outcome(old(self)@, new_cap, r, final(self)@),
    {
        let old_cap: usize = self.cap;
        if self.physical_len <= new_cap {
            self.cap = new_cap;
            proof {
                assert(old(self)@.groups.remove_keys(Set::empty()) =~= old(self)@.groups);
                assert(old(self)@.stamps.remove_keys(Set::empty()) =~= old(self)@.stamps);
            }
            return CapShrinkResult::NoOpAlreadyWithinCap { old_cap, new_cap };
        }
        let entries = self.snapshot_lru_entries();
        let ghost listed = entries@;
        proof {
            self.ownership.lemma_wf();
            self.owner_lru.lemma_view();
            lemma_own_entries_complete(self@.stamps, self@.groups.dom());
        }
        let snapshot = match EvictionPlanningSnapshot::from_ownership(&self.ownership, entries) {
            Ok(snapshot) => snapshot,
            Err(error) => {
                proof {
                    lemma_build_error(listed, self@.groups.dom(), error);
                }
                return CapShrinkResult::InternalInvariantViolation;
            },
        };
        proof {
            snapshot.lemma_parts();
            assert forall|o: ExplicitOwner| #[trigger]
                snapshot.stamps().dom().contains(o) implies snapshot.stamps()[o]
                == self@.stamps[o] by {
                lemma_own_entries(self@.stamps);
                assert(eviction_planner::has_entry(listed, o));
                let j = choose|j: int| 0 <= j < listed.len() && (#[trigger] listed[j]).owner == o;
                assert(snapshot.stamps()[listed[j].owner] == listed[j].last_touch);
            }
            assert(snapshot.stamps() =~= self@.stamps);
        }
        match eviction_planner::select_cap_shrink_victims(&snapshot, new_cap) {
            eviction_planner::CapShrinkSelectionResult::NoShrinkNeeded => {
                CapShrinkResult::InternalInvariantViolation
            },
            eviction_planner::CapShrinkSelectionResult::InternalInvariantViolation => {
                CapShrinkResult::InternalInvariantViolation
            },
            eviction_planner::CapShrinkSelectionResult::RejectedProtected { required_to_free } => {
                CapShrinkResult::RejectedProtected { required_to_free }
            },
            eviction_planner::CapShrinkSelectionResult::Planned(plan) => {
                proof {
                    eviction_planner::shrink_plan_fits_target(
                        self@.groups,
                        self@.stamps,
                        self.physical_len,
                        new_cap,
                        plan,
                    );
                }
                self.remove_owners(plan.victims.as_slice());
                self.cap = new_cap;
                self.physical_len = plan.projected_final_len;
                CapShrinkResult::Shrunk {
                    old_cap,
                    new_cap,
                    victims: plan.victims,
                    physical_removed: plan.physical_freed,
                }
            },
        }
    }
}

/// Groups of one consumer, oldest first, as long as the budget lasts; groups that must stay are
/// passed over and counted.
pub open spec fn shed_plan(
    aged: Seq<ExplicitOwner>,
    must_stay: Set<Pubkey>,
    budget: nat,
) -> (Seq<ExplicitOwner>, nat)
    decreases aged.len(),
{
    if aged.len() == 0 {
        (Seq::empty(), 0)
    } else {
        let (gone, skipped) = shed_plan(aged.drop_last(), must_stay, budget);
        if gone.len() >= budget {
            (gone, skipped)
        } else if stays(aged.last(), must_stay) {
            (gone, skipped + 1)
        } else {
            (gone.push(aged.last()), skipped)
        }
    }
}

/// A pool group whose pool must stay.
pub open spec fn stays(owner: ExplicitOwner, must_stay: Set<Pubkey>) -> bool {
    owner.owner_key matches explicit_ownership::ExplicitOwnerKey::Pool(pool) && must_stay.contains(
        pool,
    )
}

/// The stamped owners of one consumer that have a group, oldest first.
pub open spec fn aged_owners(
    view: AdmissionView,
    consumer: explicit_ownership::ExplicitConsumer,
) -> Seq<ExplicitOwner> {
    ordered::in_order(touch_stamps::age_keys(view.stamps)).map_values(
        |k: EvictionKey| k.owner,
    ).filter(
        |o: ExplicitOwner| o.consumer == consumer && view.groups.dom().contains(o),
    )
}

impl FixedCapAdmission {
    /// Lets up to `max_groups` groups of `consumer` go, oldest first, but none of a pool that
    /// must stay.
    #[verifier::rlimit(40)]
    pub fn shed_owner_groups(
        &mut self,
        consumer: explicit_ownership::ExplicitConsumer,
        max_groups: usize,
        must_stay: &[Pubkey],
    ) -> (r: ShedResult)
        requires
            old(self).wf(),
        ensures
            final(self).wf(),
            final(self).switches() == old(self).switches(),
            final(self).stats() == old(self).stats(),
            ({
                let (gone, skipped) = shed_plan(
                    aged_owners(old(self)@, consumer),
                    must_stay@.to_set(),
                    max_groups as nat,
                );
                &&& r.groups_evicted == gone.len()
                &&& r.groups_skipped_must_hot == skipped
                &&& final(self)@ == shrunk(old(self)@, gone.to_set(), old(self)@.cap)
            }),
    {
        let kept = ordered::normalize(must_stay);
        let keys = touch_stamps::by_age(&self.owner_lru);
        let ghost all = ordered::in_order(touch_stamps::age_keys(self@.stamps)).map_values(
            |k: EvictionKey| k.owner,
        );
        let ghost wanted = |o: ExplicitOwner|
            o.consumer == consumer && self@.groups.dom().contains(o);
        proof {
            ordered::lemma_in_order(keys@, touch_stamps::age_keys(self@.stamps));
            assert(all =~= keys@.map_values(|k: EvictionKey| k.owner));
            assert(all.take(0) =~= Seq::empty());
            reveal(Seq::filter);
        }
        let mut gone: Vec<ExplicitOwner> = Vec::new();
        let mut skipped: usize = 0;
        let mut i: usize = 0;
        while i < keys.len()
            invariant
                self.wf(),
                *self == *old(self),
                ordered::lists(kept@, must_stay@.to_set()),
                all == keys@.map_values(|k: EvictionKey| k.owner),
                wanted == (|o: ExplicitOwner|
                    o.consumer == consumer && self@.groups.dom().contains(o)),
                0 <= i <= keys@.len(),
                skipped <= i,
                gone@.len() <= max_groups,
                (gone@, skipped as nat) == shed_plan(
                    all.take(i as int).filter(wanted),
                    must_stay@.to_set(),
                    max_groups as nat,
                ),
            decreases keys@.len() - i,
        {
            let owner: ExplicitOwner = keys[i].owner;
            proof {
                assert(all.take(i + 1).drop_last() =~= all.take(i as int));
                assert(all.take(i + 1).last() == owner);
                let grown = all.take(i + 1).filter(wanted);
                let before = all.take(i as int).filter(wanted);
                reveal(Seq::filter);
                if wanted(owner) {
                    assert(grown =~= before.push(owner));
                    assert(grown.drop_last() =~= before);
                    assert(grown.last() == owner);
                } else {
                    assert(grown =~= before);
                }
            }
            if owner.consumer == consumer && self.ownership.contains_owner(&owner) {
                if gone.len() < max_groups {
                    let stays_put: bool = match owner.owner_key {
                        explicit_ownership::ExplicitOwnerKey::Pool(pool) => ordered::has(
                            kept.as_slice(),
                            &pool,
                        ),
                        _ => false,
                    };
                    proof {
                        match owner.owner_key {
                            explicit_ownership::ExplicitOwnerKey::Pool(pool) => {
                                assert(kept@.to_set().contains(pool) == kept@.contains(pool));
                            },
                            _ => {},
                        }
                    }
                    if stays_put {
                        skipped = skipped + 1;
                    } else {
                        gone.push(owner);
                    }
                }
            }
            i = i + 1;
        }
        proof {
            assert(all.take(i as int) =~= all);
            self.ownership.lemma_wf();
            lemma_subset_len(self@.groups, self@.groups.remove_keys(gone@.to_set()));
        }
        let evicted: usize = gone.len();
        self.remove_owners(gone.as_slice());
        self.physical_len = self.ownership.len();
        ShedResult { groups_evicted: evicted, groups_skipped_must_hot: skipped }
    }
}

/// Filtering keeps what passes, in order.
proof fn lemma_filtered_order(
    stamps: Stamps,
    s: Seq<ExplicitOwner>,
    wanted: spec_fn(ExplicitOwner) -> bool,
)
    requires
        forall|i: int, j: int|
            0 <= i < j < s.len() ==> touch_stamps::older(
                stamps,
                #[trigger] s[i],
                #[trigger] s[j],
            ),
    ensures
        forall|i: int, j: int|
            0 <= i < j < s.filter(wanted).len() ==> touch_stamps::older(
                stamps,
                #[trigger] s.filter(wanted)[i],
                #[trigger] s.filter(wanted)[j],
            ),
        forall|o: ExplicitOwner| #[trigger]
            s.filter(wanted).contains(o) <==> s.contains(o) && wanted(o),
    decreases s.len(),
{
    reveal(Seq::filter);
    let kept = s.filter(wanted);
    if s.len() > 0 {
        let rest = s.drop_last();
        let x = s.last();
        lemma_filtered_order(stamps, rest, wanted);
        let before = rest.filter(wanted);
        assert(kept == if wanted(x) {
            before.push(x)
        } else {
            before
        });
        assert forall|o: ExplicitOwner| #[trigger] kept.contains(o) <==> s.contains(o) && wanted(
            o,
        ) by {
            if kept.contains(o) {
                let i = choose|i: int| 0 <= i < kept.len() && kept[i] == o;
                if i < before.len() {
                    assert(before.contains(o));
                    let j = choose|j: int| 0 <= j < rest.len() && rest[j] == o;
                    assert(s[j] == o);
                } else {
                    assert(s[s.len() - 1] == o);
                }
            }
            if s.contains(o) && wanted(o) {
                let i = choose|i: int| 0 <= i < s.len() && s[i] == o;
                if i < rest.len() {
                    assert(rest[i] == o);
                    assert(before.contains(o));
                    let j = choose|j: int| 0 <= j < before.len() && before[j] == o;
                    assert(kept[j] == o);
                } else {
                    assert(kept[kept.len() - 1] == o);
                }
            }
        }
        assert forall|i: int, j: int| 0 <= i < j < kept.len() implies touch_stamps::older(
            stamps,
            #[trigger] kept[i],
            #[trigger] kept[j],
        ) by {
            if j < before.len() {
                assert(touch_stamps::older(stamps, before[i], before[j]));
            } else {
                assert(before.contains(before[i]));
                let a = choose|a: int| 0 <= a < rest.len() && rest[a] == before[i];
                assert(touch_stamps::older(stamps, s[a], s[s.len() - 1]));
            }
        }
    } else {
        assert(kept =~= Seq::empty());
    }
}

/// The aged owners of a consumer: each once, oldest first.
proof fn lemma_aged_owners(view: AdmissionView, consumer: explicit_ownership::ExplicitConsumer)
    requires
        view.stamps.dom().finite(),
    ensures
        ({
            let aged = aged_owners(view, consumer);
            &&& aged.no_duplicates()
            &&& forall|o: ExplicitOwner| #[trigger]
                aged.contains(o) <==> o.consumer == consumer && view.groups.dom().contains(o)
                    && view.stamps.dom().contains(o)
            &&& forall|i: int, j: int|
                0 <= i < j < aged.len() ==> touch_stamps::older(
                    view.stamps,
                    #[trigger] aged[i],
                    #[trigger] aged[j],
                )
        }),
{
    let stamps = view.stamps;
    let set = touch_stamps::age_keys(stamps);
    stamps.dom().lemma_map_finite(|o: ExplicitOwner| touch_stamps::age_key(stamps, o));
    assert(set =~= stamps.dom().map(|o: ExplicitOwner| touch_stamps::age_key(stamps, o))) by {
        assert forall|k: EvictionKey| set.contains(k) implies stamps.dom().map(
            |o: ExplicitOwner| touch_stamps::age_key(stamps, o),
        ).contains(k) by {
            assert(stamps.dom().contains(k.owner));
        }
    }
    ordered::lemma_in_order_lists(set);
    let keys = ordered::in_order(set);
    let all = keys.map_values(|k: EvictionKey| k.owner);
    touch_stamps::lemma_age_keys(stamps, keys);
    assert forall|i: int, j: int| 0 <= i < j < all.len() implies touch_stamps::older(
        stamps,
        #[trigger] all[i],
        #[trigger] all[j],
    ) by {
        assert(keys.to_set().contains(keys[i]));
        assert(keys.to_set().contains(keys[j]));
        assert(keys[i].rank() < keys[j].rank());
        touch_stamps::lemma_older_is_rank(stamps, all[i], all[j]);
    }
    let wanted = |o: ExplicitOwner| o.consumer == consumer && view.groups.dom().contains(o);
    lemma_filtered_order(stamps, all, wanted);
    let aged = aged_owners(view, consumer);
    assert(aged == all.filter(wanted));
    assert forall|o: ExplicitOwner| #[trigger] aged.contains(o) <==> o.consumer == consumer
        && view.groups.dom().contains(o) && view.stamps.dom().contains(o) by {
        assert(all.to_set().contains(o) == all.contains(o));
    }
    assert forall|i: int, j: int| 0 <= i < aged.len() && 0 <= j < aged.len() && i
        != j implies aged[i] != aged[j] by {
        if i < j {
            assert(touch_stamps::older(stamps, aged[i], aged[j]));
        } else {
            assert(touch_stamps::older(stamps, aged[j], aged[i]));
        }
    }
}

/// Shedding works through the owners up to some place: of those before it, the free ones go and
/// the others are counted.
proof fn lemma_shed_cut(aged: Seq<ExplicitOwner>, must_stay: Set<Pubkey>, budget: nat) -> (cut: int)
    requires
        aged.no_duplicates(),
    ensures
        ({
            let (gone, skipped) = shed_plan(aged, must_stay, budget);
            &&& 0 <= cut <= aged.len()
            &&& gone.no_duplicates()
            &&& gone.len() <= budget
            &&& forall|o: ExplicitOwner| #[trigger]
                gone.contains(o) <==> aged.take(cut).contains(o) && !stays(o, must_stay)
            &&& gone.len() < budget ==> cut == aged.len()
            &&& gone.len() == budget && cut > 0 ==> gone.contains(aged[cut - 1])
            &&& skipped == aged.take(cut).to_set().filter(
                |o: ExplicitOwner| stays(o, must_stay),
            ).len()
        }),
    decreases aged.len(),
{
    let counted = |o: ExplicitOwner| stays(o, must_stay);
    if aged.len() == 0 {
        assert(aged.take(0).to_set().filter(counted) =~= Set::empty());
        0
    } else {
        let rest = aged.drop_last();
        let x = aged.last();
        let n = aged.len() as int;
        let c = lemma_shed_cut(rest, must_stay, budget);
        let (gone, skipped) = shed_plan(rest, must_stay, budget);
        assert(rest.take(c) =~= aged.take(c));
        if gone.len() >= budget {
            if c > 0 {
                assert(rest[c - 1] == aged[c - 1]);
            }
            c
        } else {
            assert(aged.take(n) =~= aged);
            assert(aged.take(n - 1) =~= rest);
            ordered::lemma_take_step(aged, n - 1);
            let old_set = rest.to_set();
            let new_set = aged.to_set();
            assert(new_set =~= old_set.insert(x));
            assert(!old_set.contains(x)) by {
                if rest.contains(x) {
                    let i = choose|i: int| 0 <= i < rest.len() && rest[i] == x;
                    assert(aged[i] == aged[n - 1]);
                }
            }
            vstd::seq_lib::seq_to_set_is_finite(rest);
            old_set.lemma_len_filter(counted);
            if stays(x, must_stay) {
                assert(new_set.filter(counted) =~= old_set.filter(counted).insert(x));
                assert forall|o: ExplicitOwner| #[trigger] gone.contains(o) <==> aged.contains(o)
                    && !stays(o, must_stay) by {
                    assert(new_set.contains(o) == aged.contains(o));
                    assert(old_set.contains(o) == rest.contains(o));
                }
            } else {
                assert(new_set.filter(counted) =~= old_set.filter(counted));
                let next = gone.push(x);
                assert forall|o: ExplicitOwner| #[trigger] next.contains(o) <==> aged.contains(o)
                    && !stays(o, must_stay) by {
                    assert(new_set.contains(o) == aged.contains(o));
                    assert(old_set.contains(o) == rest.contains(o));
                    if gone.contains(o) {
                        let i = choose|i: int| 0 <= i < gone.len() && gone[i] == o;
                        assert(next[i] == o);
                    }
                    if o == x {
                        assert(next[gone.len() as int] == x);
                    }
                    if next.contains(o) && o != x {
                        let i = choose|i: int| 0 <= i < next.len() && next[i] == o;
                        assert(gone[i] == o);
                    }
                }
                assert(next.no_duplicates()) by {
                    assert(!gone.contains(x));
                    assert forall|i: int, j: int| 0 <= i < next.len() && 0 <= j < next.len() && i
                        != j implies next[i] != next[j] by {
                        if i == gone.len() {
                            assert(gone[j] == next[j]);
                        } else if j == gone.len() {
                            assert(gone[i] == next[i]);
                        }
                    }
                }
            }
            n
        }
    }
}

/// What shedding leaves: a pool group whose pool must stay stays, and so does every group of
/// another consumer; nothing that stays changes. Those that go are as many as asked for, or all
/// there are; each was touched before every free group of the consumer that stays.
pub proof fn shedding_lets_the_oldest_free_groups_go(
    before: AdmissionView,
    consumer: explicit_ownership::ExplicitConsumer,
    must_stay: Set<Pubkey>,
    max_groups: nat,
)
    requires
        before.stamps.dom().finite(),
    ensures
        ({
            let (gone, skipped) = shed_plan(aged_owners(before, consumer), must_stay, max_groups);
            let after = shrunk(before, gone.to_set(), before.cap);
            let free = before.groups.dom().intersect(before.stamps.dom()).filter(
                |o: ExplicitOwner|
                    o.consumer == consumer && !(o.owner_key matches
                        explicit_ownership::ExplicitOwnerKey::Pool(pool) && must_stay.contains(
                        pool,
                    )),
            );
            &&& forall|o: ExplicitOwner| #[trigger]
                before.groups.dom().contains(o) && (o.owner_key matches
                    explicit_ownership::ExplicitOwnerKey::Pool(pool) && must_stay.contains(pool))
                    ==> after.groups.dom().contains(o)
            &&& forall|o: ExplicitOwner| #[trigger]
                before.groups.dom().contains(o) && o.consumer != consumer
                    ==> after.groups.dom().contains(o)
            &&& forall|o: ExplicitOwner| #[trigger]
                after.groups.dom().contains(o) ==> before.groups.dom().contains(o)
                    && after.groups[o] == before.groups[o]
            &&& forall|o: ExplicitOwner| #[trigger]
                after.stamps.dom().contains(o) ==> before.stamps.dom().contains(o)
                    && after.stamps[o] == before.stamps[o]
            &&& before.in_sync() ==> after.in_sync()
            &&& after.cap == before.cap
            &&& after.next == before.next
            &&& gone.no_duplicates()
            &&& gone.to_set() == before.groups.dom().difference(after.groups.dom())
            &&& gone.to_set().subset_of(free)
            &&& gone.len() == if free.len() <= max_groups {
                free.len()
            } else {
                max_groups
            }
            &&& forall|g: ExplicitOwner, o: ExplicitOwner| #[trigger]
                gone.contains(g) && #[trigger] free.contains(o) && !gone.contains(o)
                    ==> before.stamps[g] < before.stamps[o] || (before.stamps[g]
                    == before.stamps[o] && g.rank() < o.rank())
        }),
{
    lemma_aged_owners(before, consumer);
    let aged = aged_owners(before, consumer);
    let cut = lemma_shed_cut(aged, must_stay, max_groups);
    let (gone, skipped) = shed_plan(aged, must_stay, max_groups);
    let after = shrunk(before, gone.to_set(), before.cap);
    let free = before.groups.dom().intersect(before.stamps.dom()).filter(
        |o: ExplicitOwner|
            o.consumer == consumer && !(o.owner_key matches
                explicit_ownership::ExplicitOwnerKey::Pool(pool) && must_stay.contains(pool)),
    );
    assert forall|o: ExplicitOwner| #[trigger] gone.contains(o) implies free.contains(o) by {
        assert(aged.take(cut).contains(o));
        let i = choose|i: int| 0 <= i < cut && aged.take(cut)[i] == o;
        assert(aged[i] == o);
        assert(aged.contains(o));
    }
    assert(gone.to_set() =~= before.groups.dom().difference(after.groups.dom())) by {
        assert forall|o: ExplicitOwner| gone.to_set().contains(
            o,
        ) == before.groups.dom().difference(after.groups.dom()).contains(o) by {
            if gone.contains(o) {
                assert(free.contains(o));
            }
        }
    }
    gone.unique_seq_to_set();
    assert(free.finite()) by {
        vstd::set_lib::lemma_len_subset(free, before.stamps.dom());
    }
    if gone.len() < max_groups {
        assert(aged.take(cut) =~= aged);
        assert forall|o: ExplicitOwner| free.contains(o) implies gone.to_set().contains(o) by {
            assert(aged.contains(o));
            assert(gone.contains(o));
        }
        assert(gone.to_set() =~= free);
    } else {
        vstd::set_lib::lemma_len_subset(gone.to_set(), free);
    }
    assert forall|g: ExplicitOwner, o: ExplicitOwner| #[trigger]
        gone.contains(g) && #[trigger] free.contains(o) && !gone.contains(
            o,
        ) implies touch_stamps::older(before.stamps, g, o) by {
        assert(aged.take(cut).contains(g));
        let i = choose|i: int| 0 <= i < cut && aged.take(cut)[i] == g;
        assert(aged.contains(o));
        let j = choose|j: int| 0 <= j < aged.len() && aged[j] == o;
        if j < cut {
            assert(aged.take(cut)[j] == o);
            assert(aged.take(cut).contains(o));
            assert(gone.contains(o));
        }
        assert(touch_stamps::older(before.stamps, aged[i], aged[j]));
    }
}

/// What shedding counts as skipped: of the groups of the consumer whose pool must stay, those
/// touched before some group that went, and all of them where fewer went than asked for.
pub proof fn shedding_counts_what_it_passed_over(
    before: AdmissionView,
    consumer: explicit_ownership::ExplicitConsumer,
    must_stay: Set<Pubkey>,
    max_groups: nat,
)
    requires
        before.stamps.dom().finite(),
    ensures
        ({
            let (gone, skipped) = shed_plan(aged_owners(before, consumer), must_stay, max_groups);
            skipped == before.groups.dom().intersect(before.stamps.dom()).filter(
                |o: ExplicitOwner|
                    o.consumer == consumer && (o.owner_key matches
                        explicit_ownership::ExplicitOwnerKey::Pool(pool) && must_stay.contains(
                        pool,
                    )) && (gone.len() < max_groups || exists|g: ExplicitOwner| #[trigger]
                        gone.contains(g) && (before.stamps[o] < before.stamps[g] || (
                        before.stamps[o] == before.stamps[g] && o.rank() < g.rank()))),
            ).len()
        }),
{
    lemma_aged_owners(before, consumer);
    let aged = aged_owners(before, consumer);
    let cut = lemma_shed_cut(aged, must_stay, max_groups);
    let (gone, skipped) = shed_plan(aged, must_stay, max_groups);
    let passed = before.groups.dom().intersect(before.stamps.dom()).filter(
        |o: ExplicitOwner|
            o.consumer == consumer && (o.owner_key matches
                explicit_ownership::ExplicitOwnerKey::Pool(pool) && must_stay.contains(pool)) && (
            gone.len() < max_groups || exists|g: ExplicitOwner| #[trigger]
                gone.contains(g) && (before.stamps[o] < before.stamps[g] || (before.stamps[o]
                    == before.stamps[g] && o.rank() < g.rank()))),
    );
    let counted = aged.take(cut).to_set().filter(|o: ExplicitOwner| stays(o, must_stay));
    assert forall|o: ExplicitOwner| counted.contains(o) == passed.contains(o) by {
        if counted.contains(o) {
            let i = choose|i: int| 0 <= i < cut && aged.take(cut)[i] == o;
            assert(aged[i] == o);
            assert(aged.contains(o));
            if gone.len() >= max_groups {
                let g = aged[cut - 1];
                assert(gone.contains(g));
                assert(i != cut - 1);
                assert(touch_stamps::older(before.stamps, aged[i], aged[cut - 1]));
            }
        }
        if passed.contains(o) {
            assert(aged.contains(o));
            let j = choose|j: int| 0 <= j < aged.len() && aged[j] == o;
            if gone.len() < max_groups {
                assert(aged.take(cut)[j] == o);
            } else {
                let g = choose|g: ExplicitOwner| #[trigger]
                    gone.contains(g) && touch_stamps::older(before.stamps, o, g);
                assert(aged.take(cut).contains(g));
                let i = choose|i: int| 0 <= i < cut && aged.take(cut)[i] == g;
                assert(aged[i] == g);
                if j >= cut {
                    assert(touch_stamps::older(before.stamps, aged[i], aged[j]));
                }
                assert(aged.take(cut)[j] == o);
            }
        }
    }
    assert(counted =~= passed);
}

/// Touching an owner keeps stamps and groups in step.
proof fn lemma_committed_in_sync(view: AdmissionView, owner: ExplicitOwner, keys: Seq<Pubkey>)
    requires
        view.in_sync(),
        view.stamps.dom().finite(),
        touch_stamps::stamp_assigned(view.stamps, view.next, owner) is Some,
    ensures
        view.committed(owner, keys).in_sync(),
{
    touch_stamps::touch_makes_most_recent(view.stamps, view.next, owner);
}

/// Inserting keeps stamps and groups in step.
pub proof fn insert_keeps_sync(
    before: AdmissionView,
    faults: FaultSwitches,
    owner: ExplicitOwner,
    keys: Seq<Pubkey>,
    result: FixedCapAdmissionResult,
    after: AdmissionView,
)
    requires
        before.in_sync(),
        before.groups.dom().finite(),
        insert_outcome(before, faults, owner, keys, result, after),
    ensures
        after.in_sync(),
{
    if before.can_stamp(faults, owner) {
        lemma_committed_in_sync(before, owner, ordered::in_order(keys.to_set()));
    }
}

/// Replacing keeps stamps and groups in step.
pub proof fn replace_keeps_sync(
    before: AdmissionView,
    faults: FaultSwitches,
    owner: ExplicitOwner,
    keys: Seq<Pubkey>,
    result: FixedCapReplaceResult,
    after: AdmissionView,
)
    requires
        before.in_sync(),
        before.groups.dom().finite(),
        replace_outcome(before, faults, owner, keys, result, after),
    ensures
        after.in_sync(),
{
    if before.can_stamp(faults, owner) {
        lemma_committed_in_sync(before, owner, ordered::in_order(keys.to_set()));
    }
}

/// Removing keeps stamps and groups in step.
pub proof fn remove_keeps_sync(
    before: AdmissionView,
    faults: FaultSwitches,
    owner: ExplicitOwner,
    result: FixedCapRemoveResult,
    after: AdmissionView,
)
    requires
        before.in_sync(),
        remove_outcome(before, faults, owner, result, after),
    ensures
        after.in_sync(),
{
}

/// Touching keeps stamps and groups in step.
pub proof fn touch_keeps_sync(
    before: AdmissionView,
    faults: FaultSwitches,
    owner: ExplicitOwner,
    result: TouchResult,
    after: AdmissionView,
)
    requires
        before.in_sync(),
        before.groups.dom().finite(),
        touch_outcome(before, faults, owner, result, after),
    ensures
        after.in_sync(),
{
    if before.can_stamp(faults, owner) {
        lemma_committed_in_sync(before, owner, before.groups[owner]);
    }
}

/// Inserting with eviction keeps stamps and groups in step.
pub proof fn evict_keeps_sync(
    before: AdmissionView,
    faults: FaultSwitches,
    owner: ExplicitOwner,
    keys: Seq<Pubkey>,
    result: EvictingAdmissionResult,
    after: AdmissionView,
)
    requires
        before.in_sync(),
        before.groups.dom().finite(),
        faults.all_off(),
        evict_outcome(before, faults, owner, keys, result, after),
    ensures
        after.in_sync(),
{
    if before.can_stamp(faults, owner) {
        lemma_committed_in_sync(before, owner, ordered::in_order(keys.to_set()));
    }
    if result is InsertedWithEviction {
        let tier = room_tier(before, owner, keys)->0;
        let gone = chosen_victims(before, planning_entries(before, faults), tier, keys).to_set();
        let left = before.stamps.remove_keys(gone);
        vstd::set_lib::lemma_len_subset(left.dom(), before.stamps.dom());
        touch_stamps::touch_makes_most_recent(left, before.next, owner);
        assert(left.dom() =~= before.groups.remove_keys(gone).dom());
    }
}

/// A new cap keeps stamps and groups in step.
pub proof fn shrink_keeps_sync(
    before: AdmissionView,
    new_cap: usize,
    result: CapShrinkResult,
    after: AdmissionView,
)
    requires
        before.in_sync(),
        shrink_cap_outcome(before, new_cap, result, after),
    ensures
        after.in_sync(),
{
    if result is Shrunk {
        let gone = result->victims@.to_set();
        assert(before.stamps.remove_keys(gone).dom() =~= before.groups.remove_keys(gone).dom());
    }
}

/// While stamps and groups are in step, a stamp can be assigned and no fault is injected, no
/// operation reports a broken invariant.
pub proof fn sound_state_never_breaks(before: AdmissionView, faults: FaultSwitches)
    requires
        before.in_sync(),
        before.groups.dom().finite(),
        before.has_stamp_room(),
        faults.all_off(),
    ensures
        forall|owner: ExplicitOwner, keys: Seq<Pubkey>, r: FixedCapAdmissionResult, v: AdmissionView|
            #[trigger] insert_outcome(before, faults, owner, keys, r, v) ==> !(r
                is InternalInvariantViolation),
        forall|owner: ExplicitOwner, keys: Seq<Pubkey>, r: FixedCapReplaceResult, v: AdmissionView|
            #[trigger] replace_outcome(before, faults, owner, keys, r, v) ==> !(r
                is PlanningInvariantViolation) && !(r is InternalInvariantViolation),
        forall|owner: ExplicitOwner, r: FixedCapRemoveResult, v: AdmissionView| #[trigger]
            remove_outcome(before, faults, owner, r, v) ==> !(r is PlanningInvariantViolation)
                && !(r is InternalInvariantViolation),
        forall|owner: ExplicitOwner, r: TouchResult, v: AdmissionView| #[trigger]
            touch_outcome(before, faults, owner, r, v) ==> !(r is InternalInvariantViolation),
        forall|owner: ExplicitOwner, keys: Seq<Pubkey>, r: EvictingAdmissionResult, v: AdmissionView|
            #[trigger] evict_outcome(before, faults, owner, keys, r, v) && before.len()
                + before.fresh(keys).len() <= usize::MAX ==> !(r is InternalInvariantViolation),
{
    assert(forall|owner: ExplicitOwner| #[trigger] before.can_stamp(faults, owner));
    assert forall|
        owner: ExplicitOwner,
        keys: Seq<Pubkey>,
        r: EvictingAdmissionResult,
        v: AdmissionView,
    | #[trigger]
        evict_outcome(before, faults, owner, keys, r, v) && before.len() + before.fresh(keys).len()
            <= usize::MAX implies !(r is InternalInvariantViolation) by {
        assert(before.can_stamp(faults, owner));
        assert(planning_entries(before, faults) =~= lru_entries(before.stamps));
        lemma_own_entries_complete(before.stamps, before.groups.dom());
        if room_tier(before, owner, keys) is Some {
            let tier = room_tier(before, owner, keys)->0;
            let gone = chosen_victims(
                before,
                planning_entries(before, faults),
                tier,
                keys,
            ).to_set();
            let left = before.stamps.remove_keys(gone);
            vstd::set_lib::lemma_len_subset(left.dom(), before.stamps.dom());
            assert(left.dom() =~= before.groups.remove_keys(gone).dom());
            assert(stamps_usable(before, gone));
        }
    }
}

/// No two owners have the same stamp.
pub open spec fn all_distinct(stamps: Stamps) -> bool {
    forall|a: ExplicitOwner, b: ExplicitOwner| #[trigger]
        stamps.dom().contains(a) && #[trigger] stamps.dom().contains(b) && a != b ==> stamps[a]
            != stamps[b]
}

proof fn lemma_assigned_distinct(view: AdmissionView, gone: Set<ExplicitOwner>, owner: ExplicitOwner)
    requires
        view.in_sync(),
        view.stamps_distinct(),
        view.stamps.dom().finite(),
        stamps_planned(view, gone, owner) is Some,
    ensures
        all_distinct((stamps_planned(view, gone, owner)->0).0),
{
    let left = view.stamps.remove_keys(gone);
    let after = (stamps_planned(view, gone, owner)->0).0;
    assert(left.dom().subset_of(view.stamps.dom()));
    vstd::set_lib::lemma_len_subset(left.dom(), view.stamps.dom());
    touch_stamps::touch_makes_most_recent(left, view.next, owner);
    assert forall|a: ExplicitOwner, b: ExplicitOwner| #[trigger]
        after.dom().contains(a) && #[trigger] after.dom().contains(b) && a != b implies after[a]
        != after[b] by {
        if a != owner && b != owner {
            assert(view.stamps.dom().contains(a) && view.stamps.dom().contains(b));
            if view.next == u64::MAX {
                touch_stamps::renumbering_keeps_order(left, a, b);
                touch_stamps::renumbering_keeps_order(left, b, a);
                assert(touch_stamps::older(left, a, b) || touch_stamps::older(left, b, a));
            }
        }
    }
}

/// No two owners ever have the same stamp: a new layer has no stamps, and every operation keeps
/// them distinct, with faults injected too where the candidate of an eviction is left alone.
pub proof fn stamps_stay_distinct(before: AdmissionView, faults: FaultSwitches)
    requires
        before.in_sync(),
        before.stamps_distinct(),
        before.groups.dom().finite(),
    ensures
        forall|owner: ExplicitOwner, keys: Seq<Pubkey>, r: FixedCapAdmissionResult, v: AdmissionView|
            #[trigger] insert_outcome(before, faults, owner, keys, r, v) ==> v.stamps_distinct(),
        forall|owner: ExplicitOwner, keys: Seq<Pubkey>, r: FixedCapReplaceResult, v: AdmissionView|
            #[trigger] replace_outcome(before, faults, owner, keys, r, v) ==> v.stamps_distinct(),
        forall|owner: ExplicitOwner, r: FixedCapRemoveResult, v: AdmissionView| #[trigger]
            remove_outcome(before, faults, owner, r, v) ==> v.stamps_distinct(),
        forall|owner: ExplicitOwner, r: TouchResult, v: AdmissionView| #[trigger]
            touch_outcome(before, faults, owner, r, v) ==> v.stamps_distinct(),
        forall|owner: ExplicitOwner, keys: Seq<Pubkey>, r: EvictingAdmissionResult, v: AdmissionView|
            #[trigger] evict_outcome(before, faults, owner, keys, r, v)
                && faults.candidate_untouched() ==> v.stamps_distinct(),
        forall|cap: usize, r: CapShrinkResult, v: AdmissionView| #[trigger]
            shrink_cap_outcome(before, cap, r, v) ==> v.stamps_distinct(),
        forall|gone: Set<ExplicitOwner>, cap: usize| #[trigger]
            shrunk(before, gone, cap).stamps_distinct(),
{
    let nobody = Set::<ExplicitOwner>::empty();
    assert(before.stamps.remove_keys(nobody) =~= before.stamps);
    assert forall|owner: ExplicitOwner, keys: Seq<Pubkey>| before.can_stamp(
        faults,
        owner,
    ) implies #[trigger] before.committed(owner, keys).stamps_distinct() by {
        lemma_assigned_distinct(before, nobody, owner);
        let after = before.committed(owner, keys).stamps;
        assert(after == (stamps_planned(before, nobody, owner)->0).0);
        assert forall|a: ExplicitOwner, b: ExplicitOwner| #[trigger]
            after.dom().contains(a) && #[trigger] after.dom().contains(b) && a != b implies after[a]
            != after[b] by {
            let planned = (stamps_planned(before, nobody, owner)->0).0;
            assert(planned.dom().contains(a) && planned.dom().contains(b));
        }
    }
    assert forall|
        owner: ExplicitOwner,
        keys: Seq<Pubkey>,
        r: EvictingAdmissionResult,
        v: AdmissionView,
    | #[trigger]
        evict_outcome(before, faults, owner, keys, r, v)
            && faults.candidate_untouched() implies v.stamps_distinct() by {
        if r is InsertedWithEviction {
            let entries = planning_entries(before, faults);
            let tier = room_tier(before, owner, keys)->0;
            let gone = chosen_victims(before, entries, tier, keys).to_set();
            lemma_assigned_distinct(before, gone, owner);
            let planned = (stamps_planned(before, gone, owner)->0).0;
            assert(v.stamps == planned);
        }
    }
}

proof fn lemma_least_stamp(stamps: Stamps, o: ExplicitOwner)
    requires
        stamps.dom().contains(o),
    ensures
        exists|n: u64| is_least_stamp(stamps, n),
    decreases stamps[o],
{
    if forall|p: ExplicitOwner| #[trigger] stamps.dom().contains(p) ==> stamps[o] <= stamps[p] {
        assert(is_least_stamp(stamps, stamps[o]));
    } else {
        let p = choose|p: ExplicitOwner| #[trigger]
            stamps.dom().contains(p) && stamps[p] < stamps[o];
        lemma_least_stamp(stamps, p);
    }
}

/// A switch touches the candidate of an eviction: a survivor is left out, the length or the
/// counter is wrong, a group is added or altered, or a stamp is lowered, that of the newcomer or,
/// while stamps are not renumbered, any.
pub open spec fn touches_candidate(
    before: AdmissionView,
    faults: FaultSwitches,
    owner: ExplicitOwner,
    keys: Seq<Pubkey>,
    gone: Set<ExplicitOwner>,
) -> bool {
    let planned = before.groups.remove_keys(gone).insert(owner, ordered::in_order(keys.to_set()));
    ||| faults.evicting_omit_survivor matches Some(o) && before.groups.dom().contains(o)
        && !gone.contains(o)
    ||| faults.evicting_corrupt_physical_len
    ||| faults.evicting_corrupt_next_touch_stamp
    ||| faults.evicting_extra_candidate_owner matches Some(extra) && (extra.1@.len() == 0
        || !planned.dom().contains(extra.0) || planned[extra.0] != ordered::in_order(
        extra.1@.to_set(),
    ))
    ||| faults.evicting_corrupt_survivor_stamp matches Some(o) && (before.next != u64::MAX || o
        == owner) && stamps_planned(before, gone, owner) is Some && ({
        let stamps = (stamps_planned(before, gone, owner)->0).0;
        stamps.dom().contains(o) && stamps[o] > 0
    })
}

/// A candidate that a switch has touched is never committed: the insertion is refused and
/// nothing changes.
pub proof fn touched_candidate_is_refused(
    before: AdmissionView,
    faults: FaultSwitches,
    owner: ExplicitOwner,
    keys: Seq<Pubkey>,
    result: EvictingAdmissionResult,
    after: AdmissionView,
)
    requires
        keys.len() > 0,
        !before.groups.dom().contains(owner),
        before.len() + before.fresh(keys).len() > before.cap,
        room_tier(before, owner, keys) matches Some(tier) && touches_candidate(
            before,
            faults,
            owner,
            keys,
            chosen_victims(before, planning_entries(before, faults), tier, keys).to_set(),
        ),
        evict_outcome(before, faults, owner, keys, result, after),
    ensures
        result is InternalInvariantViolation,
        after == before,
{
    let entries = planning_entries(before, faults);
    let tier = room_tier(before, owner, keys)->0;
    let gone = chosen_victims(before, entries, tier, keys).to_set();
    let listing = ordered::in_order(keys.to_set());
    vstd::seq_lib::seq_to_set_is_finite(keys);
    ordered::lemma_in_order_lists(keys.to_set());
    let c = candidate_state(before, faults, owner, listing, gone);
    let counted = candidate_count(faults, c.groups) as usize;
    if has_candidate(before, faults, owner, listing, gone) && accepted(
        before,
        c,
        counted,
        gone,
        owner,
        listing,
    ) {
        if faults.evicting_corrupt_next_touch_stamp {
            lemma_least_stamp(c.stamps, owner);
            assert(is_least_stamp(c.stamps, c.next));
        }
        if faults.evicting_extra_candidate_owner is Some {
            let extra = faults.evicting_extra_candidate_owner->0;
            assert(c.groups.dom().contains(extra.0));
            assert(c.groups[extra.0] == ordered::in_order(extra.1@.to_set()));
        }
        if faults.evicting_corrupt_survivor_stamp is Some {
            let o = faults.evicting_corrupt_survivor_stamp->0;
            let stamps = (stamps_planned(before, gone, owner)->0).0;
            if stamps.dom().contains(o) && stamps[o] > 0 {
                assert(c.stamps[o] == stamps[o] - 1);
                if o != owner && before.next != u64::MAX {
                    assert(c.stamps.dom().contains(o));
                    assert(c.groups.dom().contains(o));
                    assert(before.groups.dom().contains(o) && !gone.contains(o));
                    assert(before.stamps[o] == stamps[o]);
                } else if !faults.evicting_corrupt_next_touch_stamp {
                    assert(c.next == stamps[owner] + 1);
                }
            }
        }
    }
}

/// The candidate that is built by a plan holds the survivors and the newcomer with its keys, just
/// these have stamps, the newcomer is the most recent, the counter is one above it and above all
/// others, the length is the projected one and within the cap, and the candidate is accepted. Only
/// a counter at its limit with no number left for the survivors prevents it.
pub proof fn built_candidate_is_accepted(
    before: AdmissionView,
    faults: FaultSwitches,
    owner: ExplicitOwner,
    keys: Seq<Pubkey>,
    plan: VictimSelectionPlan,
    added: Seq<Pubkey>,
)
    requires
        before.in_sync(),
        before.groups.dom().finite(),
        before.len() <= usize::MAX,
        faults.all_off(),
        ordered::sorted(keys),
        plan_outcome(before, faults, owner, keys, VictimSelectionResult::Planned(plan)),
        stamps_planned(before, plan.victims@.to_set(), owner) is Some,
        ordered::lists(added, before.fresh(keys)),
    ensures
        ({
            let gone = plan.victims@.to_set();
            let c = candidate_state(before, faults, owner, keys, gone);
            &&& has_candidate(before, faults, owner, keys, gone)
            &&& c.groups == before.groups.remove_keys(gone).insert(owner, keys)
            &&& c.stamps.dom() == c.groups.dom()
            &&& c.next == c.stamps[owner] + 1
            &&& forall|o: ExplicitOwner| #[trigger] c.stamps.dom().contains(o) ==> c.stamps[o]
                < c.next
            &&& candidate_count(faults, c.groups) == plan.projected_final_len
            &&& plan.projected_final_len <= before.cap
            &&& candidate_valid(
                before,
                c,
                plan.projected_final_len,
                plan,
                owner,
                keys,
                added,
            )
        }),
{
    let gone = plan.victims@.to_set();
    let c = candidate_state(before, faults, owner, keys, gone);
    assert(planning_entries(before, faults) =~= lru_entries(before.stamps));
    lemma_own_entries_complete(before.stamps, before.groups.dom());
    assert(keys.to_set().difference(owner_index::physical(before.groups)) =~= before.fresh(keys));
    ordered::lemma_in_order(keys, keys.to_set());
    lemma_pressure_plan(before, faults, owner, keys, VictimSelectionResult::Planned(plan));
    let left = before.stamps.remove_keys(gone);
    assert(left.dom().subset_of(before.stamps.dom()));
    vstd::set_lib::lemma_len_subset(left.dom(), before.stamps.dom());
    assert(left.dom() =~= before.groups.remove_keys(gone).dom());
    touch_stamps::touch_makes_most_recent(left, before.next, owner);
    ordered::lemma_sorted_no_duplicates(added);
    lemma_valid_iff_accepted(before, c, plan.projected_final_len, plan, owner, keys, added);
    lemma_accepted_iff_usable(before, c, plan.projected_final_len, gone, owner, keys);
}

/// A refused insertion changes nothing.
pub proof fn refused_insert_changes_nothing(
    before: AdmissionView,
    faults: FaultSwitches,
    owner: ExplicitOwner,
    keys: Seq<Pubkey>,
    result: FixedCapAdmissionResult,
    after: AdmissionView,
)
    requires
        insert_outcome(before, faults, owner, keys, result, after),
        !(result is Inserted),
        !(result is OwnerAddedNoNewPubkey),
    ensures
        after == before,
{
}

/// An insertion with eviction that is refused changes nothing: no victim leaves for a group that
/// does not come in.
pub proof fn refused_eviction_changes_nothing(
    before: AdmissionView,
    faults: FaultSwitches,
    owner: ExplicitOwner,
    keys: Seq<Pubkey>,
    result: EvictingAdmissionResult,
    after: AdmissionView,
)
    requires
        evict_outcome(before, faults, owner, keys, result, after),
        !(result is InsertedNoEviction),
        !(result is InsertedWithEviction),
    ensures
        after == before,
{
}

/// A replacement that is refused, or found to be no change, changes nothing.
pub proof fn refused_replace_changes_nothing(
    before: AdmissionView,
    faults: FaultSwitches,
    owner: ExplicitOwner,
    keys: Seq<Pubkey>,
    result: FixedCapReplaceResult,
    after: AdmissionView,
)
    requires
        replace_outcome(before, faults, owner, keys, result, after),
        !(result is Replaced),
        !(result is InternalInvariantViolation),
    ensures
        after == before,
{
}

/// Replacing a group by the keys it was just given is no change.
pub proof fn replacing_again_is_unchanged(
    before: AdmissionView,
    owner: ExplicitOwner,
    keys: Seq<Pubkey>,
    faults: FaultSwitches,
    first: FixedCapReplaceResult,
    between: AdmissionView,
    second: FixedCapReplaceResult,
    after: AdmissionView,
)
    requires
        replace_outcome(before, faults, owner, keys, first, between),
        first is Replaced,
        replace_outcome(between, faults, owner, keys, second, after),
    ensures
        second is Unchanged,
        after == between,
{
}

/// A plan foretells what the insertion does: with no fault injected and a stamp to be had, it
/// names the victims that leave, and an insertion that needs no victims is planned without any.
pub proof fn plan_foretells_insertion(
    before: AdmissionView,
    faults: FaultSwitches,
    owner: ExplicitOwner,
    keys: Seq<Pubkey>,
    plan: VictimSelectionResult,
    result: EvictingAdmissionResult,
    after: AdmissionView,
)
    requires
        before.in_sync(),
        before.groups.dom().finite(),
        before.len() + before.fresh(keys).len() <= usize::MAX,
        faults.all_off(),
        plan_outcome(before, faults, owner, keys, plan),
        plan is NoEvictionNeeded ==> before.has_stamp_room(),
        plan matches VictimSelectionResult::Planned(named) ==> stamps_planned(
            before,
            named.victims@.to_set(),
            owner,
        ) is Some,
        evict_outcome(before, faults, owner, keys, result, after),
    ensures
        plan is RejectedInvalidInput <==> result is RejectedInvalidInput || result
            is RejectedExistingOwner,
        plan is NoEvictionNeeded <==> result is InsertedNoEviction,
        plan is Planned <==> result is InsertedWithEviction,
        plan matches VictimSelectionResult::Planned(named) ==> {
            &&& result->victims@ == named.victims@
            &&& result->physical_removed@ == named.physical_freed@
            &&& result->opened_through == named.opened_through
            &&& after.len() == named.projected_final_len
        },
        plan is RejectedProtected <==> result is RejectedProtected,
        !(plan is InternalInvariantViolation),
        !(result is InternalInvariantViolation),
{
    assert(planning_entries(before, faults) =~= lru_entries(before.stamps));
    lemma_own_entries_complete(before.stamps, before.groups.dom());
    assert(keys.to_set().difference(owner_index::physical(before.groups)) =~= before.fresh(keys));
    if plan is Planned {
        let listing = ordered::in_order(keys.to_set());
        vstd::seq_lib::seq_to_set_is_finite(keys);
        ordered::lemma_in_order_lists(keys.to_set());
        assert(listing.to_set() =~= keys.to_set());
        assert(listing.contains(keys[0])) by {
            assert(keys.to_set().contains(keys[0]));
        }
        lemma_pressure_plan(before, faults, owner, keys, plan);
        let named = plan->0;
        let gone = named.victims@.to_set();
        assert(before.stamps.remove_keys(gone).dom() =~= before.groups.remove_keys(gone).dom());
        assert(stamps_usable(before, gone));
        let freed = eviction_model::freed(before.groups, named.victims@.to_set(), keys.to_set());
        ordered::lemma_in_order(named.physical_freed@, freed);
        ordered::lemma_in_order(result->physical_removed@, freed);
    }
}

/// Only the named owner is affected by an insertion, a replacement or a removal.
pub proof fn other_groups_stay(
    before: AdmissionView,
    owner: ExplicitOwner,
    other: ExplicitOwner,
    keys: Seq<Pubkey>,
)
    requires
        other != owner,
    ensures
        before.committed(owner, keys).groups.dom().contains(other)
            == before.groups.dom().contains(other),
        before.committed(owner, keys).groups[other] == before.groups[other],
        before.without(owner).groups.dom().contains(other) == before.groups.dom().contains(other),
        before.without(owner).groups[other] == before.groups[other],
{
}

/// Removing a group right after it was inserted brings the previous groups back.
pub proof fn insert_then_remove_restores_groups(
    before: AdmissionView,
    owner: ExplicitOwner,
    keys: Seq<Pubkey>,
)
    requires
        !before.groups.dom().contains(owner),
    ensures
        before.committed(owner, keys).without(owner).groups =~= before.groups,
{
}

/// Where the permitted groups `gone` would make room, a tier is opened that makes room, and the
/// victims it names are permitted ones.
pub proof fn lemma_room_is_found(
    before: AdmissionView,
    owner: ExplicitOwner,
    keys: Seq<Pubkey>,
    gone: Set<ExplicitOwner>,
)
    requires
        before.groups.dom().finite(),
        keys.len() > 0,
        !before.groups.dom().contains(owner),
        gone.subset_of(before.groups.dom()),
        forall|o: ExplicitOwner| #[trigger]
            gone.contains(o) ==> match owner.consumer {
                explicit_ownership::ExplicitConsumer::Tracker => o.consumer
                    == explicit_ownership::ExplicitConsumer::Tracker,
                explicit_ownership::ExplicitConsumer::Arb => o.consumer
                    == explicit_ownership::ExplicitConsumer::Tracker || o.consumer
                    == explicit_ownership::ExplicitConsumer::Arb,
                _ => o.consumer != explicit_ownership::ExplicitConsumer::Wallet,
            },
        owner_index::physical(before.groups.remove_keys(gone).insert(owner, keys)).len()
            <= before.cap,
    ensures
        before.len() + before.fresh(keys).len() <= before.cap || room_tier(before, owner, keys)
            is Some,
{
    eviction_model::lemma_physical_replaced(before.groups, gone, owner, keys);
    let wanted = keys.to_set();
    let last = EvictionTier::last_for(owner.consumer);
    let all = eviction_model::evictable(before.groups, last);
    let enough = eviction_model::freed(before.groups, gone, wanted);
    let most = eviction_planner::freeable(before.groups, last, wanted);
    eviction_model::lemma_freed_finite(before.groups, all, wanted);
    assert(gone.subset_of(all));
    assert(enough.subset_of(most));
    vstd::set_lib::lemma_len_subset(enough, most);
}

/// What the victims of an opened tier leave: each is permitted, and the newcomer fits.
pub proof fn lemma_opened_tier_makes_room(
    before: AdmissionView,
    entries: Seq<OwnerLruEntry>,
    owner: ExplicitOwner,
    keys: Seq<Pubkey>,
)
    requires
        before.groups.dom().finite(),
        keys.len() > 0,
        !before.groups.dom().contains(owner),
        before.len() + before.fresh(keys).len() > before.cap,
        room_tier(before, owner, keys) is Some,
    ensures
        ({
            let gone = chosen_victims(
                before,
                entries,
                room_tier(before, owner, keys)->0,
                keys,
            ).to_set();
            &&& gone.subset_of(before.groups.dom())
            &&& forall|o: ExplicitOwner| #[trigger]
                gone.contains(o) ==> match owner.consumer {
                    explicit_ownership::ExplicitConsumer::Tracker => o.consumer
                        == explicit_ownership::ExplicitConsumer::Tracker,
                    explicit_ownership::ExplicitConsumer::Arb => o.consumer
                        == explicit_ownership::ExplicitConsumer::Tracker || o.consumer
                        == explicit_ownership::ExplicitConsumer::Arb,
                    _ => o.consumer != explicit_ownership::ExplicitConsumer::Wallet,
                }
            &&& owner_index::physical(
                before.groups.remove_keys(gone).insert(
                    owner,
                    ordered::in_order(keys.to_set()),
                ),
            ).len() <= before.cap
        }),
{
    let tier = room_tier(before, owner, keys)->0;
    let named = chosen_victims(before, entries, tier, keys);
    let gone = named.to_set();
    let listing = ordered::in_order(keys.to_set());
    vstd::seq_lib::seq_to_set_is_finite(keys);
    ordered::lemma_in_order_lists(keys.to_set());
    assert(listing.to_set() =~= keys.to_set());
    eviction_model::selection_succeeds_when_feasible(
        before.groups,
        entry_stamps(entries),
        tier,
        keys.to_set(),
        before.len() + before.fresh(keys).len() - before.cap,
        Seq::empty(),
    );
    assert forall|o: ExplicitOwner| #[trigger] gone.contains(o) implies eviction_model::evictable(
        before.groups,
        tier,
    ).contains(o) by {
        assert(named.contains(o));
    }
    eviction_model::lemma_physical_replaced(before.groups, gone, owner, listing);
}

/// An insertion with eviction succeeds wherever permitted evictions make room: for any groups
/// `gone` that the newcomer's consumer may evict (tracker groups for the tracker, tracker and
/// arbitrage groups for arbitrage, all but wallet groups else) and without which the newcomer
/// fits. The newcomer then has just the given addresses, only permitted groups have left, and the
/// cap is kept.
pub proof fn eviction_succeeds_where_room_can_be_made(
    before: AdmissionView,
    faults: FaultSwitches,
    owner: ExplicitOwner,
    keys: Seq<Pubkey>,
    result: EvictingAdmissionResult,
    after: AdmissionView,
    gone: Set<ExplicitOwner>,
)
    requires
        before.in_sync(),
        before.groups.dom().finite(),
        before.next != u64::MAX || before.groups.dom().len() + 2 <= u64::MAX,
        owner_index::physical(before.groups).len() + keys.to_set().len() <= usize::MAX,
        faults.all_off(),
        keys.len() > 0,
        !before.groups.dom().contains(owner),
        gone.subset_of(before.groups.dom()),
        forall|o: ExplicitOwner| #[trigger]
            gone.contains(o) ==> match owner.consumer {
                explicit_ownership::ExplicitConsumer::Tracker => o.consumer
                    == explicit_ownership::ExplicitConsumer::Tracker,
                explicit_ownership::ExplicitConsumer::Arb => o.consumer
                    == explicit_ownership::ExplicitConsumer::Tracker || o.consumer
                    == explicit_ownership::ExplicitConsumer::Arb,
                _ => o.consumer != explicit_ownership::ExplicitConsumer::Wallet,
            },
        owner_index::physical(before.groups.remove_keys(gone).insert(owner, keys)).len()
            <= before.cap,
        evict_outcome(before, faults, owner, keys, result, after),
    ensures
        result is InsertedNoEviction || result is InsertedWithEviction,
        after.groups.dom().contains(owner),
        after.groups[owner].to_set() == keys.to_set(),
        ordered::sorted(after.groups[owner]),
        after.cap == before.cap,
        owner_index::physical(after.groups).len() <= after.cap,
        forall|o: ExplicitOwner|
            o != owner && #[trigger] after.groups.dom().contains(o) ==> before.groups.dom().contains(
                o,
            ) && after.groups[o] == before.groups[o],
        forall|o: ExplicitOwner| #[trigger]
            before.groups.dom().contains(o) && !after.groups.dom().contains(o)
                ==> match owner.consumer {
                explicit_ownership::ExplicitConsumer::Tracker => o.consumer
                    == explicit_ownership::ExplicitConsumer::Tracker,
                explicit_ownership::ExplicitConsumer::Arb => o.consumer
                    == explicit_ownership::ExplicitConsumer::Tracker || o.consumer
                    == explicit_ownership::ExplicitConsumer::Arb,
                _ => o.consumer != explicit_ownership::ExplicitConsumer::Wallet,
            },
{
    lemma_room_is_found(before, owner, keys, gone);
    sound_state_never_breaks(before, faults);
    vstd::seq_lib::seq_to_set_is_finite(keys);
    vstd::set_lib::lemma_len_subset(before.fresh(keys), keys.to_set());
    lemma_set_group(before, owner, keys);
    assert(planning_entries(before, faults) =~= lru_entries(before.stamps));
    lemma_own_entries_complete(before.stamps, before.groups.dom());
    if before.len() + before.fresh(keys).len() > before.cap {
        lemma_opened_tier_makes_room(before, planning_entries(before, faults), owner, keys);
    }
}

/// An insertion succeeds if and only if the group fits, evicts nothing, and reports just the
/// addresses that are new; a refusal says how many would be and how many there is room for.
pub proof fn insertion_succeeds_when_it_fits(
    before: AdmissionView,
    faults: FaultSwitches,
    owner: ExplicitOwner,
    keys: Seq<Pubkey>,
    result: FixedCapAdmissionResult,
    after: AdmissionView,
)
    requires
        before.groups.dom().finite(),
        before.stamps.dom().finite(),
        before.next != u64::MAX || before.stamps.dom().len() + 2 <= u64::MAX,
        owner_index::physical(before.groups).len() <= before.cap,
        keys.to_set().len() <= usize::MAX,
        faults.all_off(),
        keys.len() > 0,
        !before.groups.dom().contains(owner),
        insert_outcome(before, faults, owner, keys, result, after),
    ensures
        ({
            let held = owner_index::physical(before.groups);
            let fits = owner_index::physical(before.groups.insert(owner, keys)).len()
                <= before.cap;
            &&& result is Inserted || result is OwnerAddedNoNewPubkey <==> fits
            &&& fits ==> {
                &&& after.groups.dom() == before.groups.dom().insert(owner)
                &&& after.groups[owner].to_set() == keys.to_set()
                &&& ordered::sorted(after.groups[owner])
                &&& forall|o: ExplicitOwner|
                    o != owner && #[trigger] before.groups.dom().contains(o) ==> after.groups[o]
                        == before.groups[o]
                &&& after.cap == before.cap
            }
            &&& result is OwnerAddedNoNewPubkey <==> fits && keys.to_set().subset_of(held)
            &&& result matches FixedCapAdmissionResult::Inserted { physical_added } ==> (forall|
                pk: Pubkey,
            | #[trigger] physical_added@.contains(pk) <==> keys.contains(pk) && !held.contains(pk))
            &&& !fits ==> result == (FixedCapAdmissionResult::RejectedCap {
                required_unique: keys.to_set().difference(held).len() as usize,
                available_unique: (before.cap - held.len()) as usize,
            })
        }),
{
    let held = owner_index::physical(before.groups);
    let added = before.fresh(keys);
    lemma_set_group(before, owner, keys);
    lemma_same_addresses(before.groups, owner, keys);
    vstd::seq_lib::seq_to_set_is_finite(keys);
    if added.len() == 0 {
        assert(added =~= Set::empty());
        assert forall|pk: Pubkey| keys.to_set().contains(pk) implies held.contains(pk) by {
            assert(!added.contains(pk));
        }
    } else if keys.to_set().subset_of(held) {
        assert(added =~= Set::empty());
    }
    if result is Inserted {
        let listed = result->physical_added@;
        assert forall|pk: Pubkey| #[trigger] listed.contains(pk) <==> keys.contains(pk)
            && !held.contains(pk) by {
            assert(listed.to_set().contains(pk) == added.contains(pk));
        }
    }
}

/// Whoever's group was inserted or replaced is the most recent, and the others keep their order of
/// age.
pub proof fn newcomer_is_the_most_recent(before: AdmissionView, faults: FaultSwitches)
    requires
        before.in_sync(),
        before.groups.dom().finite(),
        faults.all_off(),
    ensures
        forall|owner: ExplicitOwner, keys: Seq<Pubkey>, r: FixedCapAdmissionResult, v: AdmissionView|
            #[trigger] insert_outcome(before, faults, owner, keys, r, v) && (r is Inserted || r
                is OwnerAddedNoNewPubkey) ==> most_recent(before, owner, v),
        forall|owner: ExplicitOwner, keys: Seq<Pubkey>, r: FixedCapReplaceResult, v: AdmissionView|
            #[trigger] replace_outcome(before, faults, owner, keys, r, v) && r is Replaced
                ==> most_recent(before, owner, v),
        forall|owner: ExplicitOwner, keys: Seq<Pubkey>, r: EvictingAdmissionResult, v: AdmissionView|
            #[trigger] evict_outcome(before, faults, owner, keys, r, v) && (r is InsertedNoEviction
                || r is InsertedWithEviction) ==> most_recent(before, owner, v),
        forall|owner: ExplicitOwner, r: TouchResult, v: AdmissionView| #[trigger]
            touch_outcome(before, faults, owner, r, v) && r is Touched ==> most_recent(
                before,
                owner,
                v,
            ),
{
    let nobody = Set::<ExplicitOwner>::empty();
    assert(before.stamps.remove_keys(nobody) =~= before.stamps);
    assert forall|owner: ExplicitOwner, keys: Seq<Pubkey>| before.can_stamp(
        faults,
        owner,
    ) implies most_recent(before, owner, #[trigger] before.committed(owner, keys)) by {
        touch_stamps::touch_makes_most_recent(before.stamps, before.next, owner);
        let v = before.committed(owner, keys);
        assert forall|a: ExplicitOwner, b: ExplicitOwner|
            a != owner && b != owner && #[trigger] v.stamps.dom().contains(a)
                && #[trigger] v.stamps.dom().contains(b) && before.stamps[a]
                < before.stamps[b] implies v.stamps[a] < v.stamps[b] by {
            assert(before.stamps.dom().contains(a) && before.stamps.dom().contains(b));
            if before.next == u64::MAX {
                touch_stamps::renumbering_keeps_order(before.stamps, a, b);
            }
        }
    }
    assert forall|
        owner: ExplicitOwner,
        keys: Seq<Pubkey>,
        r: EvictingAdmissionResult,
        v: AdmissionView,
    | #[trigger]
        evict_outcome(before, faults, owner, keys, r, v) && r is InsertedWithEviction implies
        most_recent(before, owner, v) by {
        let entries = planning_entries(before, faults);
        let tier = room_tier(before, owner, keys)->0;
        let gone = chosen_victims(before, entries, tier, keys).to_set();
        let left = before.stamps.remove_keys(gone);
        assert(left.dom().subset_of(before.stamps.dom()));
        vstd::set_lib::lemma_len_subset(left.dom(), before.stamps.dom());
        touch_stamps::touch_makes_most_recent(left, before.next, owner);
        assert forall|a: ExplicitOwner, b: ExplicitOwner|
            a != owner && b != owner && #[trigger] v.stamps.dom().contains(a)
                && #[trigger] v.stamps.dom().contains(b) && before.stamps[a]
                < before.stamps[b] implies v.stamps[a] < v.stamps[b] by {
            assert(left.dom().contains(a) && left.dom().contains(b));
            assert(touch_stamps::older(left, a, b));
            assert(!touch_stamps::older(left, b, a));
            assert(touch_stamps::older(v.stamps, a, b) == touch_stamps::older(left, a, b));
            assert(touch_stamps::older(v.stamps, b, a) == touch_stamps::older(left, b, a));
            if before.next == u64::MAX {
                touch_stamps::renumbering_keeps_order(left, a, b);
            }
        }
    }
}

/// The stamp of `owner` is above all others in `after`, and the others stand as in `before`.
pub open spec fn most_recent(before: AdmissionView, owner: ExplicitOwner, after: AdmissionView) -> bool {
    &&& after.stamps.dom().contains(owner)
    &&& forall|o: ExplicitOwner|
        o != owner && #[trigger] after.stamps.dom().contains(o) ==> after.stamps[o]
            < after.stamps[owner]
    &&& forall|a: ExplicitOwner, b: ExplicitOwner|
        a != owner && b != owner && #[trigger] after.stamps.dom().contains(a)
            && #[trigger] after.stamps.dom().contains(b) && before.stamps[a] < before.stamps[b]
            ==> after.stamps[a] < after.stamps[b]
}

/// A group holds the same addresses however they are listed.
pub proof fn lemma_same_addresses(groups: Groups, owner: ExplicitOwner, keys: Seq<Pubkey>)
    ensures
        owner_index::physical(groups.insert(owner, ordered::in_order(keys.to_set())))
            == owner_index::physical(groups.insert(owner, keys)),
{
    let listing = ordered::in_order(keys.to_set());
    vstd::seq_lib::seq_to_set_is_finite(keys);
    ordered::lemma_in_order_lists(keys.to_set());
    let a = groups.insert(owner, listing);
    let b = groups.insert(owner, keys);
    assert forall|pk: Pubkey| owner_index::physical(a).contains(pk) == owner_index::physical(
        b,
    ).contains(pk) by {
        assert(listing.to_set().contains(pk) == keys.to_set().contains(pk));
        if owner_index::physical(a).contains(pk) {
            let o = choose|o: ExplicitOwner| a.dom().contains(o) && #[trigger] a[o].contains(pk);
            assert(b.dom().contains(o) && b[o].contains(pk));
        }
        if owner_index::physical(b).contains(pk) {
            let o = choose|o: ExplicitOwner| b.dom().contains(o) && #[trigger] b[o].contains(pk);
            assert(a.dom().contains(o) && a[o].contains(pk));
        }
    }
    assert(owner_index::physical(a) =~= owner_index::physical(b));
}

/// A replacement succeeds if and only if the set with the group replaced fits the cap. It then
/// reports just the addresses that come and those that go; no other group changes.
pub proof fn replacement_succeeds_when_it_fits(
    before: AdmissionView,
    faults: FaultSwitches,
    owner: ExplicitOwner,
    keys: Seq<Pubkey>,
    result: FixedCapReplaceResult,
    after: AdmissionView,
)
    requires
        before.in_sync(),
        before.groups.dom().finite(),
        before.next != u64::MAX || before.groups.dom().len() + 2 <= u64::MAX,
        owner_index::physical(before.groups).len() <= before.cap,
        ordered::sorted(before.groups[owner]),
        faults.all_off(),
        keys.len() > 0,
        before.groups.dom().contains(owner),
        replace_outcome(before, faults, owner, keys, result, after),
    ensures
        ({
            let held = owner_index::physical(before.groups);
            let then = owner_index::physical(before.groups.insert(owner, keys));
            &&& result is Unchanged <==> before.groups[owner].to_set() == keys.to_set()
            &&& result is Unchanged ==> after == before
            &&& result is Replaced <==> before.groups[owner].to_set() != keys.to_set()
                && then.len() <= before.cap
            &&& result is Replaced || result is Unchanged || result is RejectedCap
            &&& result is RejectedCap ==> after == before
            &&& result matches FixedCapReplaceResult::Replaced {
                physical_added,
                physical_removed,
            } ==> {
                &&& after.groups.dom() == before.groups.dom()
                &&& after.groups[owner].to_set() == keys.to_set()
                &&& forall|o: ExplicitOwner|
                    o != owner && #[trigger] before.groups.dom().contains(o) ==> after.groups[o]
                        == before.groups[o]
                &&& forall|pk: Pubkey| #[trigger]
                    physical_added@.contains(pk) <==> then.contains(pk) && !held.contains(pk)
                &&& forall|pk: Pubkey| #[trigger]
                    physical_removed@.contains(pk) <==> held.contains(pk) && !then.contains(pk)
            }
        }),
{
    let held = owner_index::physical(before.groups);
    let then = owner_index::physical(before.groups.insert(owner, keys));
    let listing = ordered::in_order(keys.to_set());
    lemma_set_group(before, owner, keys);
    lemma_same_addresses(before.groups, owner, keys);
    sound_state_never_breaks(before, faults);
    if before.groups[owner].to_set() == keys.to_set() {
        ordered::lemma_in_order(before.groups[owner], keys.to_set());
    }
    if result is Replaced {
        let came = result->Replaced_physical_added@;
        let went = result->Replaced_physical_removed@;
        let after_groups = before.groups.insert(owner, listing);
        assert forall|pk: Pubkey| #[trigger] came.contains(pk) <==> then.contains(pk)
            && !held.contains(pk) by {
            assert(came.to_set().contains(pk) == owner_index::newly_physical(
                before.groups,
                after_groups,
            ).contains(pk));
        }
        assert forall|pk: Pubkey| #[trigger] went.contains(pk) <==> held.contains(pk)
            && !then.contains(pk) by {
            assert(went.to_set().contains(pk) == owner_index::newly_physical(
                after_groups,
                before.groups,
            ).contains(pk));
        }
    }
}

/// A smaller cap is taken over if and only if the wallet groups alone fit it. Then no wallet group
/// has left, nothing has where all fits, and the set is within the cap; what was removed is just
/// what no group holds any more. A refused cap changes nothing.
pub proof fn cap_is_taken_over_when_the_wallet_fits(
    before: AdmissionView,
    new_cap: usize,
    result: CapShrinkResult,
    after: AdmissionView,
)
    requires
        before.in_sync(),
        before.groups.dom().finite(),
        owner_index::physical(before.groups).len() <= usize::MAX,
        shrink_cap_outcome(before, new_cap, result, after),
    ensures
        ({
            let held = owner_index::physical(before.groups);
            let wallet = before.groups.restrict(
                before.groups.dom().filter(
                    |o: ExplicitOwner| o.consumer == explicit_ownership::ExplicitConsumer::Wallet,
                ),
            );
            &&& result is RejectedProtected <==> owner_index::physical(wallet).len() > new_cap
            &&& result is NoOpAlreadyWithinCap <==> held.len() <= new_cap
            &&& !(result is InternalInvariantViolation)
            &&& result is RejectedProtected ==> after == before
            &&& !(result is RejectedProtected) ==> {
                &&& after.cap == new_cap
                &&& owner_index::physical(after.groups).len() <= new_cap
                &&& after.groups.dom().subset_of(before.groups.dom())
                &&& wallet.dom().subset_of(after.groups.dom())
                &&& forall|o: ExplicitOwner| #[trigger]
                    after.groups.dom().contains(o) ==> after.groups[o] == before.groups[o]
            }
            &&& held.len() <= new_cap ==> after.groups == before.groups
            &&& result matches CapShrinkResult::Shrunk { victims, physical_removed, .. } ==> {
                &&& forall|o: ExplicitOwner| #[trigger]
                    victims@.contains(o) <==> before.groups.dom().contains(o)
                        && !after.groups.dom().contains(o)
                &&& forall|pk: Pubkey| #[trigger]
                    physical_removed@.contains(pk) <==> held.contains(pk)
                        && !owner_index::physical(after.groups).contains(pk)
            }
        }),
{
    let held = owner_index::physical(before.groups);
    let wallet_owners = before.groups.dom().filter(
        |o: ExplicitOwner| o.consumer == explicit_ownership::ExplicitConsumer::Wallet,
    );
    let wallet = before.groups.restrict(wallet_owners);
    let all = eviction_model::evictable(before.groups, EvictionTier::Momentum);
    assert(before.groups.remove_keys(all) =~= wallet);
    eviction_model::lemma_physical_without_len(before.groups, all);
    owner_index::lemma_physical_finite(before.groups);
    let most = eviction_planner::freeable(before.groups, EvictionTier::Momentum, Set::empty());
    assert(owner_index::physical(wallet).len() == held.len() - most.len());
    if held.len() > new_cap {
        let tier = eviction_planner::opened_tier(
            before.groups,
            Set::empty(),
            explicit_ownership::ExplicitConsumer::Wallet,
            before.len() - new_cap,
        );
        if tier is Some {
            let part = eviction_model::evictable(before.groups, tier->0);
            let some = eviction_model::freed(before.groups, part, Set::empty());
            assert(part.subset_of(all));
            assert(some.subset_of(most));
            eviction_model::lemma_freed_finite(before.groups, all, Set::empty());
            vstd::set_lib::lemma_len_subset(some, most);
            eviction_model::selection_succeeds_when_feasible(
                before.groups,
                before.stamps,
                tier->0,
                Set::empty(),
                before.len() - new_cap,
                Seq::empty(),
            );
            let named = result->victims@;
            let gone = named.to_set();
            eviction_model::lemma_physical_without_len(before.groups, gone);
            eviction_model::lemma_physical_without(before.groups, gone);
            assert forall|o: ExplicitOwner| #[trigger] named.contains(
                o,
            ) <==> before.groups.dom().contains(o) && !after.groups.dom().contains(o) by {
                assert(gone.contains(o) == named.contains(o));
                if named.contains(o) {
                    assert(part.contains(o));
                }
            }
            assert forall|o: ExplicitOwner| wallet.dom().contains(
                o,
            ) implies after.groups.dom().contains(o) by {
                if named.contains(o) {
                    assert(part.contains(o));
                }
                assert(gone.contains(o) == named.contains(o));
            }
            let went = result->Shrunk_physical_removed@;
            assert forall|pk: Pubkey| #[trigger] went.contains(pk) <==> held.contains(pk)
                && !owner_index::physical(after.groups).contains(pk) by {
                assert(went.to_set().contains(pk) == eviction_model::freed(
                    before.groups,
                    gone,
                    Set::empty(),
                ).contains(pk));
            }
        }
    } else {
        assert(before.groups.remove_keys(Set::empty()) =~= before.groups);
        assert(owner_index::physical(wallet).len() <= held.len());
    }
}

/// A removal takes just the group of its owner and reports just the addresses that no group holds
/// any more; a touch changes no group and makes its owner the most recent.
pub proof fn removal_and_touch_concern_one_owner(
    before: AdmissionView,
    faults: FaultSwitches,
    owner: ExplicitOwner,
    removal: FixedCapRemoveResult,
    without: AdmissionView,
    touch: TouchResult,
    touched: AdmissionView,
)
    requires
        before.in_sync(),
        before.groups.dom().finite(),
        before.next != u64::MAX || before.groups.dom().len() + 2 <= u64::MAX,
        faults.all_off(),
        remove_outcome(before, faults, owner, removal, without),
        touch_outcome(before, faults, owner, touch, touched),
    ensures
        ({
            let here = before.groups.dom().contains(owner);
            &&& removal is Removed <==> here
            &&& without.groups == before.groups.remove(owner)
            &&& without.stamps == before.stamps.remove(owner)
            &&& removal matches FixedCapRemoveResult::Removed { physical_removed } ==> (forall|
                pk: Pubkey,
            | #[trigger]
                physical_removed@.contains(pk) <==> owner_index::physical(before.groups).contains(
                    pk,
                ) && !owner_index::physical(before.groups.remove(owner)).contains(pk))
            &&& touch is Touched <==> here
            &&& touched.groups == before.groups
            &&& here ==> forall|o: ExplicitOwner|
                o != owner && #[trigger] before.groups.dom().contains(o) ==> touched.stamps[o]
                    < touched.stamps[owner]
            &&& !here ==> touched == before
        }),
{
    sound_state_never_breaks(before, faults);
    if before.groups.dom().contains(owner) {
        lemma_drop_group(before, owner);
        touch_stamps::touch_makes_most_recent(before.stamps, before.next, owner);
        assert(before.groups.insert(owner, before.groups[owner]) =~= before.groups);
        if removal is Removed {
            let went = removal->physical_removed@;
            assert forall|pk: Pubkey| #[trigger] went.contains(pk) <==> owner_index::physical(
                before.groups,
            ).contains(pk) && !owner_index::physical(before.groups.remove(owner)).contains(pk) by {
                assert(went.to_set().contains(pk) == owner_index::newly_physical(
                    before.groups.remove(owner),
                    before.groups,
                ).contains(pk));
            }
        }
    } else {
        assert(before.groups.remove(owner) =~= before.groups);
        assert(before.stamps.remove(owner) =~= before.stamps);
    }
}

/// Eviction never touches a wallet group, and leaves every surviving group as it was.
pub proof fn eviction_spares_wallet_and_survivors(
    before: AdmissionView,
    faults: FaultSwitches,
    owner: ExplicitOwner,
    keys: Seq<Pubkey>,
    result: EvictingAdmissionResult,
    after: AdmissionView,
    other: ExplicitOwner,
)
    requires
        before.groups.dom().finite(),
        faults.all_off(),
        evict_outcome(before, faults, owner, keys, result, after),
        before.groups.dom().contains(other),
    ensures
        other.consumer == explicit_ownership::ExplicitConsumer::Wallet
            ==> after.groups.dom().contains(other),
        after.groups.dom().contains(other) ==> after.groups[other] == before.groups[other],
        other.consumer.position() < owner.consumer.position() ==> after.groups.dom().contains(
            other,
        ),
{
    if result is InsertedWithEviction {
        let tier = room_tier(before, owner, keys)->0;
        let entries = planning_entries(before, faults);
        eviction_model::selection_succeeds_when_feasible(
            before.groups,
            entry_stamps(entries),
            tier,
            keys.to_set(),
            before.len() + before.fresh(keys).len() - before.cap,
            Seq::empty(),
        );
        let named = chosen_victims(before, entries, tier, keys);
        if named.to_set().contains(other) {
            assert(named.contains(other));
            assert(eviction_model::evictable(before.groups, tier).contains(other));
        }
    }
}

impl FixedCapAdmission {
    pub fn set_test_force_commit_plan_mismatch(&mut self, enabled: bool)
        requires
            old(self).wf(),
        ensures
            final(self).wf(),
            final(self)@ == old(self)@,
            final(self).stats() == old(self).stats(),
            final(self).switches() == (FaultSwitches {
                commit_plan_mismatch: enabled,
                ..old(self).switches()
            }),
    {
        self.faults.commit_plan_mismatch = enabled;
    }

    pub fn set_test_force_restore_plan_mismatch(&mut self, enabled: bool)
        requires
            old(self).wf(),
        ensures
            final(self).wf(),
            final(self)@ == old(self)@,
            final(self).stats() == old(self).stats(),
            final(self).switches() == (FaultSwitches {
                restore_plan_mismatch: enabled,
                ..old(self).switches()
            }),
    {
        self.faults.restore_plan_mismatch = enabled;
    }

    pub fn set_test_force_remove_planning_underflow(&mut self, enabled: bool)
        requires
            old(self).wf(),
        ensures
            final(self).wf(),
            final(self)@ == old(self)@,
            final(self).stats() == old(self).stats(),
            final(self).switches() == (FaultSwitches {
                remove_planning_underflow: enabled,
                ..old(self).switches()
            }),
    {
        self.faults.remove_planning_underflow = enabled;
    }

    pub fn set_test_force_remove_planning_zero_refcount(&mut self, enabled: bool)
        requires
            old(self).wf(),
        ensures
            final(self).wf(),
            final(self)@ == old(self)@,
            final(self).stats() == old(self).stats(),
            final(self).switches() == (FaultSwitches {
                remove_planning_zero_refcount: enabled,
                ..old(self).switches()
            }),
    {
        self.faults.remove_planning_zero_refcount = enabled;
    }

    pub fn set_test_force_stamp_plan_failure(&mut self, enabled: bool)
        requires
            old(self).wf(),
        ensures
            final(self).wf(),
            final(self)@ == old(self)@,
            final(self).stats() == old(self).stats(),
            final(self).switches() == (FaultSwitches {
                stamp_plan_failure: enabled,
                ..old(self).switches()
            }),
    {
        self.faults.stamp_plan_failure = enabled;
    }

    pub fn set_test_eviction_plan_extra_lru(&mut self, entries: Vec<OwnerLruEntry>)
        requires
            old(self).wf(),
        ensures
            final(self).wf(),
            final(self)@ == old(self)@,
            final(self).stats() == old(self).stats(),
            final(self).switches() == (FaultSwitches {
                eviction_plan_extra_lru: entries,
                ..old(self).switches()
            }),
    {
        self.faults.eviction_plan_extra_lru = entries;
    }

    pub fn set_test_force_evicting_omit_survivor(&mut self, owner: Option<ExplicitOwner>)
        requires
            old(self).wf(),
        ensures
            final(self).wf(),
            final(self)@ == old(self)@,
            final(self).stats() == old(self).stats(),
            final(self).switches() == (FaultSwitches {
                evicting_omit_survivor: owner,
                ..old(self).switches()
            }),
    {
        self.faults.evicting_omit_survivor = owner;
    }

    pub fn set_test_force_evicting_corrupt_physical_len(&mut self, enabled: bool)
        requires
            old(self).wf(),
        ensures
            final(self).wf(),
            final(self)@ == old(self)@,
            final(self).stats() == old(self).stats(),
            final(self).switches() == (FaultSwitches {
                evicting_corrupt_physical_len: enabled,
                ..old(self).switches()
            }),
    {
        self.faults.evicting_corrupt_physical_len = enabled;
    }

    pub fn set_test_force_evicting_corrupt_survivor_stamp(&mut self, owner: Option<ExplicitOwner>)
        requires
            old(self).wf(),
        ensures
            final(self).wf(),
            final(self)@ == old(self)@,
            final(self).stats() == old(self).stats(),
            final(self).switches() == (FaultSwitches {
                evicting_corrupt_survivor_stamp: owner,
                ..old(self).switches()
            }),
    {
        self.faults.evicting_corrupt_survivor_stamp = owner;
    }

    pub fn set_test_force_evicting_extra_candidate_owner(
        &mut self,
        owner: Option<(ExplicitOwner, Vec<Pubkey>)>,
    )
        requires
            old(self).wf(),
        ensures
            final(self).wf(),
            final(self)@ == old(self)@,
            final(self).stats() == old(self).stats(),
            final(self).switches() == (FaultSwitches {
                evicting_extra_candidate_owner: owner,
                ..old(self).switches()
            }),
    {
        self.faults.evicting_extra_candidate_owner = owner;
    }

    pub fn set_test_force_evicting_corrupt_next_touch_stamp(&mut self, enabled: bool)
        requires
            old(self).wf(),
        ensures
            final(self).wf(),
            final(self)@ == old(self)@,
            final(self).stats() == old(self).stats(),
            final(self).switches() == (FaultSwitches {
                evicting_corrupt_next_touch_stamp: enabled,
                ..old(self).switches()
            }),
    {
        self.faults.evicting_corrupt_next_touch_stamp = enabled;
    }

    /// The fault switches.
    pub fn fault_switches(&self) -> (r: &FaultSwitches)
        ensures
            *r == self.switches(),
    {
        &self.faults
    }

    pub fn set_test_next_touch_stamp(&mut self, stamp: u64)
        requires
            old(self).wf(),
        ensures
            final(self).wf(),
            final(self)@ == (AdmissionView { next: stamp, ..old(self)@ }),
            final(self).switches() == old(self).switches(),
            final(self).stats() == old(self).stats(),
    {
        self.next_touch_stamp = stamp;
    }

    pub fn set_test_owner_stamp(&mut self, owner: ExplicitOwner, stamp: u64)
        requires
            old(self).wf(),
        ensures
            final(self).wf(),
            final(self)@ == (AdmissionView {
                stamps: old(self)@.stamps.insert(owner, stamp),
                ..old(self)@
            }),
            final(self).switches() == old(self).switches(),
            final(self).stats() == old(self).stats(),
    {
        let _ = self.owner_lru.insert(owner, stamp);
    }

    /// Sets the counters of planning work back to zero.
    pub fn reset_test_planning_stats(&mut self)
        requires
            old(self).wf(),
        ensures
            final(self).wf(),
            final(self)@ == old(self)@,
            final(self).switches() == old(self).switches(),
            final(self).stats() == (PlanningStats {
                refcount_lookups: 0,
                owner_group_lookups: 0,
                eviction_candidate_builds: 0,
                eviction_candidate_group_edges: 0,
            }),
    {
        self.planning_stats = PlanningStats {
            refcount_lookups: 0,
            owner_group_lookups: 0,
            eviction_candidate_builds: 0,
            eviction_candidate_group_edges: 0,
        };
    }

    /// Takes the stamp of an owner away.
    pub fn drop_test_owner_stamp(&mut self, owner: &ExplicitOwner)
        requires
            old(self).wf(),
        ensures
            final(self).wf(),
            final(self)@ == (AdmissionView {
                stamps: old(self)@.stamps.remove(*owner),
                ..old(self)@
            }),
            final(self).switches() == old(self).switches(),
            final(self).stats() == old(self).stats(),
    {
        let _ = self.owner_lru.remove(owner);
    }

    /// Renumbers the stamps from one upward in the same order.
    pub fn test_renormalize_lru_stamps(&mut self)
        requires
            old(self).wf(),
        ensures
            final(self).wf(),
            final(self).switches() == old(self).switches(),
            final(self).stats() == old(self).stats(),
            final(self)@ == if old(self)@.stamps.dom().len() + 1 > u64::MAX {
                old(self)@
            } else {
                AdmissionView {
                    stamps: touch_stamps::renumbered(old(self)@.stamps),
                    next: (old(self)@.stamps.dom().len() + 1) as u64,
                    ..old(self)@
                }
            },
    {
        proof {
            self.owner_lru.lemma_view();
        }
        let count: usize = self.owner_lru.len();
        if count as u128 + 1 > u64::MAX as u128 {
            return ;
        }
        match touch_stamps::renormalize_stamps(&self.owner_lru) {
            Some(map) => {
                self.owner_lru = map;
                self.next_touch_stamp = count as u64 + 1;
            },
            None => {},
        }
    }

    /// The planning snapshot of the current state.
    pub fn test_build_eviction_snapshot(&self) -> (r: Result<
        EvictionPlanningSnapshot,
        SnapshotBuildError,
    >)
        requires
            self.wf(),
        ensures
            r is Ok == (self@.stamps.dom() =~= self@.groups.dom()),
            r matches Ok(snapshot) ==> snapshot.wf() && snapshot.groups() =~= self@.groups
                && snapshot.stamps() =~= self@.stamps,
    {
        let entries = self.snapshot_lru_entries();
        let ghost listed = entries@;
        proof {
            self.owner_lru.lemma_view();
            lemma_own_entries_complete(self@.stamps, self@.groups.dom());
            lemma_own_entries(self@.stamps);
        }
        let r = EvictionPlanningSnapshot::from_ownership(&self.ownership, entries);
        proof {
            match &r {
                Ok(snapshot) => {
                    snapshot.lemma_parts();
                    assert forall|o: ExplicitOwner| #[trigger]
                        snapshot.stamps().dom().contains(o) implies snapshot.stamps()[o]
                        == self@.stamps[o] by {
                        assert(eviction_planner::has_entry(listed, o));
                        let j = choose|j: int|
                            0 <= j < listed.len() && (#[trigger] listed[j]).owner == o;
                        assert(snapshot.stamps()[listed[j].owner] == listed[j].last_touch);
                    }
                    assert(snapshot.stamps() =~= self@.stamps);
                },
                Err(error) => {
                    lemma_build_error(listed, self@.groups.dom(), *error);
                },
            }
        }
        r
    }
}

} // verus!
