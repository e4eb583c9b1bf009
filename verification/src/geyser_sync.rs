//! The push of the admitted set to the subscription, once per batch of commands.
//!
//! A push goes in three steps around what the caller does: admission is brought in line with
//! the demand; then it is decided whether there is anything to flush; then, after the flush,
//! what is to be released and signalled.

use crate::admission_wiring;
use crate::admission_wiring::{
    admitted_pubkey_set, converge_admission_from_groups, merge_admission_tracker_owner_groups,
    rows_to_owner_groups, AdmissionConvergeResult, GroupList,
};
use crate::desired_set::{symmetric_diff, ConsumerId};
use crate::explicit_admission::{AdmissionView, FixedCapAdmission};
use crate::explicit_ownership::ExplicitOwner;
use crate::ordered;
use crate::owner_index;
use crate::pubkey::Pubkey;
use crate::worker_commands::TrackPinReason;
use vstd::prelude::*;

verus! {

/// How long a flush may take.
pub const MARKET_DATA_MD_STATE_FLUSH_BUDGET_MS: u64 = 8;

/// Whether `after` holds a key that `before` does not.
pub fn explicit_subscription_has_new_keys(before: &[Pubkey], after: &[Pubkey]) -> (r: bool)
    ensures
        r == exists|k: Pubkey| #[trigger] after@.contains(k) && !before@.contains(k),
{
    let known = ordered::normalize(before);
    let mut i: usize = 0;
    while i < after.len()
        invariant
            i <= after@.len(),
            ordered::lists(known@, before@.to_set()),
            forall|j: int| 0 <= j < i ==> before@.contains(#[trigger] after@[j]),
        decreases after@.len() - i,
    {
        if !ordered::has(known.as_slice(), &after[i]) {
            proof {
                let k = after@[i as int];
                assert(after@.contains(k));
                if before@.contains(k) {
                    assert(before@.to_set().contains(k));
                    assert(known@.to_set().contains(k));
                }
            }
            return true;
        }
        proof {
            let k = after@[i as int];
            assert(known@.to_set().contains(k));
            assert(before@.to_set().contains(k));
        }
        i += 1;
    }
    proof {
        assert forall|k: Pubkey| after@.contains(k) implies before@.contains(k) by {
            let j = choose|j: int| 0 <= j < after@.len() && after@[j] == k;
            assert(before@.contains(after@[j]));
        }
    }
    false
}

/// `list` is the demand: the rows by owner, then the tracker groups that they do not name and
/// that are in admission already.
pub open spec fn is_demand(
    list: GroupList,
    rows: Seq<(Pubkey, ConsumerId, Option<Pubkey>)>,
    view: AdmissionView,
) -> bool {
    exists|n: int| #[trigger] is_demand_split(list, rows, view, n)
}

/// The first `n` groups of the demand are those of the rows.
pub open spec fn is_demand_split(
    list: GroupList,
    rows: Seq<(Pubkey, ConsumerId, Option<Pubkey>)>,
    view: AdmissionView,
    n: int,
) -> bool {
    let asked = admission_wiring::list_owners(list.take(n));
    let kept = admission_wiring::list_owners(list.skip(n));
    &&& 0 <= n <= list.len()
    &&& ordered::lists(asked, admission_wiring::rows_owners(rows))
    &&& forall|i: int|
        0 <= i < n ==> ordered::lists(
            (#[trigger] list[i]).1@,
            admission_wiring::rows_keys(rows, list[i].0),
        )
    &&& ordered::lists(kept, admission_wiring::kept_trackers(view.groups, asked.to_set()))
    &&& forall|i: int|
        n <= i < list.len() ==> (#[trigger] list[i]).1@ == view.groups[list[i].0]
}

/// Brings admission in line with the demand rows. Tracker groups stay unless the rows name
/// their owner.
pub fn converge_admission_from_ctx(
    admission: &mut FixedCapAdmission,
    rows: &[(Pubkey, ConsumerId, Option<Pubkey>)],
) -> (r: AdmissionConvergeResult)
    requires
        old(admission).wf(),
        old(admission).switches().all_off(),
    ensures
        final(admission).wf(),
        final(admission).switches() == old(admission).switches(),
        exists|list: GroupList| #[trigger]
            is_demand(list, rows@, old(admission)@) && admission_wiring::converged(
                old(admission)@,
                list,
            ) == (r == AdmissionConvergeResult::Converged, final(admission)@),
        r == AdmissionConvergeResult::Converged || r == AdmissionConvergeResult::Unconverged,
{
    let mut groups = rows_to_owner_groups(rows);
    let ghost asked = groups@;
    let ghost n = asked.len() as int;
    merge_admission_tracker_owner_groups(admission, &mut groups);
    let ghost before = admission@;
    let r = converge_admission_from_groups(admission, groups.as_slice());
    proof {
        assert forall|i: int| 0 <= i < n implies ordered::lists(
            (#[trigger] groups@[i]).1@,
            admission_wiring::rows_keys(rows@, groups@[i].0),
        ) by {
            assert(groups@.take(n)[i] == asked[i]);
        }
        assert(is_demand_split(groups@, rows@, before, n));
        assert(is_demand(groups@, rows@, before));
    }
    r
}

/// What a push was asked for, and what it started from.
#[derive(Debug, Clone, PartialEq, Eq)]
pub struct PushRequest {
    /// The subscription when the batch began.
    pub before_keys: Vec<Pubkey>,
    pub continue_evict: bool,
    pub release_flush_slot: bool,
    pub restore_barrier_pending: bool,
}

/// How admission stands before a push.
#[derive(Debug, Clone, PartialEq, Eq)]
pub struct PushConvergence {
    pub result: AdmissionConvergeResult,
    pub admitted: Vec<Pubkey>,
    /// More is demanded than fits.
    pub cap_overflow: bool,
}

/// What remains to be done at the end of a push.
#[derive(Debug, Clone, Copy, PartialEq, Eq)]
pub struct PushEnd {
    pub release_flush_slot: bool,
    /// What to tell those that wait for the restored subscription, if they wait.
    pub signal_barrier: Option<bool>,
    pub refresh_membership: bool,
    pub push_ok: bool,
}

/// What to do after admission has been brought in line.
#[derive(Debug, Clone, Copy, PartialEq, Eq)]
pub enum PushStep {
    /// Flush the subscription, or go on evicting; so many keys have changed.
    Flush { continue_evict: bool, delta_pubkeys: usize },
    /// Nothing to flush.
    End(PushEnd),
}

/// The end of a push that succeeded or not.
pub open spec fn push_end(request: PushRequest, push_ok: bool, flushed: bool) -> PushEnd {
    PushEnd {
        release_flush_slot: request.release_flush_slot,
        signal_barrier: if request.restore_barrier_pending {
            Some(push_ok)
        } else {
            None
        },
        refresh_membership: push_ok && flushed,
        push_ok,
    }
}

/// The keys that have come or gone since the batch began.
pub open spec fn delta(before: Seq<Pubkey>, admitted: Seq<Pubkey>) -> Set<Pubkey> {
    before.to_set().difference(admitted.to_set()).union(
        admitted.to_set().difference(before.to_set()),
    )
}

/// Without readiness, or where admission could not meet the demand, a push fails; where
/// nothing has changed and no eviction is to go on it succeeds with nothing to flush.
pub open spec fn push_step(
    request: PushRequest,
    convergence: PushConvergence,
    readiness_ok: bool,
) -> PushStep {
    let changed = delta(request.before_keys@, convergence.admitted@);
    if !readiness_ok || convergence.result != AdmissionConvergeResult::Converged {
        PushStep::End(push_end(request, false, false))
    } else if changed.len() == 0 && !request.continue_evict {
        PushStep::End(push_end(request, true, false))
    } else {
        PushStep::Flush {
            continue_evict: request.continue_evict,
            delta_pubkeys: changed.len() as usize,
        }
    }
}

/// Brings admission in line with the demand rows, for a push.
pub fn converge_for_push(
    admission: &mut FixedCapAdmission,
    rows: &[(Pubkey, ConsumerId, Option<Pubkey>)],
) -> (r: PushConvergence)
    requires
        old(admission).wf(),
        old(admission).switches().all_off(),
    ensures
        final(admission).wf(),
        final(admission).switches() == old(admission).switches(),
        exists|list: GroupList| #[trigger]
            is_demand(list, rows@, old(admission)@) && admission_wiring::converged(
                old(admission)@,
                list,
            ) == (r.result == AdmissionConvergeResult::Converged, final(admission)@),
        r.result == AdmissionConvergeResult::Converged || r.result
            == AdmissionConvergeResult::Unconverged,
        r.cap_overflow == (r.result != AdmissionConvergeResult::Converged),
        ordered::lists(r.admitted@, owner_index::physical(final(admission)@.groups)),
{
    let result = converge_admission_from_ctx(admission, rows);
    let admitted = admitted_pubkey_set(admission);
    let cap_overflow = match result {
        AdmissionConvergeResult::ProtectedOverflow => true,
        AdmissionConvergeResult::Unconverged => true,
        AdmissionConvergeResult::Converged => false,
    };
    PushConvergence { result, admitted, cap_overflow }
}

fn end_push(request: &PushRequest, push_ok: bool, flushed: bool) -> (r: PushEnd)
    ensures
        r == push_end(*request, push_ok, flushed),
{
    PushEnd {
        release_flush_slot: request.release_flush_slot,
        signal_barrier: if request.restore_barrier_pending {
            Some(push_ok)
        } else {
            None
        },
        refresh_membership: push_ok && flushed,
        push_ok,
    }
}

/// What a push comes to once admission has been brought in line.
pub fn track_worker_execute_coalesced_push(
    request: &PushRequest,
    convergence: &PushConvergence,
    readiness_ok: bool,
) -> (r: PushStep)
    ensures
        r == push_step(*request, *convergence, readiness_ok),
{
    let converged = match convergence.result {
        AdmissionConvergeResult::Converged => true,
        _ => false,
    };
    let changed = symmetric_diff(
        request.before_keys.as_slice(),
        convergence.admitted.as_slice(),
    );
    proof {
        ordered::lemma_sorted_no_duplicates(changed@);
        assert(changed@.to_set() =~= delta(request.before_keys@, convergence.admitted@));
    }
    if !readiness_ok || !converged {
        PushStep::End(end_push(request, false, false))
    } else if changed.len() == 0 && !request.continue_evict {
        PushStep::End(end_push(request, true, false))
    } else {
        PushStep::Flush {
            continue_evict: request.continue_evict,
            delta_pubkeys: changed.len(),
        }
    }
}

/// What a push comes to after the flush, complete or cut short.
pub fn finish_coalesced_push(request: &PushRequest, sync_complete: bool) -> (r: PushEnd)
    ensures
        r == push_end(*request, sync_complete, true),
{
    end_push(request, sync_complete, true)
}

/// A ready push of a demand that was met is flushed if and only if some key is in just one of
/// the subscription before and the admitted set, or eviction is to go on. The flush is told how
/// many such keys there are.
pub proof fn push_flushes_every_change(
    request: PushRequest,
    convergence: PushConvergence,
    readiness_ok: bool,
    changed: Seq<Pubkey>,
)
    requires
        changed.no_duplicates(),
        changed.len() <= usize::MAX,
        forall|k: Pubkey| #[trigger]
            changed.contains(k) <==> request.before_keys@.contains(k)
                != convergence.admitted@.contains(k),
    ensures
        push_step(request, convergence, readiness_ok) is Flush <==> {
            &&& readiness_ok
            &&& convergence.result == AdmissionConvergeResult::Converged
            &&& request.continue_evict || exists|k: Pubkey|
                request.before_keys@.contains(k) != #[trigger] convergence.admitted@.contains(k)
        },
        push_step(request, convergence, readiness_ok) matches PushStep::Flush {
            continue_evict,
            delta_pubkeys,
        } ==> continue_evict == request.continue_evict && delta_pubkeys == changed.len(),
{
    let d = delta(request.before_keys@, convergence.admitted@);
    assert forall|k: Pubkey| d.contains(k) == changed.to_set().contains(k) by {
        assert(changed.contains(k) <==> request.before_keys@.contains(k)
            != convergence.admitted@.contains(k));
    }
    assert(d =~= changed.to_set());
    changed.unique_seq_to_set();
    if changed.len() > 0 {
        let k = changed[0];
        assert(changed.contains(k));
        assert(request.before_keys@.contains(k) != convergence.admitted@.contains(k));
    }
    if exists|k: Pubkey|
        request.before_keys@.contains(k) != #[trigger] convergence.admitted@.contains(k) {
        let k = choose|k: Pubkey|
            request.before_keys@.contains(k) != #[trigger] convergence.admitted@.contains(k);
        assert(changed.contains(k));
    }
}

/// A push that ends without a flush succeeds if and only if it was ready and the demand was met;
/// the subscription then holds just the admitted keys. It frees the slot that it was asked to
/// free and tells those that wait how it ended.
pub proof fn push_without_flush_leaves_nothing_out(
    request: PushRequest,
    convergence: PushConvergence,
    readiness_ok: bool,
)
    requires
        push_step(request, convergence, readiness_ok) is End,
    ensures
        ({
            let end = push_step(request, convergence, readiness_ok)->End_0;
            &&& end.push_ok <==> readiness_ok && convergence.result
                == AdmissionConvergeResult::Converged
            &&& end.push_ok ==> !request.continue_evict && forall|k: Pubkey|
                request.before_keys@.contains(k) == #[trigger] convergence.admitted@.contains(k)
            &&& !end.refresh_membership
            &&& end.release_flush_slot == request.release_flush_slot
            &&& end.signal_barrier is Some <==> request.restore_barrier_pending
            &&& end.signal_barrier matches Some(told) ==> told == end.push_ok
        }),
{
    let d = delta(request.before_keys@, convergence.admitted@);
    if readiness_ok && convergence.result == AdmissionConvergeResult::Converged {
        vstd::seq_lib::seq_to_set_is_finite(request.before_keys@);
        vstd::seq_lib::seq_to_set_is_finite(convergence.admitted@);
        assert(d.finite());
        assert(d =~= Set::empty());
        assert forall|k: Pubkey| request.before_keys@.contains(
            k,
        ) == #[trigger] convergence.admitted@.contains(k) by {
            assert(!d.contains(k));
            assert(request.before_keys@.to_set().contains(k) == request.before_keys@.contains(k));
        }
    }
}

/// A push whose flush is over succeeds if and only if the flush was complete; the membership is
/// then read anew, and those that wait are told.
pub proof fn flushed_push_succeeds_when_complete(request: PushRequest, sync_complete: bool)
    ensures
        ({
            let end = push_end(request, sync_complete, true);
            &&& end.push_ok == sync_complete
            &&& end.refresh_membership == sync_complete
            &&& end.release_flush_slot == request.release_flush_slot
            &&& end.signal_barrier is Some <==> request.restore_barrier_pending
            &&& end.signal_barrier matches Some(told) ==> told == sync_complete
        }),
{
}

/// Those that wait for the restored subscription are told that it is published only by a push
/// that succeeded: with admission in line and ready, and with either nothing to flush or the
/// flush complete.
pub proof fn barrier_opens_only_after_publication(
    request: PushRequest,
    convergence: PushConvergence,
    readiness_ok: bool,
    sync_complete: bool,
)
    ensures
        ({
            let end = match push_step(request, convergence, readiness_ok) {
                PushStep::End(end) => end,
                PushStep::Flush { .. } => push_end(request, sync_complete, true),
            };
            &&& end.signal_barrier is Some <==> request.restore_barrier_pending
            &&& end.signal_barrier == Some(true) ==> {
                &&& end.push_ok
                &&& readiness_ok
                &&& convergence.result == AdmissionConvergeResult::Converged
                &&& sync_complete || (delta(
                    request.before_keys@,
                    convergence.admitted@,
                ).len() == 0 && !request.continue_evict)
            }
            &&& end.release_flush_slot == request.release_flush_slot
        }),
{
}

/// The consumer that a pin of a mint is for.
pub fn consumer_id_for_track_pin(pin: TrackPinReason) -> (r: ConsumerId)
    ensures
        r == match pin {
            TrackPinReason::Wallet => ConsumerId::Wallet,
            TrackPinReason::MomentumActive => ConsumerId::Momentum,
            TrackPinReason::ArbMultiDex => ConsumerId::Arb,
        },
{
    match pin {
        TrackPinReason::Wallet => ConsumerId::Wallet,
        TrackPinReason::MomentumActive => ConsumerId::Momentum,
        TrackPinReason::ArbMultiDex => ConsumerId::Arb,
    }
}

/// The demand leaves no row out: each row's address is listed under the row's owner.
pub proof fn demand_lists_every_row(
    list: GroupList,
    rows: Seq<(Pubkey, ConsumerId, Option<Pubkey>)>,
    view: AdmissionView,
    i: int,
)
    requires
        is_demand(list, rows, view),
        0 <= i < rows.len(),
    ensures
        exists|g: int|
            0 <= g < list.len() && (#[trigger] list[g]).0 == admission_wiring::row_owner(rows[i])
                && list[g].1@.contains(rows[i].0),
{
    let n = choose|n: int| #[trigger] is_demand_split(list, rows, view, n);
    let asked = admission_wiring::list_owners(list.take(n));
    let o = admission_wiring::row_owner(rows[i]);
    let mapped = rows.map_values(
        |r: (Pubkey, ConsumerId, Option<Pubkey>)| admission_wiring::row_owner(r),
    );
    assert(mapped[i] == o);
    assert(admission_wiring::rows_owners(rows).contains(o));
    assert(asked.to_set().contains(o));
    let g = choose|g: int| 0 <= g < asked.len() && asked[g] == o;
    assert(list.take(n)[g] == list[g]);
    assert(list[g].0 == o);
    assert(admission_wiring::rows_keys(rows, o).contains(rows[i].0));
    assert(list[g].1@.to_set().contains(rows[i].0));
}

/// The demand asks for nothing else: a listed group is that of the rows of its owner, address by
/// address, or a tracker group that no row names, just as it is admitted.
pub proof fn demand_asks_for_nothing_else(
    list: GroupList,
    rows: Seq<(Pubkey, ConsumerId, Option<Pubkey>)>,
    view: AdmissionView,
    g: int,
)
    requires
        is_demand(list, rows, view),
        0 <= g < list.len(),
    ensures
        ({
            let owner = list[g].0;
            let named = exists|i: int|
                0 <= i < rows.len() && admission_wiring::row_owner(#[trigger] rows[i]) == owner;
            &&& named ==> forall|pk: Pubkey| #[trigger]
                list[g].1@.contains(pk) <==> exists|i: int|
                    0 <= i < rows.len() && admission_wiring::row_owner(#[trigger] rows[i]) == owner
                        && rows[i].0 == pk
            &&& !named ==> {
                &&& owner.consumer is Tracker
                &&& view.groups.dom().contains(owner)
                &&& list[g].1@ == view.groups[owner]
            }
        }),
{
    let n = choose|n: int| #[trigger] is_demand_split(list, rows, view, n);
    let owner = list[g].0;
    let asked = admission_wiring::list_owners(list.take(n));
    let kept = admission_wiring::list_owners(list.skip(n));
    lemma_row_owners(rows, owner);
    if g < n {
        assert(list.take(n)[g] == list[g]);
        assert(asked[g] == owner);
        assert(asked.to_set().contains(owner));
        assert forall|pk: Pubkey| #[trigger] list[g].1@.contains(pk) <==> exists|i: int|
            0 <= i < rows.len() && admission_wiring::row_owner(#[trigger] rows[i]) == owner
                && rows[i].0 == pk by {
            assert(list[g].1@.contains(pk) <==> list[g].1@.to_set().contains(pk));
            assert(list[g].1@.contains(pk) <==> admission_wiring::rows_keys(rows, owner).contains(
                pk,
            ));
            if exists|i: int|
                0 <= i < rows.len() && admission_wiring::row_owner(#[trigger] rows[i]) == owner
                    && rows[i].0 == pk {
                let i = choose|i: int|
                    0 <= i < rows.len() && admission_wiring::row_owner(#[trigger] rows[i]) == owner
                        && rows[i].0 == pk;
                assert(admission_wiring::row_owner(rows[i]) == owner);
            }
        }
    } else {
        assert(list.skip(n)[g - n] == list[g]);
        assert(kept[g - n] == owner);
        assert(kept.to_set().contains(owner));
        assert(admission_wiring::kept_trackers(view.groups, asked.to_set()).contains(owner));
    }
}

/// Admitted tracker groups that no row names stay in the demand.
pub proof fn demand_keeps_unnamed_trackers(
    list: GroupList,
    rows: Seq<(Pubkey, ConsumerId, Option<Pubkey>)>,
    view: AdmissionView,
    owner: ExplicitOwner,
)
    requires
        is_demand(list, rows, view),
        view.groups.dom().contains(owner),
        owner.consumer is Tracker,
        forall|i: int|
            0 <= i < rows.len() ==> admission_wiring::row_owner(#[trigger] rows[i]) != owner,
    ensures
        exists|g: int|
            0 <= g < list.len() && (#[trigger] list[g]).0 == owner && list[g].1@
                == view.groups[owner],
{
    let n = choose|n: int| #[trigger] is_demand_split(list, rows, view, n);
    let asked = admission_wiring::list_owners(list.take(n));
    let kept = admission_wiring::list_owners(list.skip(n));
    lemma_row_owners(rows, owner);
    assert(!asked.to_set().contains(owner));
    assert(admission_wiring::kept_trackers(view.groups, asked.to_set()).contains(owner));
    assert(kept.to_set().contains(owner));
    let g = choose|g: int| 0 <= g < kept.len() && kept[g] == owner;
    assert(list.skip(n)[g] == list[g + n]);
    assert(list[g + n].0 == owner);
}

proof fn lemma_row_owners(
    rows: Seq<(Pubkey, ConsumerId, Option<Pubkey>)>,
    owner: ExplicitOwner,
)
    ensures
        admission_wiring::rows_owners(rows).contains(owner) <==> exists|i: int|
            0 <= i < rows.len() && admission_wiring::row_owner(#[trigger] rows[i]) == owner,
{
    let mapped = rows.map_values(
        |r: (Pubkey, ConsumerId, Option<Pubkey>)| admission_wiring::row_owner(r),
    );
    if mapped.contains(owner) {
        let i = choose|i: int| 0 <= i < mapped.len() && mapped[i] == owner;
        assert(admission_wiring::row_owner(rows[i]) == owner);
    }
    if exists|i: int|
        0 <= i < rows.len() && admission_wiring::row_owner(#[trigger] rows[i]) == owner {
        let i = choose|i: int|
            0 <= i < rows.len() && admission_wiring::row_owner(#[trigger] rows[i]) == owner;
        assert(mapped[i] == owner);
    }
}

} // verus!
