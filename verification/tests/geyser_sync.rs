use track::admission_wiring::{admitted_pubkey_set, AdmissionConvergeResult};
use track::desired_set::ConsumerId;
use track::explicit_admission::FixedCapAdmission;
use track::explicit_ownership::{ExplicitConsumer, ExplicitOwner, ExplicitOwnerKey};
use track::geyser_sync::{
    consumer_id_for_track_pin, converge_admission_from_ctx, converge_for_push,
    explicit_subscription_has_new_keys, finish_coalesced_push,
    track_worker_execute_coalesced_push, PushConvergence, PushEnd, PushRequest, PushStep,
};
use track::pubkey::Pubkey;
use track::worker_commands::TrackPinReason;

fn pk(seed: u8) -> Pubkey {
    Pubkey::new_from_array([seed; 32])
}

fn request(before_keys: Vec<Pubkey>) -> PushRequest {
    PushRequest {
        before_keys,
        continue_evict: false,
        release_flush_slot: true,
        restore_barrier_pending: true,
    }
}

fn convergence(result: AdmissionConvergeResult, admitted: Vec<Pubkey>) -> PushConvergence {
    PushConvergence {
        result,
        admitted,
        cap_overflow: result != AdmissionConvergeResult::Converged,
    }
}

fn end(signal: bool, refresh_membership: bool) -> PushEnd {
    PushEnd {
        release_flush_slot: true,
        signal_barrier: Some(signal),
        refresh_membership,
        push_ok: signal,
    }
}

#[test]
fn only_added_keys_are_new() {
    let before = [pk(1), pk(2)];
    assert!(!explicit_subscription_has_new_keys(&before, &[pk(2)]));
    assert!(!explicit_subscription_has_new_keys(&before, &[pk(2), pk(1), pk(2)]));
    assert!(!explicit_subscription_has_new_keys(&before, &[]));
    assert!(explicit_subscription_has_new_keys(&before, &[pk(1), pk(3)]));
    assert!(explicit_subscription_has_new_keys(&[], &[pk(1)]));
}

#[test]
fn push_without_readiness_or_convergence_fails() {
    let changed = convergence(AdmissionConvergeResult::Converged, vec![pk(1)]);
    assert_eq!(
        track_worker_execute_coalesced_push(&request(vec![]), &changed, false),
        PushStep::End(end(false, false))
    );
    let overflow = convergence(AdmissionConvergeResult::Unconverged, vec![pk(1)]);
    assert_eq!(
        track_worker_execute_coalesced_push(&request(vec![]), &overflow, true),
        PushStep::End(end(false, false))
    );
    let protected = convergence(AdmissionConvergeResult::ProtectedOverflow, vec![]);
    assert_eq!(
        track_worker_execute_coalesced_push(&request(vec![]), &protected, true),
        PushStep::End(end(false, false))
    );
}

#[test]
fn push_of_nothing_succeeds_without_a_flush() {
    let same = convergence(AdmissionConvergeResult::Converged, vec![pk(1), pk(2)]);
    assert_eq!(
        track_worker_execute_coalesced_push(&request(vec![pk(2), pk(1)]), &same, true),
        PushStep::End(end(true, false))
    );
}

#[test]
fn change_or_eviction_is_flushed() {
    let moved = convergence(AdmissionConvergeResult::Converged, vec![pk(1), pk(3), pk(4)]);
    assert_eq!(
        track_worker_execute_coalesced_push(&request(vec![pk(1), pk(2)]), &moved, true),
        PushStep::Flush {
            continue_evict: false,
            delta_pubkeys: 3
        }
    );
    let mut evicting = request(vec![pk(1)]);
    evicting.continue_evict = true;
    let same = convergence(AdmissionConvergeResult::Converged, vec![pk(1)]);
    assert_eq!(
        track_worker_execute_coalesced_push(&evicting, &same, true),
        PushStep::Flush {
            continue_evict: true,
            delta_pubkeys: 0
        }
    );
    assert_eq!(finish_coalesced_push(&evicting, true), end(true, true));
    assert_eq!(finish_coalesced_push(&evicting, false), end(false, false));
}

#[test]
fn those_who_do_not_wait_are_told_nothing() {
    let mut quiet = request(vec![]);
    quiet.restore_barrier_pending = false;
    quiet.release_flush_slot = false;
    assert_eq!(
        finish_coalesced_push(&quiet, true),
        PushEnd {
            release_flush_slot: false,
            signal_barrier: None,
            refresh_membership: true,
            push_ok: true,
        }
    );
}

#[test]
fn push_meets_the_demand_rows() {
    let mut admission = FixedCapAdmission::new(3);
    let rows = [
        (pk(1), ConsumerId::Wallet, None),
        (pk(2), ConsumerId::Momentum, Some(pk(9))),
        (pk(3), ConsumerId::Momentum, Some(pk(9))),
    ];
    let met = converge_for_push(&mut admission, &rows);
    assert_eq!(met.result, AdmissionConvergeResult::Converged);
    assert!(!met.cap_overflow);
    assert_eq!(met.admitted, vec![pk(1), pk(2), pk(3)]);
    assert_eq!(met.admitted, admitted_pubkey_set(&admission));

    // What is no longer demanded goes.
    assert_eq!(
        converge_admission_from_ctx(&mut admission, &rows[..1]),
        AdmissionConvergeResult::Converged
    );
    assert_eq!(admitted_pubkey_set(&admission), vec![pk(1)]);
}

#[test]
fn push_of_more_than_fits_overflows() {
    let mut admission = FixedCapAdmission::new(1);
    let rows = [
        (pk(1), ConsumerId::Wallet, None),
        (pk(2), ConsumerId::Wallet, None),
    ];
    let met = converge_for_push(&mut admission, &rows);
    assert_eq!(met.result, AdmissionConvergeResult::Unconverged);
    assert!(met.cap_overflow);
    assert_eq!(met.admitted, Vec::<Pubkey>::new());
}

#[test]
fn tracker_groups_outlive_rows_that_do_not_name_them() {
    let mut admission = FixedCapAdmission::new(4);
    let tracker = ExplicitOwner {
        consumer: ExplicitConsumer::Tracker,
        owner_key: ExplicitOwnerKey::Mint(pk(5)),
    };
    let _ = admission.try_admit_new_group(tracker, vec![pk(5)]);
    let met = converge_for_push(&mut admission, &[(pk(1), ConsumerId::Arb, Some(pk(8)))]);
    assert_eq!(met.result, AdmissionConvergeResult::Converged);
    assert_eq!(met.admitted, vec![pk(1), pk(5)]);
}

#[test]
fn pins_are_for_their_consumers() {
    assert_eq!(
        consumer_id_for_track_pin(TrackPinReason::Wallet),
        ConsumerId::Wallet
    );
    assert_eq!(
        consumer_id_for_track_pin(TrackPinReason::MomentumActive),
        ConsumerId::Momentum
    );
    assert_eq!(
        consumer_id_for_track_pin(TrackPinReason::ArbMultiDex),
        ConsumerId::Arb
    );
}
