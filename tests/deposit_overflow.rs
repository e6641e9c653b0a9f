use bridge_core::amount::U256;
use bridge_core::attestation::{ObserverSet, RejectReason, SubmitResult};
use bridge_core::bridge::{submit_false_claims, Bridge};
use bridge_core::event::{Claim, DepositEvent};
use bridge_core::settlement::{balances_match, SettlementOutcome};

fn addr(tag: u8) -> Vec<u8> {
    vec![tag; 20]
}

fn asset_x() -> Vec<u8> {
    addr(0xaa)
}

fn asset_y() -> Vec<u8> {
    addr(0xbb)
}

fn user() -> Vec<u8> {
    addr(0x01)
}

fn user2() -> Vec<u8> {
    addr(0x02)
}

fn sender() -> Vec<u8> {
    addr(0x99)
}

fn bridge_of(weights: Vec<u64>) -> Bridge {
    Bridge::new(ObserverSet::new(weights).unwrap())
}

fn event(nonce: u64, asset: Vec<u8>, amount: U256, dest: Vec<u8>) -> DepositEvent {
    DepositEvent::new(nonce, 100 + nonce, asset, amount, dest, sender())
}

fn claim(nonce: u64, asset: Vec<u8>, amount: U256, dest: Vec<u8>, submitter: u64) -> Claim {
    Claim { event: event(nonce, asset, amount, dest), submitter }
}

fn all_claim(b: &mut Bridge, nonce: u64, asset: Vec<u8>, amount: U256, dest: Vec<u8>) -> Vec<SubmitResult> {
    submit_false_claims(b, nonce, 100 + nonce, amount, &dest, &sender(), &asset)
}

/// Every balance entry the account holds, as (denomination, amount) coins.
fn coins_of(b: &Bridge, account: &Vec<u8>) -> Vec<(usize, U256)> {
    let mut coins = Vec::new();
    let mut d: usize = 0;
    while let Some(_) = b.get_asset(d) {
        if let Some(a) = b.balance_entry(account, d) {
            coins.push((d, a));
        }
        d += 1;
    }
    coins
}

fn normal() -> U256 {
    U256::from_u64(30_000_000)
}

#[test]
fn deposit_overflow_test() {
    let mut b = bridge_of(vec![10, 10, 10, 10]);
    all_claim(&mut b, 1, asset_x(), normal(), user());
    let x = b.get_denomination(&asset_x()).unwrap();
    assert_eq!(b.get_balance(&user(), x), normal());
    assert!(balances_match(&coins_of(&b, &user()), &vec![(x, normal())]));

    all_claim(&mut b, 2, asset_y(), U256::max_value(), user());
    let y = b.get_denomination(&asset_y()).unwrap();
    assert_eq!(b.get_balance(&user(), x), normal());
    assert_eq!(b.get_balance(&user(), y), U256::max_value());
    assert_eq!(b.total_bridged_supply(y), Some(U256::max_value()));
    let mut expected = vec![(x, normal()), (y, U256::max_value())];
    assert!(balances_match(&coins_of(&b, &user()), &expected));

    all_claim(&mut b, 3, asset_x(), normal(), user());
    assert_eq!(b.get_balance(&user(), x), U256::from_u64(60_000_000));
    assert_eq!(b.get_balance(&user(), y), U256::max_value());
    expected = vec![(x, U256::from_u64(60_000_000)), (y, U256::max_value())];
    assert!(balances_match(&coins_of(&b, &user()), &expected));

    all_claim(&mut b, 4, asset_y(), normal(), user());
    assert_eq!(b.get_balance(&user(), x), U256::from_u64(60_000_000));
    assert_eq!(b.get_balance(&user(), y), U256::max_value());
    assert!(balances_match(&coins_of(&b, &user()), &expected));
    assert_eq!(b.get_last_observed_nonce(), 4);

    all_claim(&mut b, 5, asset_y(), normal(), user2());
    assert_eq!(b.balance_entry(&user2(), y), None);
    assert_eq!(b.balance_entry(&user2(), x), None);
    assert!(coins_of(&b, &user2()).is_empty());
    assert_eq!(b.get_last_observed_nonce(), 5);
}

#[test]
fn quorum_needs_more_than_two_thirds() {
    let mut b = bridge_of(vec![1, 1, 1, 1]);
    assert_eq!(b.submit_claim(&claim(1, asset_x(), normal(), user(), 0)), SubmitResult::Accepted);
    assert_eq!(b.submit_claim(&claim(1, asset_x(), normal(), user(), 1)), SubmitResult::Accepted);
    assert!(b.get_attestation(1).is_none());
    assert_eq!(b.get_denomination(&asset_x()), None);
    assert_eq!(b.get_last_observed_nonce(), 0);
    assert_eq!(b.submit_claim(&claim(1, asset_x(), normal(), user(), 2)), SubmitResult::Accepted);
    assert!(b.get_attestation(1).is_some());
    let x = b.get_denomination(&asset_x()).unwrap();
    assert_eq!(b.get_balance(&user(), x), U256::from_u64(30_000_000));
    assert_eq!(b.get_last_observed_nonce(), 1);
}

#[test]
fn exactly_two_thirds_is_no_quorum() {
    let mut b = bridge_of(vec![1, 1, 1]);
    b.submit_claim(&claim(1, asset_x(), normal(), user(), 0));
    b.submit_claim(&claim(1, asset_x(), normal(), user(), 1));
    assert!(b.get_attestation(1).is_none());
    b.submit_claim(&claim(1, asset_x(), normal(), user(), 2));
    assert!(b.get_attestation(1).is_some());
}

#[test]
fn max_value_deposit_creates_denomination() {
    let mut b = bridge_of(vec![5, 5, 5]);
    all_claim(&mut b, 1, asset_x(), normal(), user());
    assert_eq!(b.get_denomination(&asset_y()), None);
    all_claim(&mut b, 2, asset_y(), U256::max_value(), user());
    let y = b.get_denomination(&asset_y()).unwrap();
    assert_eq!(y, 1);
    assert_eq!(b.get_balance(&user(), y), U256::max_value());
    assert_eq!(b.total_bridged_supply(y), Some(U256::max_value()));
    assert_eq!(b.total_bridged_supply(2), None);
}

#[test]
fn other_asset_unaffected_by_exhausted_supply() {
    let mut b = bridge_of(vec![5, 5, 5]);
    all_claim(&mut b, 1, asset_x(), normal(), user());
    all_claim(&mut b, 2, asset_y(), U256::max_value(), user());
    all_claim(&mut b, 3, asset_x(), normal(), user());
    let x = b.get_denomination(&asset_x()).unwrap();
    assert_eq!(b.get_balance(&user(), x), U256::from_u64(60_000_000));
    assert_eq!(b.total_bridged_supply(x), Some(U256::from_u64(60_000_000)));
}

#[test]
fn overflowing_credit_is_skipped_and_nonce_advances() {
    let mut b = bridge_of(vec![5, 5, 5]);
    all_claim(&mut b, 1, asset_x(), normal(), user());
    all_claim(&mut b, 2, asset_y(), U256::max_value(), user());
    all_claim(&mut b, 3, asset_x(), normal(), user());
    all_claim(&mut b, 4, asset_y(), normal(), user());
    let y = b.get_denomination(&asset_y()).unwrap();
    let log = b.settlements();
    assert_eq!(log.len(), 4);
    match &log[3].outcome {
        SettlementOutcome::SkippedOverflow { denom, amount } => {
            assert_eq!(*denom, y);
            assert_eq!(*amount, normal());
        }
        other => panic!("expected an overflow, got {:?}", other),
    }
    assert_eq!(b.get_balance(&user(), y), U256::max_value());
    assert_eq!(b.total_bridged_supply(y), Some(U256::max_value()));
    assert_eq!(b.get_last_observed_nonce(), 4);
}

#[test]
fn exhausted_supply_blocks_new_account() {
    let mut b = bridge_of(vec![5, 5, 5]);
    all_claim(&mut b, 1, asset_y(), U256::max_value(), user());
    all_claim(&mut b, 2, asset_y(), normal(), user2());
    let y = b.get_denomination(&asset_y()).unwrap();
    assert!(matches!(b.settlements()[1].outcome, SettlementOutcome::SkippedOverflow { .. }));
    assert_eq!(b.balance_entry(&user2(), y), None);
    assert_eq!(b.get_balance(&user2(), y), U256::zero());
    assert_eq!(b.get_last_observed_nonce(), 2);
}

#[test]
fn attested_nonce_is_never_redecided() {
    let mut b = bridge_of(vec![1, 1, 1, 1]);
    for s in 0..3 {
        b.submit_claim(&claim(1, asset_x(), normal(), user(), s));
    }
    let first = b.get_attestation(1).unwrap();
    assert_eq!(first.destination, user());
    // every observer, the same ones included, now claims another event for nonce 1
    for s in 0..4 {
        let r = b.submit_claim(&claim(1, asset_x(), normal(), user2(), s));
        assert_eq!(r, SubmitResult::Rejected(RejectReason::AlreadyFinalizedConflict));
    }
    let after = b.get_attestation(1).unwrap();
    assert_eq!(after.destination, user());
    let x = b.get_denomination(&asset_x()).unwrap();
    assert_eq!(b.balance_entry(&user2(), x), None);
    assert_eq!(b.settlements().len(), 1);
}

#[test]
fn out_of_order_attestations_settle_in_nonce_order() {
    let mut b = bridge_of(vec![1]);
    b.submit_claim(&claim(3, asset_x(), U256::from_u64(3), user(), 0));
    b.submit_claim(&claim(2, asset_x(), U256::from_u64(2), user(), 0));
    assert_eq!(b.get_last_observed_nonce(), 0);
    assert_eq!(b.settlements().len(), 0);
    b.submit_claim(&claim(1, asset_x(), U256::from_u64(1), user(), 0));
    assert_eq!(b.get_last_observed_nonce(), 3);
    let log = b.settlements();
    let nonces: Vec<u64> = log.iter().map(|r| r.event.event_nonce).collect();
    assert_eq!(nonces, vec![1, 2, 3]);
    let x = b.get_denomination(&asset_x()).unwrap();
    assert_eq!(b.get_balance(&user(), x), U256::from_u64(6));
    b.submit_claim(&claim(5, asset_x(), U256::from_u64(5), user(), 0));
    assert_eq!(b.get_last_observed_nonce(), 3);
    b.submit_claim(&claim(4, asset_x(), U256::from_u64(4), user(), 0));
    assert_eq!(b.get_last_observed_nonce(), 5);
    assert_eq!(b.get_balance(&user(), x), U256::from_u64(15));
}

#[test]
fn replaying_attested_event_changes_nothing() {
    let mut b = bridge_of(vec![2, 2]);
    all_claim(&mut b, 1, asset_x(), normal(), user());
    let x = b.get_denomination(&asset_x()).unwrap();
    let results = all_claim(&mut b, 1, asset_x(), normal(), user());
    assert_eq!(results, vec![SubmitResult::Superseded, SubmitResult::Superseded]);
    assert_eq!(b.get_balance(&user(), x), normal());
    assert_eq!(b.total_bridged_supply(x), Some(normal()));
    assert_eq!(b.settlements().len(), 1);
    assert_eq!(b.get_last_observed_nonce(), 1);
}

#[test]
fn resubmission_supersedes_without_double_counting() {
    let mut b = bridge_of(vec![1, 1, 1, 1]);
    assert_eq!(b.submit_claim(&claim(1, asset_x(), normal(), user(), 0)), SubmitResult::Accepted);
    assert_eq!(b.submit_claim(&claim(1, asset_x(), normal(), user(), 0)), SubmitResult::Superseded);
    assert_eq!(b.submit_claim(&claim(1, asset_x(), normal(), user(), 0)), SubmitResult::Superseded);
    assert_eq!(b.submit_claim(&claim(1, asset_x(), normal(), user(), 1)), SubmitResult::Accepted);
    assert!(b.get_attestation(1).is_none());
    // observer 1 changes its mind: its weight moves to the other claim-set
    assert_eq!(b.submit_claim(&claim(1, asset_x(), normal(), user2(), 1)), SubmitResult::Superseded);
    b.submit_claim(&claim(1, asset_x(), normal(), user(), 2));
    assert!(b.get_attestation(1).is_none());
    b.submit_claim(&claim(1, asset_x(), normal(), user(), 3));
    assert_eq!(b.get_attestation(1).unwrap().destination, user());
}

#[test]
fn invalid_claims_are_rejected() {
    let mut b = bridge_of(vec![1, 1]);
    assert_eq!(
        b.submit_claim(&claim(0, asset_x(), normal(), user(), 0)),
        SubmitResult::Rejected(RejectReason::InvalidNonce)
    );
    assert_eq!(
        b.submit_claim(&claim(1, asset_x(), normal(), user(), 2)),
        SubmitResult::Rejected(RejectReason::UnknownObserver)
    );
    assert!(b.get_attestation(1).is_none());
}

#[test]
fn observer_weights_must_fit() {
    assert!(ObserverSet::new(vec![u64::MAX, 1]).is_none());
    let o = ObserverSet::new(vec![u64::MAX - 1, 1]).unwrap();
    assert_eq!(o.total(), u64::MAX);
    assert_eq!(o.len(), 2);
    assert_eq!(ObserverSet::new(vec![]).unwrap().total(), 0);
}

#[test]
fn weightless_observers_never_attest() {
    let mut b = bridge_of(vec![0, 0]);
    all_claim(&mut b, 1, asset_x(), normal(), user());
    assert!(b.get_attestation(1).is_none());
}

#[test]
fn checked_add_exact_values() {
    let a = U256::from_u64(30_000_000);
    assert_eq!(a.checked_add(&a), Some(U256::from_u64(60_000_000)));
    let low_max = U256::from_limbs(0, u128::MAX);
    assert_eq!(low_max.checked_add(&U256::from_u64(1)), Some(U256::from_limbs(1, 0)));
    assert_eq!(U256::max_value().checked_add(&U256::from_u64(1)), None);
    assert_eq!(U256::max_value().checked_add(&U256::zero()), Some(U256::max_value()));
    let half = U256::from_limbs(u128::MAX / 2 + 1, 0);
    assert_eq!(half.checked_add(&half), None);
    assert!(U256::from_u64(7).is_equal(&U256::from_limbs(0, 7)));
    assert!(!U256::from_u64(7).is_equal(&U256::from_limbs(1, 7)));
}

#[test]
fn settlement_outcome_reports_credit() {
    let mut b = bridge_of(vec![1]);
    b.submit_claim(&claim(1, asset_x(), normal(), user(), 0));
    match &b.settlements()[0].outcome {
        SettlementOutcome::Credited { account, denom, amount } => {
            assert_eq!(*account, user());
            assert_eq!(*denom, 0);
            assert_eq!(*amount, normal());
        }
        other => panic!("expected a credit, got {:?}", other),
    }
}

#[test]
fn denomination_queryable_both_ways() {
    let mut b = bridge_of(vec![1]);
    b.submit_claim(&claim(1, asset_x(), normal(), user(), 0));
    b.submit_claim(&claim(2, asset_y(), normal(), user(), 0));
    let y = b.get_denomination(&asset_y()).unwrap();
    assert_eq!(b.get_asset(y), Some(asset_y()));
    assert_eq!(b.get_asset(0), Some(asset_x()));
    assert_eq!(b.get_asset(2), None);
    assert_eq!(b.observer_count(), 1);
}

#[test]
fn balances_match_compares_coin_lists() {
    let a = U256::from_u64(1);
    let c = U256::from_u64(2);
    assert!(balances_match(&vec![(0, a), (1, c)], &vec![(1, c), (0, a)]));
    assert!(!balances_match(&vec![(0, a)], &vec![(0, a), (1, c)]));
    assert!(!balances_match(&vec![], &vec![(0, a)]));
    assert!(balances_match(&vec![], &vec![]));
    assert!(!balances_match(&vec![(0, c)], &vec![(0, a)]));
    assert!(!balances_match(&vec![(2, a)], &vec![(0, a)]));
    assert!(!balances_match(&vec![(0, a), (1, c)], &vec![(0, a)]));
    assert!(!balances_match(&vec![(0, c)], &vec![(0, a), (0, c)]));
}

#[test]
fn conflicting_round_is_rejected_and_settles_nothing() {
    let mut b = bridge_of(vec![3, 3, 3]);
    all_claim(&mut b, 1, asset_x(), normal(), user());
    let results = all_claim(&mut b, 1, asset_x(), normal(), user2());
    let conflict = SubmitResult::Rejected(RejectReason::AlreadyFinalizedConflict);
    assert_eq!(results, vec![conflict, conflict, conflict]);
    assert_eq!(b.get_attestation(1).unwrap().destination, user());
    assert_eq!(b.settlements().len(), 1);
    assert_eq!(b.get_last_observed_nonce(), 1);
}

#[test]
fn early_round_is_only_buffered() {
    let mut b = bridge_of(vec![3, 3, 3]);
    let results = all_claim(&mut b, 2, asset_x(), normal(), user());
    assert_eq!(results, vec![SubmitResult::Accepted; 3]);
    assert!(b.get_attestation(2).is_some());
    assert_eq!(b.get_last_observed_nonce(), 0);
    assert!(b.settlements().is_empty());
    assert_eq!(b.get_denomination(&asset_x()), None);
    all_claim(&mut b, 1, asset_y(), normal(), user());
    assert_eq!(b.get_last_observed_nonce(), 2);
    let x = b.get_denomination(&asset_x()).unwrap();
    assert_eq!(b.get_balance(&user(), x), normal());
}
