use clarity::Uint256;
use num::Bounded;
use bridge_core::amount::U256;
use bridge_core::event::{bytes_eq, copy_bytes, DepositEvent};
use bridge_core::sequencer::Sequencer;
use bridge_core::settlement::{Settlement, SettlementOutcome};

fn ev(nonce: u64, asset: u8, amount: U256, dest: u8) -> DepositEvent {
    DepositEvent::new(nonce, 7, vec![asset; 20], amount, vec![dest; 20], vec![9; 20])
}

#[test]
fn bytes_compare_and_copy() {
    assert!(bytes_eq(&vec![1, 2, 3], &vec![1, 2, 3]));
    assert!(!bytes_eq(&vec![1, 2, 3], &vec![1, 2, 4]));
    assert!(!bytes_eq(&vec![1, 2], &vec![1, 2, 3]));
    assert_eq!(copy_bytes(&vec![5, 6]), vec![5, 6]);
}

#[test]
fn events_compare_by_every_field() {
    let a = ev(1, 1, U256::from_u64(5), 2);
    assert!(a.same_event(&a.duplicate()));
    assert!(!a.same_event(&ev(1, 1, U256::from_u64(6), 2)));
    assert!(!a.same_event(&ev(2, 1, U256::from_u64(5), 2)));
    assert!(!a.same_event(&ev(1, 1, U256::from_u64(5), 3)));
}

#[test]
fn sequencer_buffers_and_drains() {
    let mut s = Sequencer::new();
    assert!(s.receive(ev(2, 1, U256::from_u64(1), 1)).is_empty());
    assert!(s.receive(ev(4, 1, U256::from_u64(1), 1)).is_empty());
    assert_eq!(s.get_last_observed_nonce(), 0);
    let ready = s.receive(ev(1, 1, U256::from_u64(1), 1));
    let nonces: Vec<u64> = ready.iter().map(|e| e.event_nonce).collect();
    assert_eq!(nonces, vec![1, 2]);
    assert_eq!(s.get_last_observed_nonce(), 2);
    assert!(s.receive(ev(2, 1, U256::from_u64(1), 1)).is_empty());
    let ready = s.receive(ev(3, 1, U256::from_u64(1), 1));
    let nonces: Vec<u64> = ready.iter().map(|e| e.event_nonce).collect();
    assert_eq!(nonces, vec![3, 4]);
    assert_eq!(s.get_last_observed_nonce(), 4);
}

#[test]
fn registry_resolves_deterministically() {
    let mut l = Settlement::new();
    assert_eq!(l.get_denomination(&vec![1; 20]), None);
    assert_eq!(l.resolve_or_create(&vec![1; 20]), 0);
    assert_eq!(l.resolve_or_create(&vec![2; 20]), 1);
    assert_eq!(l.resolve_or_create(&vec![1; 20]), 0);
    assert_eq!(l.get_denomination(&vec![2; 20]), Some(1));
    assert_eq!(l.total_bridged_supply(1), U256::zero());
    assert_eq!(l.denomination_count(), 2);
}

#[test]
fn supply_overflow_leaves_every_holder_untouched() {
    let mut l = Settlement::new();
    let big = U256::from_limbs(u128::MAX, 0);
    assert!(matches!(l.apply(&ev(1, 1, big, 1)), SettlementOutcome::Credited { .. }));
    assert!(matches!(l.apply(&ev(2, 1, U256::from_u64(1), 2)), SettlementOutcome::Credited { .. }));
    let d = l.get_denomination(&vec![1; 20]).unwrap();
    assert_eq!(l.total_bridged_supply(d), U256::from_limbs(u128::MAX, 1));
    assert_eq!(l.get_balance(&vec![2; 20], d), Some(U256::from_u64(1)));
    // the supply would pass 2^256 - 1, though the receiving balance alone would not
    assert!(matches!(l.apply(&ev(3, 1, big, 2)), SettlementOutcome::SkippedOverflow { .. }));
    assert_eq!(l.get_balance(&vec![2; 20], d), Some(U256::from_u64(1)));
    assert_eq!(l.get_balance(&vec![1; 20], d), Some(big));
    assert_eq!(l.total_bridged_supply(d), U256::from_limbs(u128::MAX, 1));
}

#[test]
fn amounts_convert_from_clarity() {
    let max = Uint256::max_value().to_be_bytes();
    let mut hi = [0u8; 16];
    let mut lo = [0u8; 16];
    hi.copy_from_slice(&max[..16]);
    lo.copy_from_slice(&max[16..]);
    let a = U256::from_limbs(u128::from_be_bytes(hi), u128::from_be_bytes(lo));
    assert_eq!(a, U256::max_value());
    let n = Uint256::from(30_000_000u64).to_be_bytes();
    lo.copy_from_slice(&n[16..]);
    assert_eq!(U256::from_limbs(0, u128::from_be_bytes(lo)), U256::from_u64(30_000_000));
}
