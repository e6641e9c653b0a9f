//! The attestation-and-settlement core of a cross-chain bridge.
//!
//! Observers claim deposit events seen on a source chain; the claim store counts each
//! observer's current claim by weight, and the first claim-set of a nonce whose weight
//! passes two thirds of the total is attested for good. Attested events pass through the
//! nonce sequencer, which hands them on strictly in nonce order, and settlement credits
//! each one with checked 256-bit arithmetic, skipping (and reporting) a credit that would
//! overflow a supply or a balance.
use vstd::prelude::*;

pub mod amount;
pub mod attestation;
pub mod bridge;
pub mod event;
pub mod sequencer;
pub mod settlement;

verus! {

} // verus!
