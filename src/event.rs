//! Deposit events observed on the source chain, and the claims that observers make of them.
use vstd::prelude::*;

use crate::amount::U256;

verus! {

/// What a deposit event is, as plain mathematical values.
pub struct EventModel {
    pub nonce: u64,
    pub height: u64,
    pub asset: Seq<u8>,
    pub amount: nat,
    pub destination: Seq<u8>,
    pub sender: Seq<u8>,
}

/// A deposit on the source chain: `amount` of `source_asset`, sent by `source_account`
/// to `destination` on the ledger. Addresses are held as their raw bytes.
#[derive(Clone, Debug)]
pub struct DepositEvent {
    pub event_nonce: u64,
    pub block_height: u64,
    pub source_asset: Vec<u8>,
    pub amount: U256,
    pub destination: Vec<u8>,
    pub source_account: Vec<u8>,
}

impl View for DepositEvent {
    type V = EventModel;

    open spec fn view(&self) -> EventModel {
        EventModel {
            nonce: self.event_nonce,
            height: self.block_height,
            asset: self.source_asset@,
            amount: self.amount@,
            destination: self.destination@,
            sender: self.source_account@,
        }
    }
}

/// Byte-wise equality of two addresses.
pub fn bytes_eq(a: &Vec<u8>, b: &Vec<u8>) -> (r: bool)
    ensures
        r == (a@ == b@),
{
    if a.len() != b.len() {
        return false;
    }
    let mut i: usize = 0;
    while i < a.len()
        invariant
            a@.len() == b@.len(),
            i <= a@.len(),
            forall|j: int| 0 <= j < i ==> a@[j] == b@[j],
        decreases a@.len() - i,
    {
        if a[i] != b[i] {
            return false;
        }
        i = i + 1;
    }
    assert(a@ =~= b@);
    true
}

/// A copy of an address.
pub fn copy_bytes(a: &Vec<u8>) -> (r: Vec<u8>)
    ensures
        r@ == a@,
{
    let mut r: Vec<u8> = Vec::new();
    let mut i: usize = 0;
    while i < a.len()
        invariant
            i <= a@.len(),
            r@ == a@.subrange(0, i as int),
        decreases a@.len() - i,
    {
        r.push(a[i]);
        i = i + 1;
        assert(r@ =~= a@.subrange(0, i as int));
    }
    assert(a@.subrange(0, a@.len() as int) =~= a@);
    r
}

impl DepositEvent {
    /// A deposit event built from its fields.
    pub fn new(
        event_nonce: u64,
        block_height: u64,
        source_asset: Vec<u8>,
        amount: U256,
        destination: Vec<u8>,
        source_account: Vec<u8>,
    ) -> (r: DepositEvent)
        ensures
            r@ == (EventModel {
                nonce: event_nonce,
                height: block_height,
                asset: source_asset@,
                amount: amount@,
                destination: destination@,
                sender: source_account@,
            }),
    {
        DepositEvent { event_nonce, block_height, source_asset, amount, destination, source_account }
    }

    /// Whether two events agree in every field.
    pub fn same_event(&self, other: &DepositEvent) -> (r: bool)
        ensures
            r == (self@ == other@),
    {
        self.event_nonce == other.event_nonce && self.block_height == other.block_height
            && bytes_eq(&self.source_asset, &other.source_asset) && self.amount.is_equal(
            &other.amount,
        ) && bytes_eq(&self.destination, &other.destination) && bytes_eq(
            &self.source_account,
            &other.source_account,
        )
    }

    /// A copy of the event.
    pub fn duplicate(&self) -> (r: DepositEvent)
        ensures
            r@ == self@,
    {
        DepositEvent {
            event_nonce: self.event_nonce,
            block_height: self.block_height,
            source_asset: copy_bytes(&self.source_asset),
            amount: self.amount,
            destination: copy_bytes(&self.destination),
            source_account: copy_bytes(&self.source_account),
        }
    }
}

/// One observer's assertion that `event` happened. Two claims are equivalent when
/// their events agree; the submitter is not part of what is claimed.
#[derive(Clone, Debug)]
pub struct Claim {
    pub event: DepositEvent,
    pub submitter: u64,
}

} // verus!
