//! The bridge core: claims flow into the claim store, attested events through the nonce
//! sequencer, and due events into settlement, whose every outcome is logged.
use vstd::prelude::*;

use crate::amount::U256;
use crate::attestation::{
    after_claim, attestation_of, claim_attests, claim_result, claim_set_weight,
    lemma_attested_nonce_settles_nothing, lemma_claim_set_weight_bounded, lemma_quorum_irreversible,
    lemma_unanimous_weight, next_record, record_or_fresh, total_weight, vote_view, ClaimStore,
    NonceModel, ObserverSet, RejectReason, SubmitResult,
};
use crate::event::{copy_bytes, Claim, DepositEvent, EventModel};
use crate::sequencer::Sequencer;
use crate::settlement::{
    asset_index, ledger_wf, balance_in, empty_ledger, outcome_matches, settled, LedgerModel, Settlement, SettlementOutcome,
};

verus! {

/// One event handed to settlement, with what settlement did with it.
pub struct SettlementRecord {
    pub event: DepositEvent,
    pub outcome: SettlementOutcome,
}

/// The ledger that settling the logged events in order produces from `m`.
pub open spec fn replay(m: LedgerModel, log: Seq<SettlementRecord>) -> LedgerModel
    decreases log.len(),
{
    if log.len() == 0 {
        m
    } else {
        settled(replay(m, log.drop_last()), log.last().event@)
    }
}

/// Each logged outcome is what settling its event did, on the ledger the earlier entries
/// left.
pub open spec fn log_consistent(log: Seq<SettlementRecord>) -> bool {
    forall|j: int|
        0 <= j < log.len() ==> outcome_matches(
            replay(empty_ledger(), log.take(j)),
            (#[trigger] log[j]).event@,
            log[j].outcome,
        )
}

/// The logged events carry the nonces 1, 2, 3, ... in this order.
pub open spec fn log_in_nonce_order(log: Seq<SettlementRecord>) -> bool {
    forall|j: int| 0 <= j < log.len() ==> (#[trigger] log[j]).event.event_nonce == j + 1
}

/// Whether the store counts `c` at all: its nonce is positive and its submitter is an
/// observer.
pub open spec fn claim_valid(w: Seq<u64>, c: Claim) -> bool {
    c.event.event_nonce != 0 && c.submitter < w.len()
}

/// Settling the logged events after the ledger `m` is the same as settling the earlier
/// ones and then the later ones.
pub proof fn lemma_replay_append(m: LedgerModel, a: Seq<SettlementRecord>, b: Seq<SettlementRecord>)
    ensures
        replay(m, a + b) == replay(replay(m, a), b),
    decreases b.len(),
{
    if b.len() == 0 {
        assert(a + b =~= a);
    } else {
        assert((a + b).drop_last() =~= a + b.drop_last());
        lemma_replay_append(m, a, b.drop_last());
    }
}

/// Each entry that a consistent log gained after `old_log` reports what settling its event
/// did on the ledger that `old_log` and the entries before it left.
proof fn lemma_tail_outcomes(old_log: Seq<SettlementRecord>, log: Seq<SettlementRecord>)
    requires
        log_consistent(log),
        old_log.len() <= log.len(),
        log.subrange(0, old_log.len() as int) == old_log,
    ensures
        forall|j: int|
            old_log.len() <= j < log.len() ==> outcome_matches(
                replay(replay(empty_ledger(), old_log), log.subrange(old_log.len() as int, j)),
                (#[trigger] log[j]).event@,
                log[j].outcome,
            ),
{
    assert forall|j: int| old_log.len() <= j < log.len() implies outcome_matches(
        replay(replay(empty_ledger(), old_log), log.subrange(old_log.len() as int, j)),
        (#[trigger] log[j]).event@,
        log[j].outcome,
    ) by {
        assert(log.take(j) =~= old_log + log.subrange(old_log.len() as int, j));
        lemma_replay_append(empty_ledger(), old_log, log.subrange(old_log.len() as int, j));
    }
}

/// The attestation-and-settlement core of the bridge.
pub struct Bridge {
    claims: ClaimStore,
    sequencer: Sequencer,
    ledger: Settlement,
    log: Vec<SettlementRecord>,
}

/// Nothing reached the sequencer or settlement between `pre` and `post`: the log, the
/// ledger, the last observed nonce and the buffer are all as they were.
pub open spec fn settlement_unchanged(pre: Bridge, post: Bridge) -> bool {
    &&& post.log() == pre.log()
    &&& post.ledger() == pre.ledger()
    &&& post.last() == pre.last()
    &&& post.buffered() == pre.buffered()
}

/// What the arrival of the attested event `e` at the sequencer does, from `pre` to `post`.
/// The log only grows, and the ledger is what settling the new entries in order makes of
/// the old one. A stale nonce changes nothing; an early one only joins the buffer; the next
/// one is settled first, followed by the buffered events that come after it without a gap;
/// the last observed nonce moves to the end of that run, and the settled events leave the
/// buffer.
pub open spec fn arrival(pre: Bridge, post: Bridge, e: EventModel) -> bool {
    &&& pre.log().len() <= post.log().len()
    &&& post.log().subrange(0, pre.log().len() as int) == pre.log()
    &&& post.ledger() == replay(pre.ledger(), post.log().subrange(pre.log().len() as int, post.log().len() as int))
    &&& post.last() == pre.last() + (post.log().len() - pre.log().len())
    &&& forall|j: int|
        pre.log().len() <= j < post.log().len() ==> outcome_matches(
            replay(pre.ledger(), post.log().subrange(pre.log().len() as int, j)),
            (#[trigger] post.log()[j]).event@,
            post.log()[j].outcome,
        )
    &&& e.nonce <= pre.last() ==> settlement_unchanged(pre, post)
    &&& e.nonce > pre.last() + 1 ==> post.log() == pre.log() && post.ledger() == pre.ledger()
        && post.last() == pre.last() && post.buffered() == (if pre.buffered().contains_key(e.nonce) {
        pre.buffered()
    } else {
        pre.buffered().insert(e.nonce, e)
    })
    &&& e.nonce == pre.last() + 1 ==> {
        &&& post.log().len() > pre.log().len()
        &&& post.log()[pre.log().len() as int].event@ == e
        &&& forall|j: int|
            pre.log().len() < j < post.log().len() ==> pre.buffered().contains_key(
                (#[trigger] post.log()[j]).event.event_nonce,
            ) && pre.buffered()[post.log()[j].event.event_nonce] == post.log()[j].event@
        &&& post.last() == u64::MAX || !pre.buffered().contains_key((post.last() + 1) as u64)
        &&& post.buffered() == pre.buffered().restrict(Set::new(|k: u64| k > post.last()))
    }
}

impl Bridge {
    /// The claim records, by nonce.
    pub closed spec fn records(&self) -> Map<u64, NonceModel> {
        self.claims.records()
    }

    /// The observers' weights.
    pub closed spec fn weights(&self) -> Seq<u64> {
        self.claims.weights()
    }

    /// The last observed nonce.
    pub closed spec fn last(&self) -> u64 {
        self.sequencer.last()
    }

    /// The attested events that were buffered, by nonce.
    pub closed spec fn buffered(&self) -> Map<u64, EventModel> {
        self.sequencer.buffered()
    }

    /// Denominations, supplies and balances.
    pub closed spec fn ledger(&self) -> LedgerModel {
        self.ledger@
    }

    /// Every event handed to settlement, in order, with its outcome.
    pub closed spec fn log(&self) -> Seq<SettlementRecord> {
        self.log@
    }

    pub closed spec fn wf(&self) -> bool {
        &&& self.claims.wf()
        &&& self.sequencer.wf()
        &&& self.ledger.wf()
        &&& self.log@.len() == self.sequencer.last()
        &&& log_in_nonce_order(self.log@)
        &&& log_consistent(self.log@)
        &&& self.ledger@ == replay(empty_ledger(), self.log@)
    }

    /// Settlement sees the nonces 1, 2, 3, ... with no gap and no repeat, up to the last
    /// observed nonce; each outcome is what settling its event did; and the balances and
    /// supplies are exactly those that settling the logged events in order produces.
    pub proof fn lemma_settlement_order(&self)
        requires
            self.wf(),
        ensures
            self.log().len() == self.last(),
            forall|j: int| 0 <= j < self.log().len() ==> (#[trigger] self.log()[j]).event.event_nonce == j + 1,
            log_consistent(self.log()),
            self.ledger() == replay(empty_ledger(), self.log()),
    {
    }

    /// A bridge with no claims, nothing settled and last observed nonce zero.
    pub fn new(observers: ObserverSet) -> (r: Bridge)
        requires
            observers.wf(),
        ensures
            r.wf(),
            r.weights() == observers@,
            r.records() == Map::<u64, NonceModel>::empty(),
            r.last() == 0,
            r.buffered() == Map::<u64, EventModel>::empty(),
            r.log().len() == 0,
            r.ledger() == empty_ledger(),
    {
        Bridge {
            claims: ClaimStore::new(observers),
            sequencer: Sequencer::new(),
            ledger: Settlement::new(),
            log: Vec::new(),
        }
    }

    /// The balance of `account` in denomination `denom`; zero where it has no entry.
    pub fn get_balance(&self, account: &Vec<u8>, denom: usize) -> (r: U256)
        requires
            self.wf(),
        ensures
            r@ == balance_in(self.ledger(), account@, denom as int),
    {
        match self.ledger.get_balance(account, denom) {
            Some(b) => b,
            None => U256::zero(),
        }
    }

    /// The balance entry of `account` in denomination `denom`, if it has one.
    pub fn balance_entry(&self, account: &Vec<u8>, denom: usize) -> (r: Option<U256>)
        requires
            self.wf(),
        ensures
            r is None <==> !self.ledger().balances.contains_key((account@, denom as int)),
            r matches Some(b) ==> b@ == self.ledger().balances[(account@, denom as int)],
    {
        self.ledger.get_balance(account, denom)
    }

    /// The denomination of `asset`, if it has one.
    pub fn get_denomination(&self, asset: &Vec<u8>) -> (r: Option<usize>)
        requires
            self.wf(),
        ensures
            r is None <==> !self.ledger().assets.contains(asset@),
            r matches Some(d) ==> d < self.ledger().assets.len() && self.ledger().assets[d as int]
                == asset@ && d == asset_index(self.ledger().assets, asset@),
    {
        self.ledger.get_denomination(asset)
    }

    /// The asset of denomination `denom`, if it exists.
    pub fn get_asset(&self, denom: usize) -> (r: Option<Vec<u8>>)
        requires
            self.wf(),
        ensures
            r is None <==> denom >= self.ledger().assets.len(),
            r matches Some(a) ==> a@ == self.ledger().assets[denom as int],
    {
        self.ledger.asset_of(denom)
    }

    /// The total bridged supply of denomination `denom`, if it exists.
    pub fn total_bridged_supply(&self, denom: usize) -> (r: Option<U256>)
        requires
            self.wf(),
        ensures
            r is None <==> denom >= self.ledger().assets.len(),
            r matches Some(s) ==> s@ == self.ledger().supplies[denom as int],
    {
        if denom < self.ledger.denomination_count() {
            Some(self.ledger.total_bridged_supply(denom))
        } else {
            None
        }
    }

    /// The highest nonce whose event has been settled; zero before the first.
    pub fn get_last_observed_nonce(&self) -> (r: u64)
        requires
            self.wf(),
        ensures
            r == self.last(),
    {
        self.sequencer.get_last_observed_nonce()
    }

    /// The attested event of nonce `n`, if it has one.
    pub fn get_attestation(&self, n: u64) -> (r: Option<DepositEvent>)
        requires
            self.wf(),
        ensures
            vote_view(r) == attestation_of(self.records(), n),
    {
        self.claims.get_attestation(n)
    }

    /// Every event handed to settlement so far, in order, with its outcome.
    pub fn settlements(&self) -> (r: &Vec<SettlementRecord>)
        requires
            self.wf(),
        ensures
            r@ == self.log(),
    {
        &self.log
    }

    /// The number of observers.
    pub fn observer_count(&self) -> (r: usize)
        requires
            self.wf(),
        ensures
            r == self.weights().len(),
    {
        self.claims.observer_count()
    }

    /// The ledger is well formed, and no claim record has nonce zero.
    pub proof fn lemma_bridge_wf(&self)
        requires
            self.wf(),
        ensures
            ledger_wf(self.ledger()),
            !self.records().contains_key(0),
    {
        self.ledger.lemma_ledger_wf();
        self.claims.lemma_records_nonzero();
    }

    /// Every claim record holds one slot per observer.
    pub proof fn lemma_records_shape(&self)
        requires
            self.wf(),
        ensures
            forall|n: u64| #[trigger]
                self.records().contains_key(n) ==> self.records()[n].votes.len() == self.weights().len(),
    {
        self.claims.lemma_records_shape();
    }

    /// Settles the due events in order and logs each with its outcome.
    fn settle_ready(&mut self, ready: &Vec<DepositEvent>)
        requires
            old(self).ledger.wf(),
            log_in_nonce_order(old(self).log@),
            log_consistent(old(self).log@),
            old(self).ledger@ == replay(empty_ledger(), old(self).log@),
            forall|j: int| 0 <= j < ready@.len() ==> (#[trigger] ready@[j]).event_nonce == old(self).log@.len() + 1 + j,
        ensures
            final(self).ledger.wf(),
            final(self).claims == old(self).claims,
            final(self).sequencer == old(self).sequencer,
            log_in_nonce_order(final(self).log@),
            log_consistent(final(self).log@),
            final(self).ledger@ == replay(empty_ledger(), final(self).log@),
            final(self).log@.len() == old(self).log@.len() + ready@.len(),
            final(self).log@.subrange(0, old(self).log@.len() as int) == old(self).log@,
            forall|j: int|
                old(self).log@.len() <= j < final(self).log@.len() ==> (#[trigger] final(self).log@[j]).event@
                    == ready@[j - old(self).log@.len()]@,
            final(self).ledger@ == replay(
                old(self).ledger@,
                final(self).log@.subrange(old(self).log@.len() as int, final(self).log@.len() as int),
            ),
            forall|j: int|
                old(self).log@.len() <= j < final(self).log@.len() ==> outcome_matches(
                    replay(old(self).ledger@, final(self).log@.subrange(old(self).log@.len() as int, j)),
                    (#[trigger] final(self).log@[j]).event@,
                    final(self).log@[j].outcome,
                ),
    {
        let ghost old_log = self.log@;
        let mut i: usize = 0;
        while i < ready.len()
            invariant
                self.ledger.wf(),
                self.claims == old(self).claims,
                self.sequencer == old(self).sequencer,
                old_log == old(self).log@,
                i <= ready@.len(),
                self.log@.len() == old_log.len() + i,
                self.log@.subrange(0, old_log.len() as int) == old_log,
                forall|j: int| 0 <= j < i ==> self.log@[old_log.len() + j].event@ == (#[trigger] ready@[j])@,
                forall|j: int| 0 <= j < ready@.len() ==> (#[trigger] ready@[j]).event_nonce == old_log.len() + 1 + j,
                log_in_nonce_order(self.log@),
                log_consistent(self.log@),
                self.ledger@ == replay(empty_ledger(), self.log@),
            decreases ready@.len() - i,
        {
            let ghost log0 = self.log@;
            let outcome = self.ledger.apply(&ready[i]);
            self.log.push(SettlementRecord { event: ready[i].duplicate(), outcome });
            proof {
                assert(self.log@.drop_last() =~= log0);
                assert(self.log@.take(log0.len() as int) =~= log0);
                assert forall|j: int| 0 <= j < self.log@.len() implies outcome_matches(
                    replay(empty_ledger(), self.log@.take(j)),
                    (#[trigger] self.log@[j]).event@,
                    self.log@[j].outcome,
                ) by {
                    if j < log0.len() {
                        assert(self.log@.take(j) =~= log0.take(j));
                        assert(self.log@[j] == log0[j]);
                    }
                }
                assert forall|j: int| 0 <= j < self.log@.len() implies (#[trigger] self.log@[j]).event.event_nonce
                    == j + 1 by {
                    if j < log0.len() {
                        assert(self.log@[j] == log0[j]);
                    }
                }
                assert(self.log@.subrange(0, old_log.len() as int) =~= log0.subrange(0, old_log.len() as int));
                assert forall|j: int| 0 <= j < i + 1 implies self.log@[old_log.len() + j].event@ == (
                #[trigger] ready@[j])@ by {
                    if j < i {
                        assert(self.log@[old_log.len() + j] == log0[old_log.len() + j]);
                    }
                }
            }
            i = i + 1;
        }
        proof {
            assert forall|j: int|
                old_log.len() <= j < self.log@.len() implies #[trigger] self.log@[j].event@ == ready@[j - old_log.len()]@ by {
                assert(self.log@[old_log.len() + (j - old_log.len())] == self.log@[j]);
            }
            let tail = self.log@.subrange(old_log.len() as int, self.log@.len() as int);
            assert(self.log@ =~= old_log + tail);
            lemma_replay_append(empty_ledger(), old_log, tail);
            lemma_tail_outcomes(old_log, self.log@);
        }
    }

    /// Takes one observer's claim. When it attests its nonce, the attested event goes to
    /// the sequencer, and every event that is then due is settled and logged in nonce
    /// order. Nothing is settled otherwise; in particular a claim for an attested nonce,
    /// matching or not, changes no balance and no supply.
    pub fn submit_claim(&mut self, claim: &Claim) -> (r: SubmitResult)
        requires
            old(self).wf(),
        ensures
            final(self).wf(),
            final(self).weights() == old(self).weights(),
            claim.event.event_nonce == 0 ==> r == SubmitResult::Rejected(RejectReason::InvalidNonce),
            claim.event.event_nonce != 0 && claim.submitter >= old(self).weights().len() ==> r
                == SubmitResult::Rejected(RejectReason::UnknownObserver),
            !claim_valid(old(self).weights(), *claim) ==> final(self).records() == old(self).records(),
            claim_valid(old(self).weights(), *claim) ==> final(self).records() == after_claim(
                old(self).records(),
                old(self).weights(),
                claim.event.event_nonce,
                claim.submitter as int,
                claim.event@,
            ) && r == claim_result(
                old(self).records(),
                old(self).weights(),
                claim.event.event_nonce,
                claim.submitter as int,
                claim.event@,
            ),
            forall|m: u64|
                #![trigger attestation_of(final(self).records(), m)]
                attestation_of(old(self).records(), m) is Some ==> attestation_of(final(self).records(), m)
                    == attestation_of(old(self).records(), m),
            attestation_of(old(self).records(), claim.event.event_nonce) is Some ==> final(self).ledger()
                == old(self).ledger() && final(self).log() == old(self).log(),
            !(claim_valid(old(self).weights(), *claim) && claim_attests(
                old(self).records(),
                old(self).weights(),
                claim.event.event_nonce,
                claim.submitter as int,
                claim.event@,
            )) ==> settlement_unchanged(*old(self), *final(self)),
            claim_valid(old(self).weights(), *claim) && claim_attests(
                old(self).records(),
                old(self).weights(),
                claim.event.event_nonce,
                claim.submitter as int,
                claim.event@,
            ) ==> arrival(*old(self), *final(self), claim.event@),
    {
        proof {
            if attestation_of(self.claims.records(), claim.event.event_nonce) is Some {
                lemma_attested_nonce_settles_nothing(
                    self.claims.records(),
                    self.claims.weights(),
                    claim.event.event_nonce,
                    claim.submitter as int,
                    claim.event@,
                );
            }
        }
        let sub = self.claims.submit(claim);
        let finalized = match sub.finalized {
            Some(f) => f,
            None => {
                proof {
                    assert(self.log@.subrange(0, self.log@.len() as int) =~= self.log@);
                }
                return sub.result;
            },
        };
        let ghost old_log = self.log@;
        let ghost old_buf = self.sequencer.buffered();
        let ghost e = finalized@;
        let ready = self.sequencer.receive(finalized);
        self.settle_ready(&ready);
        proof {
            assert forall|j: int| old_log.len() < j < self.log@.len() implies old_buf.contains_key(
                (#[trigger] self.log@[j]).event.event_nonce,
            ) && old_buf[self.log@[j].event.event_nonce] == self.log@[j].event@ by {
                let k = j - old_log.len();
                assert(self.log@[j].event@ == ready@[k]@);
                assert(ready@[k].event_nonce == self.log@[j].event.event_nonce);
            }
            if ready@.len() > 0 {
                assert(self.log@[old_log.len() as int].event@ == ready@[0]@);
            } else {
                assert(self.log@ =~= self.log@.subrange(0, old_log.len() as int));
                assert(self.log@.subrange(old_log.len() as int, self.log@.len() as int) =~= Seq::<
                    SettlementRecord,
                >::empty());
            }
        }
        sub.result
    }
}

/// The deposit event that `submit_false_claims` has every observer claim.
pub open spec fn deposit_of(
    nonce: u64,
    height: u64,
    amount: U256,
    receiver: Seq<u8>,
    sender: Seq<u8>,
    asset: Seq<u8>,
) -> EventModel {
    EventModel { nonce, height, asset, amount: amount@, destination: receiver, sender }
}

/// What an observer's claim of `e` is answered with when the nonce's attestation before
/// the round was `attested` and the observer's earlier claim was `prior`.
pub open spec fn round_result(attested: Option<EventModel>, prior: Option<EventModel>, e: EventModel) -> SubmitResult {
    if attested is Some && attested != Some(e) {
        SubmitResult::Rejected(RejectReason::AlreadyFinalizedConflict)
    } else if prior is Some {
        SubmitResult::Superseded
    } else {
        SubmitResult::Accepted
    }
}

/// Has every observer in turn claim the same deposit event: `amount` of `erc20_address`,
/// sent by `ethereum_sender` to `cosmos_receiver`, with the given nonce and block height.
/// The observers' results are returned in observer order, and afterwards the nonce's
/// record holds this event for every observer.
///
/// A nonce that was attested keeps its attestation, and nothing is settled. One that was
/// not is attested with this event as long as the observers carry any weight at all, and
/// the event then arrives at the sequencer once, with the effect `arrival` describes.
pub fn submit_false_claims(
    bridge: &mut Bridge,
    nonce: u64,
    height: u64,
    amount: U256,
    cosmos_receiver: &Vec<u8>,
    ethereum_sender: &Vec<u8>,
    erc20_address: &Vec<u8>,
) -> (r: Vec<SubmitResult>)
    requires
        old(bridge).wf(),
    ensures
        final(bridge).wf(),
        final(bridge).weights() == old(bridge).weights(),
        r@.len() == old(bridge).weights().len(),
        final(bridge).records().remove(nonce) == old(bridge).records().remove(nonce),
        nonce == 0 ==> final(bridge).records() == old(bridge).records() && settlement_unchanged(
            *old(bridge),
            *final(bridge),
        ) && forall|i: int|
            0 <= i < r@.len() ==> #[trigger] r@[i] == SubmitResult::Rejected(RejectReason::InvalidNonce),
        nonce != 0 ==> record_or_fresh(final(bridge).records(), nonce, old(bridge).weights().len()).votes
            == Seq::new(
            old(bridge).weights().len(),
            |i: int|
                Some(
                    deposit_of(nonce, height, amount, cosmos_receiver@, ethereum_sender@, erc20_address@),
                ),
        ),
        nonce != 0 ==> forall|i: int|
            0 <= i < r@.len() ==> #[trigger] r@[i] == round_result(
                attestation_of(old(bridge).records(), nonce),
                record_or_fresh(old(bridge).records(), nonce, old(bridge).weights().len()).votes[i],
                deposit_of(nonce, height, amount, cosmos_receiver@, ethereum_sender@, erc20_address@),
            ),
        attestation_of(old(bridge).records(), nonce) is Some ==> attestation_of(final(bridge).records(), nonce)
            == attestation_of(old(bridge).records(), nonce) && settlement_unchanged(*old(bridge), *final(bridge)),
        nonce != 0 && attestation_of(old(bridge).records(), nonce) is None && total_weight(
            old(bridge).weights(),
        ) == 0 ==> attestation_of(final(bridge).records(), nonce) is None && settlement_unchanged(
            *old(bridge),
            *final(bridge),
        ),
        nonce != 0 && attestation_of(old(bridge).records(), nonce) is None && total_weight(
            old(bridge).weights(),
        ) > 0 ==> attestation_of(final(bridge).records(), nonce) == Some(
            deposit_of(nonce, height, amount, cosmos_receiver@, ethereum_sender@, erc20_address@),
        ) && arrival(
            *old(bridge),
            *final(bridge),
            deposit_of(nonce, height, amount, cosmos_receiver@, ethereum_sender@, erc20_address@),
        ),
{
    let event = DepositEvent::new(
        nonce,
        height,
        copy_bytes(erc20_address),
        amount,
        copy_bytes(cosmos_receiver),
        copy_bytes(ethereum_sender),
    );
    let ghost e = event@;
    let ghost w = bridge.weights();
    let ghost b0 = *bridge;
    let ghost old_att = attestation_of(bridge.records(), nonce);
    let ghost old_votes = record_or_fresh(bridge.records(), nonce, w.len()).votes;
    let count = bridge.observer_count();
    let mut results: Vec<SubmitResult> = Vec::new();
    let mut s: usize = 0;
    proof {
        bridge.lemma_records_shape();
    }
    while s < count
        invariant
            bridge.wf(),
            b0.wf(),
            bridge.weights() == w,
            b0.weights() == w,
            count == w.len(),
            event@ == e,
            e == deposit_of(nonce, height, amount, cosmos_receiver@, ethereum_sender@, erc20_address@),
            old_att == attestation_of(b0.records(), nonce),
            old_votes == record_or_fresh(b0.records(), nonce, w.len()).votes,
            old_votes.len() == w.len(),
            s <= count,
            results@.len() == s,
            bridge.records().remove(nonce) == b0.records().remove(nonce),
            record_or_fresh(bridge.records(), nonce, w.len()).votes.len() == w.len(),
            nonce == 0 ==> bridge.records() == b0.records() && settlement_unchanged(b0, *bridge)
                && forall|k: int|
                0 <= k < s ==> #[trigger] results@[k] == SubmitResult::Rejected(RejectReason::InvalidNonce),
            nonce != 0 ==> forall|k: int|
                0 <= k < s ==> #[trigger] record_or_fresh(bridge.records(), nonce, w.len()).votes[k]
                    == Some(e),
            nonce != 0 ==> forall|k: int|
                s <= k < w.len() ==> #[trigger] record_or_fresh(bridge.records(), nonce, w.len()).votes[k]
                    == old_votes[k],
            nonce != 0 ==> forall|k: int|
                0 <= k < s ==> #[trigger] results@[k] == round_result(old_att, old_votes[k], e),
            old_att is Some ==> attestation_of(bridge.records(), nonce) == old_att && settlement_unchanged(
                b0,
                *bridge,
            ),
            nonce != 0 && old_att is None && attestation_of(bridge.records(), nonce) is None
                ==> settlement_unchanged(b0, *bridge),
            nonce != 0 && old_att is None && attestation_of(bridge.records(), nonce) is Some
                ==> attestation_of(bridge.records(), nonce) == Some(e) && arrival(b0, *bridge, e),
            nonce != 0 && old_att is None && total_weight(w) == 0 ==> attestation_of(bridge.records(), nonce)
                is None,
            nonce != 0 && old_att is None && total_weight(w) > 0 && s == count ==> attestation_of(
                bridge.records(),
                nonce,
            ) is Some,
        decreases count - s,
    {
        let ghost pre = *bridge;
        let ghost recs0 = bridge.records();
        let ghost rec = record_or_fresh(recs0, nonce, w.len());
        let ghost results0 = results@;
        let claim = Claim { event: event.duplicate(), submitter: s as u64 };
        let res = bridge.submit_claim(&claim);
        results.push(res);
        proof {
            bridge.lemma_records_shape();
            if nonce != 0 {
                let rec2 = next_record(rec, w, s as int, e);
                assert(bridge.records() == after_claim(recs0, w, nonce, s as int, e));
                assert(bridge.records().remove(nonce) =~= recs0.remove(nonce));
                assert(record_or_fresh(bridge.records(), nonce, w.len()) == rec2);
                assert(rec.attested == attestation_of(recs0, nonce));
                if old_att is Some {
                    lemma_quorum_irreversible(recs0, w, nonce, s as int, e, nonce);
                }
                lemma_claim_set_weight_bounded(rec2.votes, w, e);
                if old_att is None && rec.attested is None && s + 1 == count && total_weight(w) > 0 {
                    lemma_unanimous_weight(rec2.votes, w, e, w.len() as int);
                    assert(claim_set_weight(rec2.votes, w, e) == total_weight(w));
                }
                assert(results@[s as int] == round_result(old_att, old_votes[s as int], e));
                assert forall|k: int| 0 <= k < s + 1 implies #[trigger] results@[k] == round_result(
                    old_att,
                    old_votes[k],
                    e,
                ) by {
                    if k < s {
                        assert(results@[k] == results0[k]);
                    }
                }
            }
        }
        s = s + 1;
    }
    proof {
        if nonce != 0 {
            assert(record_or_fresh(bridge.records(), nonce, w.len()).votes =~= Seq::new(
                w.len(),
                |i: int| Some(e),
            ));
        }
    }
    results
}

} // verus!
